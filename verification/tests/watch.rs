use sudoku_cli::sudoku::board::SudokuBoard;
use sudoku_cli::sudoku::watch::{SudokuWatch, WatchStep};

const TEN: &str =
    ".75.....4.1...5.7...8.7...9..2417...4.......1...8.24..3...9.7...5.3.4..88.....31.";
const SOLVED: &str =
    "675983124913245876248671539562417983487539261139862457326198745751324698894756312";

fn run(watch: &mut SudokuWatch) -> (usize, usize, Vec<String>) {
    let mut draws = 0;
    let mut pauses = 0;
    let mut solved = Vec::new();
    let mut last_count = 0;
    loop {
        match watch.step() {
            WatchStep::Done => break,
            WatchStep::Pause => pauses += 1,
            WatchStep::Draw => {
                draws += 1;
                if watch.count() > last_count {
                    last_count = watch.count();
                    solved.push(watch.board().to_string_compact());
                }
            }
        }
        assert!(draws + pauses < 1_000_000);
    }
    (draws, pauses, solved)
}

#[test]
fn watching_all_solutions_counts_them() {
    let board = SudokuBoard::from(TEN);
    let before = board.to_string_compact();
    let mut watch = board.watch_find_all().unwrap();
    assert!(!watch.is_finished());
    assert_eq!(0, watch.count());
    let (draws, pauses, mut solved) = run(&mut watch);
    assert!(watch.is_finished());
    assert_eq!(10, watch.count());
    assert_eq!(0, pauses);
    assert!(draws > 10);
    assert_eq!(before, watch.board().to_string_compact());
    solved.sort();
    let mut all = SudokuBoard::from(TEN);
    let (_, text) = all.find_all_compact();
    let mut expected: Vec<String> = text.lines().map(|line| format!("{}\n", line)).collect();
    expected.sort();
    assert_eq!(expected, solved);
    assert_eq!(WatchStep::Done, watch.step());
    assert_eq!(10, watch.count());
}

#[test]
fn watching_one_solution_stops_drawing_after_it() {
    let board = SudokuBoard::from(TEN);
    let before = board.to_string_compact();
    let mut watch = board.watch_find_one().unwrap();
    let (draws, _pauses, solved) = run(&mut watch);
    assert!(watch.is_finished());
    assert_eq!(1, watch.count());
    assert_eq!(1, solved.len());
    assert!(draws > 1);
    assert_eq!(before, watch.board().to_string_compact());
    let mut all = SudokuBoard::from(TEN);
    let (_, text) = all.find_all_compact();
    assert!(text.contains(solved[0].as_str()));
}

#[test]
fn watching_a_solved_board_takes_one_step() {
    let mut watch = SudokuWatch::start(SudokuBoard::from(SOLVED), false).unwrap();
    assert_eq!(WatchStep::Draw, watch.step());
    assert_eq!(1, watch.count());
    assert!(watch.is_finished());
    assert_eq!(WatchStep::Done, watch.step());
}

#[test]
fn watching_a_dead_end() {
    let mut watch = SudokuWatch::start(SudokuBoard::from("12345678. ........9"), true).unwrap();
    let (draws, pauses, solved) = run(&mut watch);
    assert_eq!(0, watch.count());
    assert_eq!(0, pauses);
    assert!(draws >= 2);
    assert!(solved.is_empty());
}

#[test]
fn a_board_with_a_conflict_is_not_watched() {
    assert!(SudokuWatch::start(SudokuBoard::from("11"), false).is_none());
    assert!(SudokuWatch::start(SudokuBoard::from("11"), true).is_none());
}
