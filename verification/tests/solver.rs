use sudoku_cli::sudoku::board::{board_indices, box_index, SudokuBoard, SudokuSquare};
use sudoku_cli::sudoku::search::Search;

const SOLVED: &str =
    "675983124913245876248671539562417983487539261139862457326198745751324698894756312";
const TEN: &str =
    ".75.....4.1...5.7...8.7...9..2417...4.......1...8.24..3...9.7...5.3.4..88.....31.";
const SEVENTEEN: &str =
    "--------------3-85--1-2-------5-7-----4---1---9-------5------73--2-1--------4---9";

fn lines_of(text: &str) -> Vec<String> {
    let mut lines: Vec<String> = text.lines().map(String::from).collect();
    lines.sort();
    lines
}

#[test]
fn solved_board_has_itself_as_only_solution() {
    let mut board = SudokuBoard::from(SOLVED);
    assert!(board.is_solvable());
    assert_eq!(1, board.count_solutions());
    let (count, text) = board.find_all_compact();
    assert_eq!(1, count);
    assert_eq!(format!("{}\n", SOLVED), text);
    let (count, text) = board.find_one_compact();
    assert_eq!(1, count);
    assert_eq!(format!("{}\n", SOLVED), text);
    let (count, text) = board.find_all();
    assert_eq!(1, count);
    assert_eq!(board.to_string(), text);
}

#[test]
fn duplicate_in_a_row_gives_no_solution() {
    let mut board = SudokuBoard::from("11");
    assert!(!board.is_solvable());
    assert_eq!(0, board.count_solutions());
    assert_eq!((0, String::new()), board.find_all());
    assert_eq!((0, String::new()), board.find_all_compact());
    assert_eq!((0, String::new()), board.find_one());
    assert_eq!((0, String::new()), board.find_one_compact());
    assert_eq!(0, board.fillable_count());
}

#[test]
fn duplicate_in_a_column_gives_no_solution() {
    let mut board = SudokuBoard::from("7........ 7");
    assert!(!board.is_solvable());
    assert_eq!(0, board.count_solutions());
}

#[test]
fn duplicate_in_a_box_gives_no_solution() {
    let mut board = SudokuBoard::from("3........ .3");
    assert!(!board.is_solvable());
    assert_eq!(0, board.count_solutions());
}

#[test]
fn conflicting_value_is_still_written() {
    let board = SudokuBoard::from("11");
    assert_eq!(1, board.value_at(&SudokuSquare::new(0, 0, 0)));
    assert_eq!(1, board.value_at(&SudokuSquare::new(0, 1, 0)));
}

#[test]
fn find_all_count_matches_text_and_count_solutions() {
    let mut board = SudokuBoard::from(TEN);
    let (count, text) = board.find_all_compact();
    assert_eq!(10, count);
    assert_eq!(82 * count, text.chars().count());
    assert_eq!(count, text.len() / 82);
    assert_eq!(count, board.count_solutions());
    let (count, text) = board.find_all();
    assert_eq!(10, count);
    assert_eq!(762 * count, text.chars().count());
    assert_eq!(1682 * count, text.len());
}

#[test]
fn parallel_and_sequential_engines_agree() {
    for _ in 0..5 {
        let mut board = SudokuBoard::from(TEN);
        let (par_count, par_text) = board.find_all_compact();
        board.analyze_fillable_squares();
        let (seq_count, seq_text) = board.find_all_compact_seq();
        assert_eq!(par_count, seq_count);
        assert_eq!(lines_of(&par_text), lines_of(&seq_text));
        board.analyze_fillable_squares();
        assert_eq!(par_count, board.count_solutions_seq());
        board.analyze_fillable_squares();
        assert_eq!(par_count, board.count_solutions_par());
        board.analyze_fillable_squares();
        let (pretty_count, pretty_text) = board.find_all_seq();
        assert_eq!(par_count, pretty_count);
        assert_eq!(762 * pretty_count, pretty_text.chars().count());
    }
}

#[test]
fn find_one_engines_return_a_solution() {
    let mut all = SudokuBoard::from(TEN);
    let (_, all_text) = all.find_all_compact();
    let solutions = lines_of(&all_text);
    let mut board = SudokuBoard::from(TEN);
    board.analyze_fillable_squares();
    let (count, text) = board.find_one_compact_seq();
    assert_eq!(1, count);
    assert!(solutions.contains(&text.trim_end().to_string()));
    board.analyze_fillable_squares();
    let (count, text) = board.find_one_compact_par();
    assert_eq!(1, count);
    assert!(solutions.contains(&text.trim_end().to_string()));
    board.analyze_fillable_squares();
    let (count, text) = board.find_one_seq();
    assert_eq!(1, count);
    assert_eq!(1682, text.len());
    let (count, text) = board.find_one();
    assert_eq!(1, count);
    assert_eq!(1682, text.len());
}

#[test]
fn puzzle_without_solution_but_without_duplicate() {
    // The first row leaves only 9 for its last square, which the column forbids.
    let mut board = SudokuBoard::from("12345678. ........9");
    assert!(board.is_solvable());
    assert_eq!(0, board.count_solutions());
    assert_eq!((0, String::new()), board.find_all_compact());
    assert_eq!((0, String::new()), board.find_one_compact());
}

#[test]
fn compact_text_reads_back_as_the_same_board() {
    let mut board = SudokuBoard::from(TEN);
    let (_, text) = board.find_one_compact();
    let solved = SudokuBoard::from(text.as_str());
    let again = SudokuBoard::from(solved.to_string_compact().as_str());
    assert_eq!(solved.to_string_compact(), again.to_string_compact());
    assert_eq!(solved.to_string(), again.to_string());
    assert_eq!(solved.is_solvable(), again.is_solvable());
    for row in 0..9 {
        for col in 0..9 {
            let square = SudokuSquare::new(row, col, box_index(row, col));
            assert_eq!(solved.value_at(&square), again.value_at(&square));
            assert_eq!(solved.options(&square), again.options(&square));
        }
    }
}

#[test]
fn seventeen_givens_have_one_solution() {
    let mut board = SudokuBoard::from(SEVENTEEN);
    assert_eq!(1, board.count_solutions());
}

#[test]
fn thirty_five_solutions() {
    let mut board = SudokuBoard::from(
        ".75.....42139.5.7...8.....9..241....4...........8.24..3...9.7...5.3..6988.....31.",
    );
    assert_eq!(35, board.count_solutions());
}

#[test]
fn ten_solutions_hold_the_expected_one() {
    let mut board = SudokuBoard::from(TEN);
    let (count, text) = board.find_all_compact();
    assert_eq!(10, count);
    let solutions = lines_of(&text);
    assert_eq!(10, solutions.len());
    assert!(solutions.contains(&SOLVED.to_string()));
    for solution in &solutions {
        assert_eq!(81, solution.len());
        for (given, found) in TEN.chars().zip(solution.chars()) {
            assert!(given == '.' || given == found);
        }
    }
}

#[test]
fn short_input_leaves_the_rest_blank() {
    let board = SudokuBoard::from("123");
    let mut expected = String::from("123");
    for _ in 3..81 {
        expected.push(' ');
    }
    expected.push('\n');
    assert_eq!(expected, board.to_string_compact());
    let empty = SudokuBoard::from("");
    assert_eq!(format!("{}\n", " ".repeat(81)), empty.to_string_compact());
    assert!(empty.is_solvable());
}

#[test]
fn input_beyond_81_squares_is_ignored() {
    let long = format!("{}123456789", SOLVED);
    let board = SudokuBoard::from(long.as_str());
    assert_eq!(format!("{}\n", SOLVED), board.to_string_compact());
    assert!(board.is_solvable());
}

#[test]
fn white_space_is_skipped_and_other_characters_are_blanks() {
    let board = SudokuBoard::from(" 1\t2\n3\r\u{A0}4\u{2003}5\u{3000}x0-9");
    let compact = board.to_string_compact();
    assert_eq!("12345   9", &compact[..9]);
    assert_eq!(82, compact.len());
}

#[test]
fn insert_places_values_and_zero_is_no_op() {
    let board = SudokuBoard::default().insert(5, 3, 4).insert(0, 3, 5).insert(7, 8, 8);
    assert!(board.is_solvable());
    assert_eq!(5, board.value_at(&SudokuSquare::new(3, 4, 4)));
    assert_eq!(0, board.value_at(&SudokuSquare::new(3, 5, 4)));
    assert_eq!(7, board.value_at(&SudokuSquare::new(8, 8, 8)));
    let board = board.insert(5, 3, 0);
    assert!(!board.is_solvable());
    assert_eq!(5, board.value_at(&SudokuSquare::new(3, 0, 3)));
    let board = board.insert(1, 0, 0);
    assert!(!board.is_solvable());
}

#[test]
fn options_and_counts_of_a_square() {
    let board = SudokuBoard::default().insert(1, 0, 1).insert(3, 5, 0).insert(9, 2, 2);
    let square = SudokuSquare::new(0, 0, 0);
    assert_eq!(0b101000001, board.options(&square));
    assert_eq!(6, board.count_options(&square));
    assert_eq!(3, board.taken_count(&square));
    assert_eq!(vec![2, 4, 5, 6, 7, 8], board.options_iter(&square));
    let free = SudokuSquare::new(8, 8, 8);
    assert_eq!(0, board.options(&free));
    assert_eq!(9, board.count_options(&free));
    assert_eq!(vec![1, 2, 3, 4, 5, 6, 7, 8, 9], board.options_iter(&free));
}

#[test]
fn fill_and_clear_are_paired() {
    let mut board = SudokuBoard::default().insert(1, 0, 1);
    let square = SudokuSquare::new(4, 4, 4);
    let before = board.to_string();
    let peer = SudokuSquare::new(4, 0, 3);
    assert_eq!(9, board.count_options(&peer));
    board.fill(&square, 6);
    assert_eq!(6, board.value_at(&square));
    assert_eq!(8, board.count_options(&peer));
    assert_eq!(vec![1, 2, 3, 4, 5, 7, 8, 9], board.options_iter(&peer));
    board.fill(&square, 2);
    assert_eq!(2, board.value_at(&square));
    assert_eq!(vec![1, 3, 4, 5, 6, 7, 8, 9], board.options_iter(&peer));
    board.clear(&square);
    assert_eq!(0, board.value_at(&square));
    assert_eq!(9, board.count_options(&peer));
    assert_eq!(before, board.to_string());
}

#[test]
fn pool_is_sorted_and_next_square_has_fewest_options() {
    let mut board = SudokuBoard::from(SEVENTEEN);
    board.analyze_fillable_squares();
    let total = board.fillable_count();
    assert_eq!(64, total);
    let mut least = 9;
    for row in 0..9 {
        for col in 0..9 {
            let square = SudokuSquare::new(row, col, box_index(row, col));
            if board.value_at(&square) == 0 {
                least = least.min(board.count_options(&square));
            }
        }
    }
    for i in 1..total {
        let earlier = board.fillable_at(i - 1);
        let later = board.fillable_at(i);
        assert!(board.count_options(&earlier) >= board.count_options(&later));
        assert!(board.taken_count(&earlier) <= board.taken_count(&later));
    }
    assert_eq!(least, board.count_options(&board.fillable_at(total - 1)));
    let square = board.next_fillable_square();
    assert_eq!(0, board.value_at(&square));
    assert_eq!(least, board.count_options(&square));
    assert_eq!(box_index(square.0, square.1), square.2);
    assert_eq!(total - 1, board.fillable_count());
}

#[test]
fn forced_square_is_taken_first() {
    let mut board = SudokuBoard::from("12345678. .........");
    board.analyze_fillable_squares();
    let square = board.next_fillable_square();
    assert_eq!((0, 8, 2), (square.0, square.1, square.2));
    assert_eq!(1, board.count_options(&square));
}

#[test]
fn box_index_of_each_band() {
    let expected = [
        [0, 0, 0, 1, 1, 1, 2, 2, 2],
        [0, 0, 0, 1, 1, 1, 2, 2, 2],
        [0, 0, 0, 1, 1, 1, 2, 2, 2],
        [3, 3, 3, 4, 4, 4, 5, 5, 5],
        [3, 3, 3, 4, 4, 4, 5, 5, 5],
        [3, 3, 3, 4, 4, 4, 5, 5, 5],
        [6, 6, 6, 7, 7, 7, 8, 8, 8],
        [6, 6, 6, 7, 7, 7, 8, 8, 8],
        [6, 6, 6, 7, 7, 7, 8, 8, 8],
    ];
    for row in 0..9 {
        for col in 0..9 {
            assert_eq!(expected[row][col], box_index(row, col));
        }
    }
    assert_eq!(8, box_index(20, 20));
    assert_eq!(6, box_index(9, 0));
}

#[test]
fn board_indices_are_row_major() {
    let indices = board_indices();
    assert_eq!(81, indices.len());
    assert_eq!((0, 0), indices[0]);
    assert_eq!((0, 8), indices[8]);
    assert_eq!((1, 0), indices[9]);
    assert_eq!((4, 7), indices[43]);
    assert_eq!((8, 8), indices[80]);
}

#[test]
fn clone_is_independent() {
    let mut board = SudokuBoard::from(TEN);
    let copy = board.clone();
    let square = SudokuSquare::new(0, 0, 0);
    board.fill(&square, 6);
    assert_eq!(6, board.value_at(&square));
    assert_eq!(0, copy.value_at(&square));
}

#[test]
fn solve_branch_answers_for_one_option() {
    let mut board = SudokuBoard::from(TEN);
    board.analyze_fillable_squares();
    let square = board.next_fillable_square();
    let options = board.options_iter(&square);
    let mut total = 0;
    let mut texts = Vec::new();
    for value in options {
        let (count, text) = board.solve_branch(&square, value, Search::Count, false);
        assert_eq!("", text);
        let (found, listed) = board.solve_branch(&square, value, Search::FindAllCompact, true);
        assert_eq!(count, found);
        assert_eq!(82 * found, listed.len());
        let (one, shown) = board.solve_branch(&square, value, Search::FindOne, false);
        assert_eq!(one, found.min(1));
        assert_eq!(1682 * one, shown.len());
        total += count;
        texts.extend(lines_of(&listed));
    }
    assert_eq!(10, total);
    texts.sort();
    let mut all = SudokuBoard::from(TEN);
    assert_eq!(lines_of(&all.find_all_compact().1), texts);
}

#[test]
fn board_from_an_owned_text() {
    let owned = String::from(SOLVED);
    let board = SudokuBoard::from(owned);
    assert_eq!(format!("{}\n", SOLVED), board.to_string_compact());
    let parsed = SudokuBoard::parse(SOLVED);
    assert_eq!(board.to_string(), parsed.to_string());
}

#[test]
fn exactly_the_white_space_characters_are_skipped() {
    let white: Vec<u32> = vec![
        0x09, 0x0A, 0x0B, 0x0C, 0x0D, 0x20, 0x85, 0xA0, 0x1680, 0x2000, 0x2001, 0x2002, 0x2003,
        0x2004, 0x2005, 0x2006, 0x2007, 0x2008, 0x2009, 0x200A, 0x2028, 0x2029, 0x202F, 0x205F,
        0x3000,
    ];
    let first = SudokuSquare::new(0, 0, 0);
    let second = SudokuSquare::new(0, 1, 0);
    let codes = (0..=0x3FFFu32).chain((0x4000..=0x10FFFFu32).step_by(7));
    for code in codes {
        if let Some(c) = char::from_u32(code) {
            let mut text = String::new();
            text.push(c);
            text.push('5');
            let board = SudokuBoard::from(text.as_str());
            if white.contains(&code) {
                assert_eq!(5, board.value_at(&first), "U+{:04X}", code);
                assert_eq!(0, board.value_at(&second), "U+{:04X}", code);
            } else {
                let digit = if ('0'..='9').contains(&c) { code as u64 - 0x30 } else { 0 };
                assert_eq!(digit, board.value_at(&first), "U+{:04X}", code);
                assert_eq!(5, board.value_at(&second), "U+{:04X}", code);
            }
        }
    }
}
