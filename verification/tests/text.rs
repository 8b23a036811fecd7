use sudoku_cli::sudoku::board::SudokuBoard;
use sudoku_cli::sudoku::data::SudokuData;

const SOLVED: &str =
    "675983124913245876248671539562417983487539261139862457326198745751324698894756312";

fn expected_display() -> String {
    let mut text = String::new();
    text.push_str("  ╔═══════════╦═══════════╦═══════════╗\n");
    text.push_str("  ║ 6 │ 7 │ 5 ║ 9 │ 8 │ 3 ║ 1 │ 2 │ 4 ║\n");
    text.push_str("  ║───┼───┼───║───┼───┼───║───┼───┼───║\n");
    text.push_str("  ║ 9 │ 1 │ 3 ║ 2 │ 4 │ 5 ║ 8 │ 7 │ 6 ║\n");
    text.push_str("  ║───┼───┼───║───┼───┼───║───┼───┼───║\n");
    text.push_str("  ║ 2 │ 4 │ 8 ║ 6 │ 7 │ 1 ║ 5 │ 3 │ 9 ║\n");
    text.push_str("  ╠═══════════╬═══════════╬═══════════╣\n");
    text.push_str("  ║ 5 │ 6 │ 2 ║ 4 │ 1 │ 7 ║ 9 │ 8 │ 3 ║\n");
    text.push_str("  ║───┼───┼───║───┼───┼───║───┼───┼───║\n");
    text.push_str("  ║ 4 │ 8 │ 7 ║ 5 │ 3 │ 9 ║ 2 │ 6 │ 1 ║\n");
    text.push_str("  ║───┼───┼───║───┼───┼───║───┼───┼───║\n");
    text.push_str("  ║ 1 │ 3 │ 9 ║ 8 │ 6 │ 2 ║ 4 │ 5 │ 7 ║\n");
    text.push_str("  ╠═══════════╬═══════════╬═══════════╣\n");
    text.push_str("  ║ 3 │ 2 │ 6 ║ 1 │ 9 │ 8 ║ 7 │ 4 │ 5 ║\n");
    text.push_str("  ║───┼───┼───║───┼───┼───║───┼───┼───║\n");
    text.push_str("  ║ 7 │ 5 │ 1 ║ 3 │ 2 │ 4 ║ 6 │ 9 │ 8 ║\n");
    text.push_str("  ║───┼───┼───║───┼───┼───║───┼───┼───║\n");
    text.push_str("  ║ 8 │ 9 │ 4 ║ 7 │ 5 │ 6 ║ 3 │ 1 │ 2 ║\n");
    text.push_str("  ╚═══════════╩═══════════╩═══════════╝\n");
    text
}

#[test]
fn pretty_text_of_a_board() {
    let board = SudokuBoard::from(SOLVED);
    let expected = format!("\n{}\n", expected_display());
    assert_eq!(expected, board.to_string());
    assert_eq!(1682, board.to_string().len());
    assert_eq!(762, board.to_string().chars().count());
}

#[test]
fn display_text_of_a_board() {
    let board = SudokuBoard::from(SOLVED);
    assert_eq!(expected_display(), board.to_display_string());
}

#[test]
fn blank_squares_are_drawn_as_spaces() {
    let board = SudokuBoard::from("1.3");
    let text = board.to_string();
    let lines: Vec<&str> = text.lines().collect();
    assert_eq!("", lines[0]);
    assert_eq!("  ╔═══════════╦═══════════╦═══════════╗", lines[1]);
    assert_eq!("  ║ 1 │   │ 3 ║   │   │   ║   │   │   ║", lines[2]);
    assert_eq!("  ║   │   │   ║   │   │   ║   │   │   ║", lines[4]);
    assert_eq!("  ╚═══════════╩═══════════╩═══════════╝", lines[19]);
    assert_eq!(1682, text.len());
}

#[test]
fn compact_text_of_a_board() {
    let board = SudokuBoard::from(SOLVED);
    assert_eq!(format!("{}\n", SOLVED), board.to_string_compact());
    assert_eq!(82, board.to_string_compact().len());
    let sparse = SudokuBoard::from("..3......4");
    let text = sparse.to_string_compact();
    assert_eq!("  3      4", &text[..10]);
    assert_eq!(82, text.len());
    assert!(text.ends_with('\n'));
}

#[test]
fn texts_of_a_row() {
    let mut data = SudokuData::default();
    data.fill_square(4, 0);
    data.fill_square(9, 8);
    data.fill_square(1, 3);
    assert_eq!("  ║ 4 │   │   ║ 1 │   │   ║   │   │ 9 ║\n", data.to_string());
    assert_eq!("║ 4 │   │   ║ 1 │   │   ║   │   │ 9 ║", data.to_framed_string());
    assert_eq!("4  1    9", data.to_string_compact());
    assert_eq!(4, data.value_at(0));
    assert_eq!(0, data.value_at(1));
    assert_eq!(9, data.value_at(8));
}

#[test]
fn masks_of_a_row() {
    let mut data = SudokuData::default();
    data.mark_in_row(1);
    data.mark_in_col(2);
    data.mark_in_box(9);
    assert_eq!(0b100000000, data.values_in_row());
    assert_eq!(0b010000000, data.values_in_col());
    assert_eq!(0b000000001, data.values_in_box());
    data.unmark_from_col(2);
    assert_eq!(0, data.values_in_col());
    assert_eq!(0b100000000, data.values_in_row());
    data.mark_in_row(0);
    assert_eq!(0b100000000, data.values_in_row());
    data.unmark_from_row(0);
    assert_eq!(0b100000000, data.values_in_row());
}
