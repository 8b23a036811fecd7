use sudoku_cli::sudoku::data::SudokuData;


#[test]
fn zero_slot() {
    let mut data = SudokuData::default();
    data.fill_square(0b0101, 0);
    assert_eq!(
        data.data(),
        0b0_000000000_0000000000_000000000_0101_0000_0000_0000_0000_0000_0000_0000_0000,
    );
    data.clear_square(0);
    assert_eq!(data.data(), 0);
}

#[test]
fn one_slot() {
    let mut data = SudokuData::default();
    data.fill_square(0b0101, 1);
    assert_eq!(
        data.data(),
        0b0_000000000_0000000000_000000000_0000_0101_0000_0000_0000_0000_0000_0000_0000,
    );
    data.clear_square(1);
    assert_eq!(data.data(), 0);
}

#[test]
fn two_slot() {
    let mut data = SudokuData::default();
    data.fill_square(0b0101, 2);
    assert_eq!(
        data.data(),
        0b0_000000000_0000000000_000000000_0000_0000_0101_0000_0000_0000_0000_0000_0000,
    );
    data.clear_square(2);
    assert_eq!(data.data(), 0);
}

#[test]
fn three_slot() {
    let mut data = SudokuData::default();
    data.fill_square(0b0101, 3);
    assert_eq!(
        data.data(),
        0b0_000000000_0000000000_000000000_0000_0000_0000_0101_0000_0000_0000_0000_0000,
    );
    data.clear_square(3);
    assert_eq!(data.data(), 0);
}

#[test]
fn four_slot() {
    let mut data = SudokuData::default();
    data.fill_square(0b0101, 4);
    assert_eq!(
        data.data(),
        0b0_000000000_0000000000_000000000_0000_0000_0000_0000_0101_0000_0000_0000_0000,
    );
    data.clear_square(4);
    assert_eq!(data.data(), 0);
}

#[test]
fn five_slot() {
    let mut data = SudokuData::default();
    data.fill_square(0b0101, 5);
    assert_eq!(
        data.data(),
        0b0_000000000_0000000000_000000000_0000_0000_0000_0000_0000_0101_0000_0000_0000,
    );
    data.clear_square(5);
    assert_eq!(data.data(), 0);
}

#[test]
fn six_slot() {
    let mut data = SudokuData::default();
    data.fill_square(0b0101, 6);
    assert_eq!(
        data.data(),
        0b0_000000000_0000000000_000000000_0000_0000_0000_0000_0000_0000_0101_0000_0000,
    );
    data.clear_square(6);
    assert_eq!(data.data(), 0);
}

#[test]
fn seven_slot() {
    let mut data = SudokuData::default();
    data.fill_square(0b0101, 7);
    assert_eq!(
        data.data(),
        0b0_000000000_0000000000_000000000_0000_0000_0000_0000_0000_0000_0000_0101_0000,
    );
    data.clear_square(7);
    assert_eq!(data.data(), 0);
}

#[test]
fn eight_slot() {
    let mut data = SudokuData::default();
    data.fill_square(0b0101, 8);
    assert_eq!(
        data.data(),
        0b0_000000000_0000000000_000000000_0000_0000_0000_0000_0000_0000_0000_0000_0101,
    );
    data.clear_square(8);
    assert_eq!(data.data(), 0);
}

#[test]
fn mark_rows() {
    let mut data = SudokuData::default();
    data.mark_in_row(1);
    data.mark_in_row(3);
    data.mark_in_row(5);
    data.mark_in_row(7);
    data.mark_in_row(9);
    println!("{:b}", data.data());
    assert_eq!(
        data.data(),
        0b0_101010101_000000000_000000000_0000_0000_0000_0000_0000_0000_0000_0000_0000,
    );
    data.mark_in_row(2);
    data.mark_in_row(4);
    data.mark_in_row(6);
    data.mark_in_row(8);
    assert_eq!(
        data.data(),
        0b0_111111111_000000000_000000000_0000_0000_0000_0000_0000_0000_0000_0000_0000,
    );
    data.unmark_from_row(8);
    data.unmark_from_row(6);
    data.unmark_from_row(4);
    data.unmark_from_row(2);
    assert_eq!(
        data.data(),
        0b0_101010101_000000000_000000000_0000_0000_0000_0000_0000_0000_0000_0000_0000,
    );
    data.unmark_from_row(9);
    data.unmark_from_row(7);
    data.unmark_from_row(5);
    data.unmark_from_row(3);
    data.unmark_from_row(1);
    assert_eq!(data.data(), 0);
}

#[test]
fn mark_cols() {
    let mut data = SudokuData::default();
    data.mark_in_col(1);
    data.mark_in_col(3);
    data.mark_in_col(5);
    data.mark_in_col(7);
    data.mark_in_col(9);
    assert_eq!(
        data.data(),
        0b0_000000000_101010101_000000000_0000_0000_0000_0000_0000_0000_0000_0000_0000,
    );
    data.mark_in_col(2);
    data.mark_in_col(4);
    data.mark_in_col(6);
    data.mark_in_col(8);
    assert_eq!(
        data.data(),
        0b0_000000000_111111111_000000000_0000_0000_0000_0000_0000_0000_0000_0000_0000,
    );
    data.unmark_from_col(8);
    data.unmark_from_col(6);
    data.unmark_from_col(4);
    data.unmark_from_col(2);
    assert_eq!(
        data.data(),
        0b0_000000000_101010101_000000000_0000_0000_0000_0000_0000_0000_0000_0000_0000,
    );
    data.unmark_from_col(9);
    data.unmark_from_col(7);
    data.unmark_from_col(5);
    data.unmark_from_col(3);
    data.unmark_from_col(1);
    assert_eq!(data.data(), 0);
}

#[test]
fn mark_boxes() {
    let mut data = SudokuData::default();
    data.mark_in_box(1);
    data.mark_in_box(3);
    data.mark_in_box(5);
    data.mark_in_box(7);
    data.mark_in_box(9);
    assert_eq!(
        data.data(),
        0b0_000000000_000000000_101010101_0000_0000_0000_0000_0000_0000_0000_0000_0000,
    );
    data.mark_in_box(2);
    data.mark_in_box(4);
    data.mark_in_box(6);
    data.mark_in_box(8);
    assert_eq!(
        data.data(),
        0b0_000000000_000000000_111111111_0000_0000_0000_0000_0000_0000_0000_0000_0000,
    );
    data.unmark_from_box(8);
    data.unmark_from_box(6);
    data.unmark_from_box(4);
    data.unmark_from_box(2);
    assert_eq!(
        data.data(),
        0b0_000000000_000000000_101010101_0000_0000_0000_0000_0000_0000_0000_0000_0000,
    );
    data.unmark_from_box(9);
    data.unmark_from_box(7);
    data.unmark_from_box(5);
    data.unmark_from_box(3);
    data.unmark_from_box(1);
    assert_eq!(data.data(), 0);
}
