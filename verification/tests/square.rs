use sudoku_cli::sudoku::data::SudokuData;
use sudoku_cli::sudoku::square::SudokuSquare;

#[test]
fn retrieve_options_single_square() {
    let mut row_data = SudokuData::default();
    let mut col_data = SudokuData::default();
    let mut box_data = SudokuData::default();

    let mut square = SudokuSquare::new(0, 0);
    println!("data = {}", square.data());
    assert_eq!(9, square.count_options());
    assert_eq!(9, square.options().len());

    square.update_data(&row_data, &col_data, &box_data);
    assert_eq!(9, square.count_options());
    assert_eq!(9, square.options().len());

    row_data.mark_in_row(1);
    row_data.mark_in_row(3);
    col_data.mark_in_col(5);
    col_data.mark_in_col(7);
    box_data.mark_in_box(9);

    square.update_data(&row_data, &col_data, &box_data);
    assert_eq!(4, square.count_options());
    assert_eq!(vec![2, 4, 6, 8], square.options());
}

#[test]
fn retrieve_options_multi_square() {
    let mut row1 = SudokuData::default();
    let mut col1 = SudokuData::default();
    let mut box1 = SudokuData::default();
    let mut box2 = SudokuData::default();

    let mut square1 = SudokuSquare::new(0, 0);
    let mut square2 = SudokuSquare::new(0, 4);
    assert_eq!(9, square1.count_options());
    assert_eq!(9, square1.options().len());
    assert_eq!(9, square2.count_options());
    assert_eq!(9, square2.options().len());

    row1.mark_in_row(1);
    row1.mark_in_row(3);
    col1.mark_in_col(5);
    col1.mark_in_col(7);
    box1.mark_in_box(9);
    box1.mark_in_box(2);
    box2.mark_in_box(4);
    box2.mark_in_box(6);

    assert_eq!(9, square1.count_options());
    assert_eq!(9, square1.options().len());
    assert_eq!(9, square2.count_options());
    assert_eq!(9, square2.options().len());

    square1.update_data(&row1, &col1, &box1);
    square2.update_data(&row1, &col1, &box2);

    assert_eq!(vec![4, 6, 8], square1.options());
    assert_eq!(vec![2, 8, 9], square2.options());
}

#[test]
fn fill_square() {
    let mut row = SudokuData::default();
    let mut col = SudokuData::default();
    let mut bx = SudokuData::default();

    let mut square = SudokuSquare::new(0, 0);
    square.clear(&mut row, &mut col, &mut bx);
    square.update_data(&row, &col, &bx);
    assert_eq!(vec![1, 2, 3, 4, 5, 6, 7, 8, 9], square.options());
    square.fill(5, &mut row, &mut col, &mut bx);
    square.update_data(&row, &col, &bx);
    assert_eq!(vec![1, 2, 3, 4, 6, 7, 8, 9], square.options());
    square.fill(3, &mut row, &mut col, &mut bx);
    square.update_data(&row, &col, &bx);
    assert_eq!(vec![1, 2, 4, 5, 6, 7, 8, 9], square.options());
    square.clear(&mut row, &mut col, &mut bx);
    square.update_data(&row, &col, &bx);
    assert_eq!(vec![1, 2, 3, 4, 5, 6, 7, 8, 9], square.options());
}

#[test]
fn squares_compare_by_place_and_value() {
    let mut row = SudokuData::default();
    let mut col = SudokuData::default();
    let mut bx = SudokuData::default();
    let first = SudokuSquare::new(0, 0);
    let mut second = SudokuSquare::new(0, 0);
    let third = SudokuSquare::new(0, 1);
    assert!(first == second);
    assert!(first < third);
    assert!(third > first);
    second.fill(4, &mut row, &mut col, &mut bx);
    assert!(first != second);
    assert!(first < second);
    assert!(second < third);
    assert_eq!(4, second.value());
    assert_eq!(0, second.col());
    assert_eq!(1, third.col());
}
