use sudoku_cli::sudoku::board::SudokuBoard;

#[test]
fn fillable_squares() {
    let mut board = SudokuBoard::from(
        "--------------3-85--1-2-------5-7-----4---1---9-------5------73--2-1--------4---9",
    );
    board.analyze_fillable_squares();
    assert_eq!(81 - 17, board.fillable_count());
}

#[test]
fn count_solutions() {
    let mut board = SudokuBoard::from(
        "--------------3-85--1-2-------5-7-----4---1---9-------5------73--2-1--------4---9",
    );
    assert_eq!(1, board.count_solutions());
    let mut board = SudokuBoard::from(
        ".75.....42139.5.7...8.....9..241....4...........8.24..3...9.7...5.3..6988.....31.",
    );
    assert_eq!(35, board.count_solutions());
    let mut board = SudokuBoard::from(
        "
            -  -  -  -  -  -  -  -  -
            -  -  -  -  -  3  -  8  5
            -  -  1  -  2  -  -  -  -
            -  -  -  5  -  7  -  -  -
            -  -  4  -  -  -  1  -  -
            -  9  -  -  -  -  -  -  -
            5  -  -  -  -  -  -  7  3
            -  -  2  -  1  -  -  -  -
            -  -  -  -  4  -  -  -  9
        ",
    );
    assert_eq!(1, board.count_solutions());
}

#[test]
fn find_all() {
    let mut board = SudokuBoard::from(
        ".75.....4.1...5.7...8.7...9..2417...4.......1...8.24..3...9.7...5.3.4..88.....31.",
    );
    let expected_count = 10;
    let expected_solutions = vec![
        "675983124913245876248671539562417983487539261139862457326198745751324698894756312",
        "675983124913245876248671539582417693437569281169832457326198745751324968894756312",
        "675983124913245876248671539582417693467539281139862457326198745751324968894756312",
        "675983124913245876248671539582417963437569281169832457326198745751324698894756312",
        "675983124913245876248671539582417963467539281139862457326198745751324698894756312",
        "975683124213945876648271539562417983487539261139862457326198745751324698894756312",
        "975683124213945876648271539582417693437569281169832457326198745751324968894756312",
        "975683124213945876648271539582417693467539281139862457326198745751324968894756312",
        "975683124213945876648271539582417963437569281169832457326198745751324698894756312",
        "975683124213945876648271539582417963467539281139862457326198745751324698894756312",
    ];
    let (count, solutions) = board.find_all_compact();
    assert_eq!(count, expected_count);
    for solution in &expected_solutions {
        assert!(solutions.contains(solution));
    }
}

#[test]
fn find_one() {
    let mut board = SudokuBoard::from(
        ".75.....4.1...5.7...8.7...9..2417...4.......1...8.24..3...9.7...5.3.4..88.....31.",
    );
    let expected_count = 1;
    let expected_solutions = vec![
        "675983124913245876248671539562417983487539261139862457326198745751324698894756312",
        "675983124913245876248671539582417693437569281169832457326198745751324968894756312",
        "675983124913245876248671539582417693467539281139862457326198745751324968894756312",
        "675983124913245876248671539582417963437569281169832457326198745751324698894756312",
        "675983124913245876248671539582417963467539281139862457326198745751324698894756312",
        "975683124213945876648271539562417983487539261139862457326198745751324698894756312",
        "975683124213945876648271539582417693437569281169832457326198745751324968894756312",
        "975683124213945876648271539582417693467539281139862457326198745751324968894756312",
        "975683124213945876648271539582417963437569281169832457326198745751324698894756312",
        "975683124213945876648271539582417963467539281139862457326198745751324698894756312",
    ];
    let (count, mut solution) = board.find_one_compact();
    solution.pop();
    assert_eq!(count, expected_count);
    assert!(expected_solutions.contains(&&solution.as_str()));
}

#[test]
fn count_sequential_matches_known_counts() {
    let mut board = SudokuBoard::from(
        ".75.....42139.5.7...8.....9..241....4...........8.24..3...9.7...5.3..6988.....31.",
    );
    board.analyze_fillable_squares();
    assert_eq!(35, board.count_solutions_seq());
}
