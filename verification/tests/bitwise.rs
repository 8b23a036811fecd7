use sudoku_cli::sudoku::bitwise::{
    as_bit, as_bit_inverse, shift_to_box, shift_to_box_inverse, shift_to_col, shift_to_col_inverse, shift_to_row,
    shift_to_row_inverse, shift_to_square, value_in_square, values_in_box, values_in_col,
    values_in_row, zero_out_square,
};


#[test]
fn shifts() {
    const FOUR_SET_BITS: usize = 0b1111;
    const NINE_SET_BITS: u64 = 0b111111111;
    assert_eq!(
        shift_to_row(NINE_SET_BITS),
        0b0_111111111_000000000_000000000_0000_0000_0000_0000_0000_0000_0000_0000_0000,
    );
    assert_eq!(
        shift_to_col(NINE_SET_BITS),
        0b0_000000000_111111111_000000000_0000_0000_0000_0000_0000_0000_0000_0000_0000,
    );
    assert_eq!(
        shift_to_box(NINE_SET_BITS),
        0b0_000000000_000000000_111111111_0000_0000_0000_0000_0000_0000_0000_0000_0000,
    );
    assert_eq!(
        shift_to_square(FOUR_SET_BITS, 0),
        0b0_000000000_000000000_000000000_1111_0000_0000_0000_0000_0000_0000_0000_0000,
    );
    assert_eq!(
        shift_to_square(FOUR_SET_BITS, 1),
        0b0_000000000_000000000_000000000_0000_1111_0000_0000_0000_0000_0000_0000_0000,
    );
    assert_eq!(
        shift_to_square(FOUR_SET_BITS, 2),
        0b0_000000000_000000000_000000000_0000_0000_1111_0000_0000_0000_0000_0000_0000,
    );
    assert_eq!(
        shift_to_square(FOUR_SET_BITS, 3),
        0b0_000000000_000000000_000000000_0000_0000_0000_1111_0000_0000_0000_0000_0000,
    );
    assert_eq!(
        shift_to_square(FOUR_SET_BITS, 4),
        0b0_000000000_000000000_000000000_0000_0000_0000_0000_1111_0000_0000_0000_0000,
    );
    assert_eq!(
        shift_to_square(FOUR_SET_BITS, 5),
        0b0_000000000_000000000_000000000_0000_0000_0000_0000_0000_1111_0000_0000_0000,
    );
    assert_eq!(
        shift_to_square(FOUR_SET_BITS, 6),
        0b0_000000000_000000000_000000000_0000_0000_0000_0000_0000_0000_1111_0000_0000,
    );
    assert_eq!(
        shift_to_square(FOUR_SET_BITS, 7),
        0b0_000000000_000000000_000000000_0000_0000_0000_0000_0000_0000_0000_1111_0000,
    );
    assert_eq!(
        shift_to_square(FOUR_SET_BITS, 8),
        0b0_000000000_000000000_000000000_0000_0000_0000_0000_0000_0000_0000_0000_1111,
    );
}

#[test]
fn inverse_shifts() {
    const NINE_UNSET_BITS: u64 =
        0b1111111111111111111111111111111111111111111111111111111_000000000;
    assert_eq!(
        shift_to_row_inverse(NINE_UNSET_BITS),
        0b1_000000000_111111111_111111111_1111_1111_1111_1111_1111_1111_1111_1111_1111,
    );
    assert_eq!(
        shift_to_col_inverse(NINE_UNSET_BITS),
        0b1_111111111_000000000_111111111_1111_1111_1111_1111_1111_1111_1111_1111_1111,
    );
    assert_eq!(
        shift_to_box_inverse(NINE_UNSET_BITS),
        0b1_111111111_111111111_000000000_1111_1111_1111_1111_1111_1111_1111_1111_1111,
    );
}

#[test]
fn clears() {
    const ALL_SET_BITS: u64 =
        0b1_111111111_111111111_111111111_1111_1111_1111_1111_1111_1111_1111_1111_1111;
    assert_eq!(
        zero_out_square(ALL_SET_BITS, 0),
        0b1_111111111_111111111_111111111_0000_1111_1111_1111_1111_1111_1111_1111_1111,
    );
    assert_eq!(
        zero_out_square(ALL_SET_BITS, 1),
        0b1_111111111_111111111_111111111_1111_0000_1111_1111_1111_1111_1111_1111_1111,
    );
    assert_eq!(
        zero_out_square(ALL_SET_BITS, 2),
        0b1_111111111_111111111_111111111_1111_1111_0000_1111_1111_1111_1111_1111_1111,
    );
    assert_eq!(
        zero_out_square(ALL_SET_BITS, 3),
        0b1_111111111_111111111_111111111_1111_1111_1111_0000_1111_1111_1111_1111_1111,
    );
    assert_eq!(
        zero_out_square(ALL_SET_BITS, 4),
        0b1_111111111_111111111_111111111_1111_1111_1111_1111_0000_1111_1111_1111_1111,
    );
    assert_eq!(
        zero_out_square(ALL_SET_BITS, 5),
        0b1_111111111_111111111_111111111_1111_1111_1111_1111_1111_0000_1111_1111_1111,
    );
    assert_eq!(
        zero_out_square(ALL_SET_BITS, 6),
        0b1_111111111_111111111_111111111_1111_1111_1111_1111_1111_1111_0000_1111_1111,
    );
    assert_eq!(
        zero_out_square(ALL_SET_BITS, 7),
        0b1_111111111_111111111_111111111_1111_1111_1111_1111_1111_1111_1111_0000_1111,
    );
    assert_eq!(
        zero_out_square(ALL_SET_BITS, 8),
        0b1_111111111_111111111_111111111_1111_1111_1111_1111_1111_1111_1111_1111_0000,
    );
}

#[test]
fn retrievals() {
    const DATA: u64 =
        0b0_100101001_101010101_110010011_0001_0010_0011_0100_0101_0110_0111_1000_1001;
    assert_eq!(1, value_in_square(DATA, 0));
    assert_eq!(2, value_in_square(DATA, 1));
    assert_eq!(3, value_in_square(DATA, 2));
    assert_eq!(4, value_in_square(DATA, 3));
    assert_eq!(5, value_in_square(DATA, 4));
    assert_eq!(6, value_in_square(DATA, 5));
    assert_eq!(7, value_in_square(DATA, 6));
    assert_eq!(8, value_in_square(DATA, 7));
    assert_eq!(9, value_in_square(DATA, 8));
    assert_eq!(0b100101001, values_in_row(DATA));
    assert_eq!(0b101010101, values_in_col(DATA));
    assert_eq!(0b110010011, values_in_box(DATA));
}

#[test]
fn bits_of_values() {
    assert_eq!(0, as_bit(0));
    assert_eq!(0b100000000, as_bit(1));
    assert_eq!(0b000010000, as_bit(5));
    assert_eq!(0b000000100, as_bit(7));
    assert_eq!(0b000000001, as_bit(9));
    assert_eq!(u64::MAX, as_bit_inverse(0));
    assert_eq!(
        0b1111111111111111111111111111111111111111111111111111111_111111011,
        as_bit_inverse(7)
    );
}
