//! Bitwise functions for reading and writing one packed word of the board.
//! ```text
//! Semantic mapping onto a 64-bit integer:
//! -------------------------------------------------------------------------------------------------------
//! 0b0_______000000000_000000000_000000000___0000___0000___0000___0000___0000___0000___0000___0000___0000
//! -------------------------------------------------------------------------------------------------------
//! | unused |   row   |   col   |   box    | zero | one  | two  | three| four | five |  six | seven| eight
//! -------------------------------------------------------------------------------------------------------
//!          |--- value is present if set --|---- the values held by each square of a row ---------------|
//! -------------------------------------------------------------------------------------------------------
//!          | 110000011 means {1, 2, 8, 9} |
//! -------------------------------------------------------------------------------------------------------
//! ```
use vstd::prelude::*;

verus! {

/// How far the row mask lies above bit zero.
pub const SHIFT_ROW: u64 = 54;

/// How far the column mask lies above bit zero.
pub const SHIFT_COL: u64 = 45;

/// How far the box mask lies above bit zero.
pub const SHIFT_BOX: u64 = 36;

/// How far the digit field of each column lies above bit zero.
pub const SHIFT_SQUARE: [u64; 9] = [32, 28, 24, 20, 16, 12, 8, 4, 0];

/// The width of a digit field.
pub const FOUR_SET_BITS: u64 = 0b1111;

/// The width of a presence mask.
pub const NINE_SET_BITS: u64 = 0b111111111;

/// Every bit below the row mask.
pub const BELOW_ROW: u64 = 0x003F_FFFF_FFFF_FFFF;

/// Every bit below the column mask.
pub const BELOW_COL: u64 = 0x0000_1FFF_FFFF_FFFF;

/// Every bit below the box mask.
pub const BELOW_BOX: u64 = 0x0000_000F_FFFF_FFFF;

/// Clear a square by bitwise & with one of these.
pub const CLEAR: [u64; 9] = [
    0b1_111111111_111111111_111111111_0000_1111_1111_1111_1111_1111_1111_1111_1111,
    0b1_111111111_111111111_111111111_1111_0000_1111_1111_1111_1111_1111_1111_1111,
    0b1_111111111_111111111_111111111_1111_1111_0000_1111_1111_1111_1111_1111_1111,
    0b1_111111111_111111111_111111111_1111_1111_1111_0000_1111_1111_1111_1111_1111,
    0b1_111111111_111111111_111111111_1111_1111_1111_1111_0000_1111_1111_1111_1111,
    0b1_111111111_111111111_111111111_1111_1111_1111_1111_1111_0000_1111_1111_1111,
    0b1_111111111_111111111_111111111_1111_1111_1111_1111_1111_1111_0000_1111_1111,
    0b1_111111111_111111111_111111111_1111_1111_1111_1111_1111_1111_1111_0000_1111,
    0b1_111111111_111111111_111111111_1111_1111_1111_1111_1111_1111_1111_1111_0000,
];

/// A set bit stands for a value being present in a row, column, or box.
pub const BITS: [u64; 10] = [
    0b000000000,  // Padding
    0b100000000,  // One
    0b010000000,  // Two
    0b001000000,  // Three
    0b000100000,  // Four
    0b000010000,  // Five
    0b000001000,  // Six
    0b000000100,  // Seven
    0b000000010,  // Eight
    0b000000001,  // Nine
];

/// The single bit that stands for `value` in a presence mask: one is the
/// highest of the nine bits, nine the lowest. Anything outside `1..=9` has no
/// bit.
pub open spec fn bit_of(value: u64) -> u64 {
    if 1 <= value <= 9 {
        1u64 << ((9 - value) as u64)
    } else {
        0
    }
}

/// How far the digit field of column `col` lies above bit zero.
pub open spec fn square_shift(col: u64) -> u64 {
    (4 * (8 - col)) as u64
}

/// Whether `mask` records `value` as present.
pub open spec fn has_digit(mask: u64, value: u64) -> bool {
    mask & bit_of(value) != 0
}

/// The row mask of a word.
pub open spec fn row_mask(data: u64) -> u64 {
    (data >> 54) & 0x1FF
}

/// The column mask of a word.
pub open spec fn col_mask(data: u64) -> u64 {
    (data >> 45) & 0x1FF
}

/// The box mask of a word.
pub open spec fn box_mask(data: u64) -> u64 {
    (data >> 36) & 0x1FF
}

/// The digit field of column `col` of a word.
pub open spec fn digit_at(data: u64, col: u64) -> u64 {
    (data >> square_shift(col)) & 0xF
}

/// The tables hold what the definitions say.
proof fn lemma_tables()
    by (bit_vector)
    ensures
        bit_of(0) == 0,
        bit_of(1) == 0b100000000,
        bit_of(2) == 0b010000000,
        bit_of(3) == 0b001000000,
        bit_of(4) == 0b000100000,
        bit_of(5) == 0b000010000,
        bit_of(6) == 0b000001000,
        bit_of(7) == 0b000000100,
        bit_of(8) == 0b000000010,
        bit_of(9) == 0b000000001,
        !(0xFu64 << 32) == 0xFFFF_FFF0_FFFF_FFFF,
        !(0xFu64 << 28) == 0xFFFF_FFFF_0FFF_FFFF,
        !(0xFu64 << 24) == 0xFFFF_FFFF_F0FF_FFFF,
        !(0xFu64 << 20) == 0xFFFF_FFFF_FF0F_FFFF,
        !(0xFu64 << 16) == 0xFFFF_FFFF_FFF0_FFFF,
        !(0xFu64 << 12) == 0xFFFF_FFFF_FFFF_0FFF,
        !(0xFu64 << 8) == 0xFFFF_FFFF_FFFF_F0FF,
        !(0xFu64 << 4) == 0xFFFF_FFFF_FFFF_FF0F,
        !(0xFu64 << 0) == 0xFFFF_FFFF_FFFF_FFF0,
        (1u64 << 54) - 1 == 0x003F_FFFF_FFFF_FFFF,
        (1u64 << 45) - 1 == 0x0000_1FFF_FFFF_FFFF,
        (1u64 << 36) - 1 == 0x0000_000F_FFFF_FFFF,
{
}

/// Returns a set bit to mark a value as being present in a row, column, or box.
/// ```text
/// Arg value: 7
/// Return: 0b000000100
/// ```
pub fn as_bit(value: usize) -> (r: u64)
    requires
        value <= 9,
    ensures
        r == bit_of(value as u64),
        r < 512,
{
    proof {
        lemma_tables();
    }
    BITS[value]
}

/// Returns all bits set except one to unmark a value as being present in a row, column, or box.
/// ```text
/// Arg value: 7
/// Return: 0b1111111111111111111111111111111111111111111111111111111_111111011
/// ```
pub fn as_bit_inverse(value: usize) -> (r: u64)
    requires
        value <= 9,
    ensures
        r == !bit_of(value as u64),
{
    proof {
        lemma_tables();
    }
    !BITS[value]
}

/// Shifts a set of bits to the row location.
/// ```text
/// Arg bits: 0b101010101
/// Return: 0b0_101010101_000000000_000000000_0000_0000_0000_0000_0000_0000_0000_0000_0000
/// ```
pub fn shift_to_row(bits: u64) -> (r: u64)
    ensures
        r == bits << 54,
{
    bits << SHIFT_ROW
}

/// Shifts a set of bits to the col location.
/// ```text
/// Arg bits: 0b101010101
/// Return: 0b0_000000000_101010101_000000000_0000_0000_0000_0000_0000_0000_0000_0000_0000
/// ```
pub fn shift_to_col(bits: u64) -> (r: u64)
    ensures
        r == bits << 45,
{
    bits << SHIFT_COL
}

/// Shifts a set of bits to the box location.
/// ```text
/// Arg bits: 0b101010101
/// Return: 0b0_000000000_000000000_101010101_0000_0000_0000_0000_0000_0000_0000_0000_0000
/// ```
pub fn shift_to_box(bits: u64) -> (r: u64)
    ensures
        r == bits << 36,
{
    bits << SHIFT_BOX
}

/// Shifts a set of bits to the row location, filling with ones from the right instead of zeros.
/// ```text
/// Arg bits: 0b101010101
/// Return: 0b0_101010101_111111111_111111111_1111_1111_1111_1111_1111_1111_1111_1111_1111
/// ```
pub fn shift_to_row_inverse(bits: u64) -> (r: u64)
    ensures
        r == (bits << 54) | BELOW_ROW,
{
    proof {
        lemma_tables();
    }
    bits << SHIFT_ROW | ((1 << SHIFT_ROW) - 1)
}

/// Shifts a set of bits to the col location, filling with ones from the right instead of zeros.
/// ```text
/// Arg bits: 0b101010101
/// Return: 0b0_000000000_101010101_111111111_1111_1111_1111_1111_1111_1111_1111_1111_1111
/// ```
pub fn shift_to_col_inverse(bits: u64) -> (r: u64)
    ensures
        r == (bits << 45) | BELOW_COL,
{
    proof {
        lemma_tables();
    }
    bits << SHIFT_COL | ((1 << SHIFT_COL) - 1)
}

/// Shifts a set of bits to the box location, filling with ones from the right instead of zeros.
/// ```text
/// Arg bits: 0b101010101
/// Return: 0b0_000000000_000000000_101010101_1111_1111_1111_1111_1111_1111_1111_1111_1111
/// ```
pub fn shift_to_box_inverse(bits: u64) -> (r: u64)
    ensures
        r == (bits << 36) | BELOW_BOX,
{
    proof {
        lemma_tables();
    }
    bits << SHIFT_BOX | ((1 << SHIFT_BOX) - 1)
}

/// Shifts a set of bits to a square's location.
/// ```text
/// Arg value: 0b1001
/// Arg col: 4
/// Return: 0b0_000000000_000000000_000000000_0000_0000_0000_1001_0000_0000_0000_0000_0000
/// ```
pub fn shift_to_square(value: usize, col: usize) -> (r: u64)
    requires
        col <= 8,
    ensures
        r == (value as u64) << square_shift(col as u64),
{
    (value as u64) << SHIFT_SQUARE[col]
}

/// Returns the set of bits that represent the values present in a given row.
/// ```text
/// Arg data: 0b0_110010011_000000000_000000000_0000_0000_0000_0000_0000_0000_0000_0000_0000
/// Return: 0b110010011
/// ```
pub fn values_in_row(data: u64) -> (r: u64)
    ensures
        r == row_mask(data),
{
    (data >> SHIFT_ROW) & NINE_SET_BITS
}

/// Returns the set of bits that represent the values present in a given column.
/// ```text
/// Arg data: 0b0_000000000_110010011_000000000_0000_0000_0000_0000_0000_0000_0000_0000_0000
/// Return: 0b110010011
/// ```
pub fn values_in_col(data: u64) -> (r: u64)
    ensures
        r == col_mask(data),
{
    (data >> SHIFT_COL) & NINE_SET_BITS
}

/// Returns the set of bits that represent the values present in a given box.
/// ```text
/// Arg data: 0b0_000000000_000000000_110010011_0000_0000_0000_0000_0000_0000_0000_0000_0000
/// Return: 0b110010011
/// ```
pub fn values_in_box(data: u64) -> (r: u64)
    ensures
        r == box_mask(data),
{
    (data >> SHIFT_BOX) & NINE_SET_BITS
}

/// Returns the value in a square's location.
/// ```text
/// Arg data: 0b0001_0010_0011_0100_0101_0110_0111_1000_1001
/// Arg col: 7
/// Return: 0b0111
/// ```
pub fn value_in_square(data: u64, col: usize) -> (r: u64)
    requires
        col <= 8,
    ensures
        r == digit_at(data, col as u64),
{
    (data >> SHIFT_SQUARE[col]) & FOUR_SET_BITS
}

/// Zeros out the value in a square's location.
/// ```text
/// Arg data: 0b0001_0010_0011_0100_0101_0110_0111_1000_1001
/// Arg col: 7
/// Return: 0b0001_0010_0011_0100_0101_0110_0000_1000_1001
/// ```
pub fn zero_out_square(data: u64, col: usize) -> (r: u64)
    requires
        col <= 8,
    ensures
        r == data & !(0xFu64 << square_shift(col as u64)),
{
    proof {
        lemma_tables();
    }
    data & CLEAR[col]
}

/// Unmasking by the two inverse helpers clears exactly the bit of `bits`.
pub proof fn lemma_inverse_masks(bits: u64)
    by (bit_vector)
    requires
        bits < 512,
    ensures
        ((!bits) << 54) | BELOW_ROW == !(bits << 54),
        ((!bits) << 45) | BELOW_COL == !(bits << 45),
        ((!bits) << 36) | BELOW_BOX == !(bits << 36),
{
}

/// The bit of a digit lies within the nine mask bits, and a digit has a bit
/// exactly when it is one of `1..=9`.
pub proof fn lemma_bit_of(value: u64)
    by (bit_vector)
    ensures
        bit_of(value) < 512,
        1 <= value <= 9 ==> bit_of(value) != 0,
        !(1 <= value <= 9) ==> bit_of(value) == 0,
{
}

/// What setting a digit's bit in the row mask does to each part of a word.
pub proof fn lemma_mark_row(data: u64, value: u64, d: u64, c: u64)
    by (bit_vector)
    requires
        1 <= d <= 9,
        c <= 8,
    ensures
        has_digit(row_mask(data | (bit_of(value) << 54)), d) == (has_digit(row_mask(data), d) || d
            == value),
        col_mask(data | (bit_of(value) << 54)) == col_mask(data),
        box_mask(data | (bit_of(value) << 54)) == box_mask(data),
        digit_at(data | (bit_of(value) << 54), c) == digit_at(data, c),
        (data | (bit_of(value) << 54)) >> 63 == data >> 63,
{
}

/// What setting a digit's bit in the column mask does to each part of a word.
pub proof fn lemma_mark_col(data: u64, value: u64, d: u64, c: u64)
    by (bit_vector)
    requires
        1 <= d <= 9,
        c <= 8,
    ensures
        has_digit(col_mask(data | (bit_of(value) << 45)), d) == (has_digit(col_mask(data), d) || d
            == value),
        row_mask(data | (bit_of(value) << 45)) == row_mask(data),
        box_mask(data | (bit_of(value) << 45)) == box_mask(data),
        digit_at(data | (bit_of(value) << 45), c) == digit_at(data, c),
        (data | (bit_of(value) << 45)) >> 63 == data >> 63,
{
}

/// What setting a digit's bit in the box mask does to each part of a word.
pub proof fn lemma_mark_box(data: u64, value: u64, d: u64, c: u64)
    by (bit_vector)
    requires
        1 <= d <= 9,
        c <= 8,
    ensures
        has_digit(box_mask(data | (bit_of(value) << 36)), d) == (has_digit(box_mask(data), d) || d
            == value),
        row_mask(data | (bit_of(value) << 36)) == row_mask(data),
        col_mask(data | (bit_of(value) << 36)) == col_mask(data),
        digit_at(data | (bit_of(value) << 36), c) == digit_at(data, c),
        (data | (bit_of(value) << 36)) >> 63 == data >> 63,
{
}

/// What clearing a digit's bit in the row mask does to each part of a word.
pub proof fn lemma_unmark_row(data: u64, value: u64, d: u64, c: u64)
    by (bit_vector)
    requires
        1 <= d <= 9,
        c <= 8,
    ensures
        has_digit(row_mask(data & !(bit_of(value) << 54)), d) == (has_digit(row_mask(data), d) && d
            != value),
        col_mask(data & !(bit_of(value) << 54)) == col_mask(data),
        box_mask(data & !(bit_of(value) << 54)) == box_mask(data),
        digit_at(data & !(bit_of(value) << 54), c) == digit_at(data, c),
        (data & !(bit_of(value) << 54)) >> 63 == data >> 63,
{
}

/// What clearing a digit's bit in the column mask does to each part of a word.
pub proof fn lemma_unmark_col(data: u64, value: u64, d: u64, c: u64)
    by (bit_vector)
    requires
        1 <= d <= 9,
        c <= 8,
    ensures
        has_digit(col_mask(data & !(bit_of(value) << 45)), d) == (has_digit(col_mask(data), d) && d
            != value),
        row_mask(data & !(bit_of(value) << 45)) == row_mask(data),
        box_mask(data & !(bit_of(value) << 45)) == box_mask(data),
        digit_at(data & !(bit_of(value) << 45), c) == digit_at(data, c),
        (data & !(bit_of(value) << 45)) >> 63 == data >> 63,
{
}

/// What clearing a digit's bit in the box mask does to each part of a word.
pub proof fn lemma_unmark_box(data: u64, value: u64, d: u64, c: u64)
    by (bit_vector)
    requires
        1 <= d <= 9,
        c <= 8,
    ensures
        has_digit(box_mask(data & !(bit_of(value) << 36)), d) == (has_digit(box_mask(data), d) && d
            != value),
        row_mask(data & !(bit_of(value) << 36)) == row_mask(data),
        col_mask(data & !(bit_of(value) << 36)) == col_mask(data),
        digit_at(data & !(bit_of(value) << 36), c) == digit_at(data, c),
        (data & !(bit_of(value) << 36)) >> 63 == data >> 63,
{
}

/// What writing a digit field does to each part of a word: the field of
/// column `col` takes the value, every other field and all three masks stay.
pub proof fn lemma_write_square(data: u64, value: u64, col: u64, c: u64)
    by (bit_vector)
    requires
        value <= 15,
        col <= 8,
        c <= 8,
    ensures
        digit_at((data & !(0xFu64 << square_shift(col))) | (value << square_shift(col)), c) == (if c
            == col {
            value
        } else {
            digit_at(data, c)
        }),
        row_mask((data & !(0xFu64 << square_shift(col))) | (value << square_shift(col)))
            == row_mask(data),
        col_mask((data & !(0xFu64 << square_shift(col))) | (value << square_shift(col)))
            == col_mask(data),
        box_mask((data & !(0xFu64 << square_shift(col))) | (value << square_shift(col)))
            == box_mask(data),
        ((data & !(0xFu64 << square_shift(col))) | (value << square_shift(col))) >> 63 == data
            >> 63,
        data & !(0xFu64 << square_shift(col)) == (data & !(0xFu64 << square_shift(col))) | (0u64
            << square_shift(col)),
{
}

/// A mask that is the union of three records a digit exactly when one of the
/// three does.
pub proof fn lemma_union_has(a: u64, b: u64, c: u64, d: u64)
    by (bit_vector)
    ensures
        has_digit(a | b | c, d) == (has_digit(a, d) || has_digit(b, d) || has_digit(c, d)),
        0 < ((a & bit_of(d)) | (b & bit_of(d)) | (c & bit_of(d))) <==> has_digit(a | b | c, d),
{
}

/// Every part read out of a word is within its width.
pub proof fn lemma_part_bounds(data: u64, c: u64)
    by (bit_vector)
    ensures
        row_mask(data) < 512,
        col_mask(data) < 512,
        box_mask(data) < 512,
        digit_at(data, c) <= 15,
        row_mask(0) == 0,
        col_mask(0) == 0,
        box_mask(0) == 0,
        digit_at(0, c) == 0,
        0u64 >> 63 == 0,
{
}

/// The union of three masks is a mask.
pub proof fn lemma_union_bound(a: u64, b: u64, c: u64)
    by (bit_vector)
    requires
        a < 512,
        b < 512,
        c < 512,
    ensures
        (a | b | c) < 512,
{
}

} // verus!
