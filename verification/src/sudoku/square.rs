//! A square that keeps its own place and value in one packed number, and a
//! cache of the digits that are taken for it.
//! ```text
//! 0b_____0000_____0000_____0000_____0000____
//!     |  taken   |   row  |   col  |  value  |
//! ```
//! The square does not hold the words of its row, column and box: each
//! operation takes the words it reads or changes.
use crate::sudoku::bitwise::{
    bit_of, box_mask, col_mask, lemma_part_bounds, lemma_union_bound, row_mask, square_shift,
    values_in_box, values_in_col, values_in_row,
};
use crate::sudoku::data::SudokuData;
use crate::sudoku::packed::{
    count_marked, digit_count, free_digits, is_option_list, lemma_zero_mask,
};
use vstd::prelude::*;

verus! {

/// How far the number of taken digits lies above bit zero.
pub const SHIFT_OPTIONS: usize = 12;

/// How far the row lies above bit zero.
pub const SHIFT_ROW: usize = 8;

/// How far the column lies above bit zero.
pub const SHIFT_COL: usize = 4;

/// A square of the board with its place, its value and the digits taken
/// for it.
#[derive(Clone, Copy, Debug)]
pub struct SudokuSquare {
    square_data: usize,
    rcb_cache: usize,
}

/// The value that a packed square holds.
pub open spec fn value_part(data: usize) -> usize {
    data & 0b1111
}

/// The column that a packed square lies in.
pub open spec fn col_part(data: usize) -> usize {
    (data >> 4) & 0b1111
}

/// The row that a packed square lies in.
pub open spec fn row_part(data: usize) -> usize {
    (data >> 8) & 0b1111
}

/// The number of taken digits that a packed square records.
pub open spec fn taken_part(data: usize) -> usize {
    data >> 12
}

/// The mask of the digits that are marked in a row, a column and a box.
pub open spec fn union_mask(row_data: u64, col_data: u64, box_data: u64) -> u64 {
    row_mask(row_data) | col_mask(col_data) | box_mask(box_data)
}

/// The parts of a freshly packed square.
proof fn lemma_new_square(row: usize, col: usize)
    by (bit_vector)
    requires
        row <= 8,
        col <= 8,
    ensures
        value_part((row << 8) | (col << 4)) == 0,
        col_part((row << 8) | (col << 4)) == col,
        row_part((row << 8) | (col << 4)) == row,
        taken_part((row << 8) | (col << 4)) == 0,
{
}

/// Recording the number of taken digits changes no other part.
proof fn lemma_set_taken(data: usize, count: usize)
    by (bit_vector)
    requires
        count <= 9,
    ensures
        value_part((data & 0b0000_1111_1111_1111) | (count << 12)) == value_part(data),
        col_part((data & 0b0000_1111_1111_1111) | (count << 12)) == col_part(data),
        row_part((data & 0b0000_1111_1111_1111) | (count << 12)) == row_part(data),
        taken_part((data & 0b0000_1111_1111_1111) | (count << 12)) == count,
{
}

/// Writing the value changes no other part.
proof fn lemma_set_value(data: usize, value: usize)
    by (bit_vector)
    requires
        value <= 15,
        taken_part(data) <= 9,
    ensures
        value_part((data & 0b1111_1111_1111_0000) | value) == value,
        col_part((data & 0b1111_1111_1111_0000) | value) == col_part(data),
        row_part((data & 0b1111_1111_1111_0000) | value) == row_part(data),
        taken_part((data & 0b1111_1111_1111_0000) | value) == taken_part(data),
        (data & 0b1111_1111_1111_0000) | 0 == data & 0b1111_1111_1111_0000,
        value_part(data) <= 15,
        col_part(data) <= 15,
{
}

impl SudokuSquare {
    /// The packed place and value.
    pub closed spec fn packed(&self) -> usize {
        self.square_data
    }

    /// The mask of the digits that were taken when the square last looked.
    pub closed spec fn cache(&self) -> usize {
        self.rcb_cache
    }

    /// The square lies on the board, holds a blank or a digit, and the
    /// number of taken digits it records is that of its cache.
    pub open spec fn wf(&self) -> bool {
        &&& row_part(self.packed()) <= 8
        &&& col_part(self.packed()) <= 8
        &&& value_part(self.packed()) <= 9
        &&& self.cache() < 512
        &&& taken_part(self.packed()) == digit_count(self.cache() as u64)
    }

    /// Creates a blank square at `(row, col)` that has not looked at its
    /// row, column and box yet: nothing is taken for it.
    pub fn new(row: usize, col: usize) -> (r: Self)
        requires
            row <= 8,
            col <= 8,
        ensures
            r.packed() == (row << 8) | (col << 4),
            r.cache() == 0,
            row_part(r.packed()) == row,
            col_part(r.packed()) == col,
            value_part(r.packed()) == 0,
            r.wf(),
    {
        proof {
            lemma_new_square(row, col);
            lemma_zero_mask(1);
            lemma_zero_mask(2);
            lemma_zero_mask(3);
            lemma_zero_mask(4);
            lemma_zero_mask(5);
            lemma_zero_mask(6);
            lemma_zero_mask(7);
            lemma_zero_mask(8);
            lemma_zero_mask(9);
        }
        SudokuSquare { square_data: (row << SHIFT_ROW) | (col << SHIFT_COL), rcb_cache: 0 }
    }

    /// Looks at the words of the square's row, column and box, and records
    /// which digits are taken and how many.
    pub fn update_data(
        &mut self,
        row_data: &SudokuData,
        col_data: &SudokuData,
        box_data: &SudokuData,
    )
        requires
            old(self).wf(),
        ensures
            final(self).cache() == union_mask(row_data@, col_data@, box_data@),
            final(self).packed() == (old(self).packed() & 0b0000_1111_1111_1111) | ((digit_count(
                union_mask(row_data@, col_data@, box_data@),
            ) as usize) << 12),
            row_part(final(self).packed()) == row_part(old(self).packed()),
            col_part(final(self).packed()) == col_part(old(self).packed()),
            value_part(final(self).packed()) == value_part(old(self).packed()),
            final(self).wf(),
    {
        let in_row = values_in_row(row_data.data());
        let in_col = values_in_col(col_data.data());
        let in_box = values_in_box(box_data.data());
        proof {
            lemma_part_bounds(row_data@, 0);
            lemma_part_bounds(col_data@, 0);
            lemma_part_bounds(box_data@, 0);
            lemma_union_bound(in_row, in_col, in_box);
        }
        self.rcb_cache = (in_row | in_col | in_box) as usize;
        self.square_data &= 0b0000_1111_1111_1111;
        let count = count_marked(self.rcb_cache as u64) as usize;
        proof {
            lemma_set_taken(old(self).square_data, count);
        }
        self.square_data |= count << SHIFT_OPTIONS;
    }

    /// Returns the count of available options for this square, as of its
    /// last look.
    pub fn count_options(&self) -> (r: u32)
        requires
            self.wf(),
        ensures
            r == 9 - digit_count(self.cache() as u64),
    {
        9 - (self.square_data >> SHIFT_OPTIONS) as u32
    }

    /// Returns every value that was an available option for this square at
    /// its last look, in ascending order.
    pub fn options(&self) -> (r: Vec<usize>)
        requires
            self.wf(),
        ensures
            is_option_list(r@, self.cache() as u64),
            r@.len() == 9 - digit_count(self.cache() as u64),
    {
        free_digits(self.rcb_cache as u64)
    }

    /// The packed place and value.
    pub fn data(&self) -> (r: usize)
        ensures
            r == self.packed(),
    {
        self.square_data
    }

    /// The value that the square holds.
    pub fn value(&self) -> (r: usize)
        ensures
            r == value_part(self.packed()),
    {
        self.square_data & 0b1111
    }

    /// The column that the square lies in.
    pub fn col(&self) -> (r: usize)
        ensures
            r == col_part(self.packed()),
    {
        (self.square_data >> SHIFT_COL) & 0b1111
    }

    /// Unmarks the square's value from the words of its row, column and
    /// box.
    pub fn unmark(
        &self,
        row_data: &mut SudokuData,
        col_data: &mut SudokuData,
        box_data: &mut SudokuData,
    )
        requires
            self.wf(),
        ensures
            final(row_data)@ == old(row_data)@ & !(bit_of(value_part(self.packed()) as u64) << 54),
            final(col_data)@ == old(col_data)@ & !(bit_of(value_part(self.packed()) as u64) << 45),
            final(box_data)@ == old(box_data)@ & !(bit_of(value_part(self.packed()) as u64) << 36),
    {
        let value = self.value();
        row_data.unmark_from_row(value);
        col_data.unmark_from_col(value);
        box_data.unmark_from_box(value);
    }

    /// Marks the square's value in the words of its row, column and box.
    pub fn mark(
        &self,
        row_data: &mut SudokuData,
        col_data: &mut SudokuData,
        box_data: &mut SudokuData,
    )
        requires
            self.wf(),
        ensures
            final(row_data)@ == old(row_data)@ | (bit_of(value_part(self.packed()) as u64) << 54),
            final(col_data)@ == old(col_data)@ | (bit_of(value_part(self.packed()) as u64) << 45),
            final(box_data)@ == old(box_data)@ | (bit_of(value_part(self.packed()) as u64) << 36),
    {
        let value = self.value();
        row_data.mark_in_row(value);
        col_data.mark_in_col(value);
        box_data.mark_in_box(value);
    }

    /// Fills the square with a value: its old value leaves the three
    /// masks, the new one is written into the row and marked.
    pub fn fill(
        &mut self,
        value: usize,
        row_data: &mut SudokuData,
        col_data: &mut SudokuData,
        box_data: &mut SudokuData,
    )
        requires
            old(self).wf(),
            value <= 9,
        ensures
            final(self).packed() == (old(self).packed() & 0b1111_1111_1111_0000) | value,
            final(self).cache() == old(self).cache(),
            value_part(final(self).packed()) == value,
            row_part(final(self).packed()) == row_part(old(self).packed()),
            col_part(final(self).packed()) == col_part(old(self).packed()),
            final(self).wf(),
            final(row_data)@ == (((old(row_data)@ & !(bit_of(
                value_part(old(self).packed()) as u64,
            ) << 54)) & !(0xFu64 << square_shift(col_part(old(self).packed()) as u64))) | ((
            value as u64) << square_shift(col_part(old(self).packed()) as u64))) | (bit_of(
                value as u64,
            ) << 54),
            final(col_data)@ == (old(col_data)@ & !(bit_of(value_part(old(self).packed()) as u64)
                << 45)) | (bit_of(value as u64) << 45),
            final(box_data)@ == (old(box_data)@ & !(bit_of(value_part(old(self).packed()) as u64)
                << 36)) | (bit_of(value as u64) << 36),
    {
        self.clear(row_data, col_data, box_data);
        proof {
            lemma_set_value(old(self).square_data, value);
            lemma_write_again(
                old(row_data)@ & !(bit_of(value_part(old(self).packed()) as u64) << 54),
                value as u64,
                col_part(old(self).packed()) as u64,
            );
        }
        self.square_data |= value;
        row_data.fill_square(value, self.col());
        self.mark(row_data, col_data, box_data);
    }

    /// Clears the square: its value leaves the three masks and the row.
    pub fn clear(
        &mut self,
        row_data: &mut SudokuData,
        col_data: &mut SudokuData,
        box_data: &mut SudokuData,
    )
        requires
            old(self).wf(),
        ensures
            final(self).packed() == old(self).packed() & 0b1111_1111_1111_0000,
            final(self).cache() == old(self).cache(),
            value_part(final(self).packed()) == 0,
            row_part(final(self).packed()) == row_part(old(self).packed()),
            col_part(final(self).packed()) == col_part(old(self).packed()),
            final(self).wf(),
            final(row_data)@ == (old(row_data)@ & !(bit_of(value_part(old(self).packed()) as u64)
                << 54)) & !(0xFu64 << square_shift(col_part(old(self).packed()) as u64)),
            final(col_data)@ == old(col_data)@ & !(bit_of(value_part(old(self).packed()) as u64)
                << 45),
            final(box_data)@ == old(box_data)@ & !(bit_of(value_part(old(self).packed()) as u64)
                << 36),
    {
        self.unmark(row_data, col_data, box_data);
        row_data.clear_square(self.col());
        proof {
            lemma_set_value(old(self).square_data, 0);
        }
        self.square_data &= 0b1111_1111_1111_0000;
    }
}

/// A digit field that was cleared may be cleared again before it is
/// written.
proof fn lemma_write_again(data: u64, value: u64, col: u64)
    by (bit_vector)
    requires
        col <= 8,
    ensures
        ((data & !(0xFu64 << square_shift(col))) & !(0xFu64 << square_shift(col))) | (value
            << square_shift(col)) == (data & !(0xFu64 << square_shift(col))) | (value
            << square_shift(col)),
{
}

} // verus!
