//! One packed word of the board: the digits of a row together with the
//! presence masks of the row, column and box that share its index.
use crate::sudoku::bitwise::{
    as_bit, as_bit_inverse, bit_of, box_mask, col_mask, digit_at, lemma_bit_of, lemma_inverse_masks,
    lemma_part_bounds, row_mask, shift_to_box, shift_to_box_inverse, shift_to_col,
    shift_to_col_inverse, shift_to_row, shift_to_row_inverse, shift_to_square, square_shift,
    value_in_square, values_in_box, values_in_col, values_in_row, zero_out_square,
};
use crate::sudoku::text::{compact_row_text, framed_row, row_text, square_char, square_text};
use vstd::prelude::*;
use vstd::string::StringExecFns;

verus! {

/// A portion of the board's data in a u64,
/// where row, col, box are each 9 bits that tell whether a value (1-9) is present in that section,
/// and where (zero - eight) hold the current value of each square of a row.
/// ```text
/// 0b0_______000000000_000000000_000000000___0000___0000___0000___0000___0000___0000___0000___0000___0000
/// | unused |   row   |   col   |   box    | zero | one  | two  | three| four | five |  six | seven| eight
/// ```
#[derive(Clone, Copy, Debug)]
pub struct SudokuData(u64);

impl View for SudokuData {
    type V = u64;

    /// The packed word itself.
    closed spec fn view(&self) -> u64 {
        self.0
    }
}

impl Default for SudokuData {
    /// The word of an empty row: nothing marked, every square blank.
    fn default() -> (r: Self)
        ensures
            r@ == 0,
    {
        SudokuData(0)
    }
}

/// The nine squares that a word holds.
pub open spec fn cells_of(data: u64) -> Seq<nat> {
    Seq::new(9, |c: int| digit_at(data, c as u64) as nat)
}

impl SudokuData {
    /// The packed word.
    pub fn data(&self) -> (r: u64)
        ensures
            r == self@,
    {
        self.0
    }

    /// Clears the value in a given square.
    pub fn clear_square(&mut self, col: usize)
        requires
            col <= 8,
        ensures
            final(self)@ == old(self)@ & !(0xFu64 << square_shift(col as u64)),
    {
        self.0 = zero_out_square(self.0, col);
    }

    /// Fills a given square with a value.
    pub fn fill_square(&mut self, value: usize, col: usize)
        requires
            col <= 8,
        ensures
            final(self)@ == (old(self)@ & !(0xFu64 << square_shift(col as u64))) | ((value as u64)
                << square_shift(col as u64)),
    {
        self.clear_square(col);
        self.0 = self.0 | shift_to_square(value, col)
    }

    /// Marks a value as being present in the row.
    pub fn mark_in_row(&mut self, value: usize)
        requires
            value <= 9,
        ensures
            final(self)@ == old(self)@ | (bit_of(value as u64) << 54),
    {
        self.0 = self.0 | shift_to_row(as_bit(value));
    }

    /// Marks a value as being present in the column.
    pub fn mark_in_col(&mut self, value: usize)
        requires
            value <= 9,
        ensures
            final(self)@ == old(self)@ | (bit_of(value as u64) << 45),
    {
        self.0 = self.0 | shift_to_col(as_bit(value));
    }

    /// Marks a value as being present in the box.
    pub fn mark_in_box(&mut self, value: usize)
        requires
            value <= 9,
        ensures
            final(self)@ == old(self)@ | (bit_of(value as u64) << 36),
    {
        self.0 = self.0 | shift_to_box(as_bit(value));
    }

    /// Unmarks a value from being present in the row.
    pub fn unmark_from_row(&mut self, value: usize)
        requires
            value <= 9,
        ensures
            final(self)@ == old(self)@ & !(bit_of(value as u64) << 54),
    {
        proof {
            lemma_bit_of(value as u64);
            lemma_inverse_masks(bit_of(value as u64));
        }
        self.0 = self.0 & shift_to_row_inverse(as_bit_inverse(value));
    }

    /// Unmarks a value from being present in the column.
    pub fn unmark_from_col(&mut self, value: usize)
        requires
            value <= 9,
        ensures
            final(self)@ == old(self)@ & !(bit_of(value as u64) << 45),
    {
        proof {
            lemma_bit_of(value as u64);
            lemma_inverse_masks(bit_of(value as u64));
        }
        self.0 = self.0 & shift_to_col_inverse(as_bit_inverse(value));
    }

    /// Unmarks a value from being present in the box.
    pub fn unmark_from_box(&mut self, value: usize)
        requires
            value <= 9,
        ensures
            final(self)@ == old(self)@ & !(bit_of(value as u64) << 36),
    {
        proof {
            lemma_bit_of(value as u64);
            lemma_inverse_masks(bit_of(value as u64));
        }
        self.0 = self.0 & shift_to_box_inverse(as_bit_inverse(value));
    }

    /// Returns a set of bits representing the values currently in the row.
    pub fn values_in_row(&self) -> (r: u64)
        ensures
            r == row_mask(self@),
            r < 512,
    {
        proof {
            lemma_part_bounds(self.0, 0);
        }
        crate::sudoku::bitwise::values_in_row(self.0)
    }

    /// Returns a set of bits representing the values currently in the column.
    pub fn values_in_col(&self) -> (r: u64)
        ensures
            r == col_mask(self@),
            r < 512,
    {
        proof {
            lemma_part_bounds(self.0, 0);
        }
        crate::sudoku::bitwise::values_in_col(self.0)
    }

    /// Returns a set of bits representing the values currently in the box.
    pub fn values_in_box(&self) -> (r: u64)
        ensures
            r == box_mask(self@),
            r < 512,
    {
        proof {
            lemma_part_bounds(self.0, 0);
        }
        crate::sudoku::bitwise::values_in_box(self.0)
    }

    /// Returns the value at a particular square.
    pub fn value_at(&self, col: usize) -> (r: u64)
        requires
            col <= 8,
        ensures
            r == digit_at(self@, col as u64),
            r <= 15,
    {
        proof {
            lemma_part_bounds(self.0, col as u64);
        }
        value_in_square(self.0, col)
    }

    /// Formats a particular square to be output to a string.
    fn format_square(&self, col: usize) -> (r: &'static str)
        requires
            col <= 8,
        ensures
            r@ == square_text(cells_of(self@)[col as int]),
    {
        let value: u64 = value_in_square(self.0, col);
        proof {
            reveal_strlit(" ");
            reveal_strlit("1");
            reveal_strlit("2");
            reveal_strlit("3");
            reveal_strlit("4");
            reveal_strlit("5");
            reveal_strlit("6");
            reveal_strlit("7");
            reveal_strlit("8");
            reveal_strlit("9");
        }
        let text = if value == 1 {
            "1"
        } else if value == 2 {
            "2"
        } else if value == 3 {
            "3"
        } else if value == 4 {
            "4"
        } else if value == 5 {
            "5"
        } else if value == 6 {
            "6"
        } else if value == 7 {
            "7"
        } else if value == 8 {
            "8"
        } else if value == 9 {
            "9"
        } else {
            " "
        };
        assert(text@ =~= square_text(cells_of(self@)[col as int]));
        text
    }

    /// Formats the row between the bars of the board, without indent or
    /// line end.
    pub fn to_framed_string(&self) -> (r: String)
        ensures
            r@ == framed_row(cells_of(self@)),
    {
        let mut string = String::new();
        string.append("║ ");
        string.append(self.format_square(0));
        string.append(" │ ");
        string.append(self.format_square(1));
        string.append(" │ ");
        string.append(self.format_square(2));
        string.append(" ║ ");
        string.append(self.format_square(3));
        string.append(" │ ");
        string.append(self.format_square(4));
        string.append(" │ ");
        string.append(self.format_square(5));
        string.append(" ║ ");
        string.append(self.format_square(6));
        string.append(" │ ");
        string.append(self.format_square(7));
        string.append(" │ ");
        string.append(self.format_square(8));
        string.append(" ║");
        assert(string@ =~= framed_row(cells_of(self@)));
        string
    }

    /// Formats the row as it would look on a sudoku board.
    pub fn to_string(&self) -> (r: String)
        ensures
            r@ == row_text(cells_of(self@)),
    {
        let mut string = String::new();
        string.append("  ");
        let framed = self.to_framed_string();
        string.append(framed.as_str());
        string.append("\n");
        assert(string@ =~= row_text(cells_of(self@)));
        string
    }

    /// Formats every value in the row in a single line with no formatting.
    pub fn to_string_compact(&self) -> (r: String)
        ensures
            r@ == compact_row_text(cells_of(self@)),
    {
        let mut string = String::new();
        let mut i: usize = 0;
        while i <= 8
            invariant
                i <= 9,
                string@ == Seq::new(i as nat, |c: int| square_char(cells_of(self@)[c])),
            decreases 9 - i,
        {
            string.append(self.format_square(i));
            assert(string@ =~= Seq::new((i + 1) as nat, |c: int| square_char(cells_of(self@)[c])));
            i += 1;
        }
        assert(string@ =~= compact_row_text(cells_of(self@)));
        string
    }
}

} // verus!
