//! A sudoku board capable of finding all possible solutions to a sudoku puzzle.
//! ```text
//!     c0 c1 c2  c3 c4 c5  c6 c7 c8
//!    +---------+---------+---------+
//! r0 |         |         |         |
//! r1 |  Box 0  |  Box 1  |  Box 2  |
//! r2 |         |         |         |
//!    +---------+---------+---------+
//! r3 |         |         |         |
//! r4 |  Box 3  |  Box 4  |  Box 5  |
//! r5 |         |         |         |
//!    +---------+---------+---------+
//! r6 |         |         |         |
//! r7 |  Box 6  |  Box 7  |  Box 8  |
//! r8 |         |         |         |
//!    +---------+---------+---------+
//! ```
//! `board[i]` tells which values are present in row `i`, in column `i` and
//! in box `i`, and holds every value of row `i`.
use crate::sudoku::bitwise::{
    as_bit, digit_at, has_digit, lemma_union_bound, lemma_union_has, lemma_write_square,
};
use crate::sudoku::data::{cells_of, SudokuData};
use crate::sudoku::packed::{
    clear_words, count_marked, digit_count, fill_words, free_digits, grid_of, is_option_list,
    lemma_blank_words, lemma_clear_grid, lemma_clear_tidy, lemma_fill_grid, lemma_fill_marks,
    lemma_grid_bounds, lemma_push_contains, lemma_unmark_words, lemma_used_mask, lemma_write_words,
    mark_words, marks_exact, sound, tidy, unmark_words, used_mask, write_words,
};
use crate::sudoku::rules::{
    at, blank_grid, box_of, conflict_free, lemma_overwrite_conflict, lemma_place_conflict, on_grid,
    unit_holds, well_formed, with_value,
};
use crate::sudoku::search::blanks_of;
use crate::sudoku::text::{
    BOTTOM_EDGE, compact_text, decimal_digit, digit_of, framed_text, is_white_space, is_whitespace,
    meaningful, parse_grid, pretty_text, row_of, square_char, THICK_RULE, THIN_RULE, TOP_EDGE,
};
use vstd::prelude::*;
use vstd::std_specs::iter::IteratorSpec;
use vstd::string::StringExecFns;

verus! {

/// A sudoku square names a place on the board by `(row, col, box)`.
/// A square's location is fully determined by `(row, col)` alone,
/// but the box is needed to find the third mask.
#[derive(Clone, Copy, Debug)]
pub struct SudokuSquare(pub usize, pub usize, pub usize);

impl SudokuSquare {
    /// Creates a new `SudokuSquare`.
    pub fn new(row: usize, col: usize, bx: usize) -> (r: Self)
        ensures
            r == SudokuSquare(row, col, bx),
    {
        SudokuSquare(row, col, bx)
    }

    /// Each of the three indices names a word of the board.
    pub open spec fn in_range(&self) -> bool {
        self.0 < 9 && self.1 < 9 && self.2 < 9
    }

    /// The square lies on the grid and its box is the one it lies in.
    pub open spec fn valid(&self) -> bool {
        self.0 < 9 && self.1 < 9 && self.2 == box_of(self.0 as int, self.1 as int)
    }
}

/// Given a row and a column, returns which box that square is in.
pub fn box_index(row: usize, col: usize) -> (r: usize)
    ensures
        r == (if row <= 2 {
            0int
        } else if row <= 5 {
            3
        } else {
            6
        }) + (if col <= 2 {
            0int
        } else if col <= 5 {
            1
        } else {
            2
        }),
        on_grid(row as int, col as int) ==> r == box_of(row as int, col as int),
{
    match row {
        0 | 1 | 2 => match col {
            0 | 1 | 2 => 0,
            3 | 4 | 5 => 1,
            _ => 2,
        },
        3 | 4 | 5 => match col {
            0 | 1 | 2 => 3,
            3 | 4 | 5 => 4,
            _ => 5,
        },
        _ => match col {
            0 | 1 | 2 => 6,
            3 | 4 | 5 => 7,
            _ => 8,
        },
    }
}

/// A sudoku board. The board's state consists of 9 [`SudokuData`] words.
/// The board design is compact so that it can be trivially copied into another thread.
#[derive(Debug)]
pub struct SudokuBoard {
    board: [SudokuData; 9],
    fillable_squares: Vec<SudokuSquare>,
    is_solvable: bool,
}

impl View for SudokuBoard {
    type V = Seq<nat>;

    /// The grid that the board holds.
    open spec fn view(&self) -> Seq<nat> {
        grid_of(self.words())
    }
}

impl SudokuBoard {
    /// The nine packed words.
    pub closed spec fn words(&self) -> Seq<u64> {
        Seq::new(9, |i: int| self.board[i]@)
    }

    /// The squares that wait to be filled by a search.
    pub closed spec fn pool(&self) -> Seq<SudokuSquare> {
        self.fillable_squares@
    }

    /// False once an insertion has met a digit that was already in its
    /// row, column or box.
    pub closed spec fn solvable(&self) -> bool {
        self.is_solvable
    }

    /// Every square is blank or a digit, and while no conflict was met the
    /// grid has none and the masks are exact.
    pub open spec fn wf(&self) -> bool {
        &&& well_formed(self@)
        &&& self.solvable() ==> tidy(self.words())
    }

    /// Whether the board met no conflict so far.
    pub fn is_solvable(&self) -> (r: bool)
        ensures
            r == self.solvable(),
    {
        self.is_solvable
    }

    /// Marks a square's value as being present in its row, col, and box.
    fn mark(&mut self, square: &SudokuSquare)
        requires
            square.in_range(),
            at(old(self)@, square.0 as int, square.1 as int) <= 9,
        ensures
            final(self).words() == mark_words(
                old(self).words(),
                square.0 as int,
                square.1 as int,
                square.2 as int,
                digit_at(old(self).words()[square.0 as int], square.1 as u64),
            ),
            final(self).pool() == old(self).pool(),
            final(self).solvable() == old(self).solvable(),
    {
        proof {
            lemma_grid_bounds(self.words());
        }
        let value = self.value_at(square) as usize;
        let SudokuSquare(row, col, bx) = *square;
        self.board[row].mark_in_row(value);
        self.board[col].mark_in_col(value);
        self.board[bx].mark_in_box(value);
        assert(self.words() =~= mark_words(
            old(self).words(),
            square.0 as int,
            square.1 as int,
            square.2 as int,
            digit_at(old(self).words()[square.0 as int], square.1 as u64),
        ));
    }

    /// Unmarks a square's value from being present in its row, col, and box.
    fn unmark(&mut self, square: &SudokuSquare)
        requires
            square.in_range(),
            at(old(self)@, square.0 as int, square.1 as int) <= 9,
        ensures
            final(self).words() == unmark_words(
                old(self).words(),
                square.0 as int,
                square.1 as int,
                square.2 as int,
                digit_at(old(self).words()[square.0 as int], square.1 as u64),
            ),
            final(self).pool() == old(self).pool(),
            final(self).solvable() == old(self).solvable(),
    {
        proof {
            lemma_grid_bounds(self.words());
        }
        let value = self.value_at(square) as usize;
        let SudokuSquare(row, col, bx) = *square;
        self.board[row].unmark_from_row(value);
        self.board[col].unmark_from_col(value);
        self.board[bx].unmark_from_box(value);
        assert(self.words() =~= unmark_words(
            old(self).words(),
            square.0 as int,
            square.1 as int,
            square.2 as int,
            digit_at(old(self).words()[square.0 as int], square.1 as u64),
        ));
    }

    /// Fills a square with a given value, overwriting the previous value.
    ///
    /// The grid takes the value at the square. Sound words stay sound where
    /// the board had no conflict or the square was blank.
    pub fn fill(&mut self, square: &SudokuSquare, value: usize)
        requires
            square.in_range(),
            value <= 9,
            well_formed(old(self)@),
        ensures
            final(self).words() == fill_words(
                old(self).words(),
                square.0 as int,
                square.1 as int,
                square.2 as int,
                value as u64,
            ),
            final(self)@ == with_value(old(self)@, square.0 as int, square.1 as int, value as nat),
            well_formed(final(self)@),
            sound(old(self).words()) && square.valid() && (conflict_free(old(self)@) || at(
                old(self)@,
                square.0 as int,
                square.1 as int,
            ) == 0) ==> sound(final(self).words()),
            final(self).pool() == old(self).pool(),
            final(self).solvable() == old(self).solvable(),
    {
        proof {
            lemma_grid_bounds(self.words());
            lemma_fill_grid(
                self.words(),
                square.0 as int,
                square.1 as int,
                square.2 as int,
                value as u64,
            );
            if sound(self.words()) && square.valid() && (conflict_free(self@) || at(
                self@,
                square.0 as int,
                square.1 as int,
            ) == 0) {
                lemma_fill_marks(self.words(), square.0 as int, square.1 as int, value as u64);
            }
        }
        self.unmark(square);
        let SudokuSquare(row, col, _) = *square;
        self.board[row].fill_square(value, col);
        assert(self.words() =~= write_words(
            unmark_words(
                old(self).words(),
                square.0 as int,
                square.1 as int,
                square.2 as int,
                digit_at(old(self).words()[square.0 as int], square.1 as u64),
            ),
            square.0 as int,
            square.1 as int,
            value as u64,
        ));
        proof {
            let before = digit_at(old(self).words()[square.0 as int], square.1 as u64);
            let w1 = unmark_words(
                old(self).words(),
                square.0 as int,
                square.1 as int,
                square.2 as int,
                before,
            );
            lemma_unmark_words(
                old(self).words(),
                square.0 as int,
                square.1 as int,
                square.2 as int,
                before,
            );
            lemma_write_words(
                w1,
                square.0 as int,
                square.1 as int,
                value as u64,
            );
            lemma_write_square(
                w1[square.0 as int],
                value as u64,
                square.1 as u64,
                square.1 as u64,
            );
            lemma_grid_bounds(self.words());
            assert(digit_at(self.words()[square.0 as int], square.1 as u64) == value as u64);
        }
        self.mark(square);
    }

    /// Clears a square's value from the board.
    ///
    /// The square becomes blank. On a board without conflicts whose masks
    /// are exact, the value leaves the masks of its row, column and box.
    pub fn clear(&mut self, square: &SudokuSquare)
        requires
            square.in_range(),
            well_formed(old(self)@),
        ensures
            final(self).words() == clear_words(
                old(self).words(),
                square.0 as int,
                square.1 as int,
                square.2 as int,
            ),
            final(self)@ == with_value(old(self)@, square.0 as int, square.1 as int, 0),
            well_formed(final(self)@),
            tidy(old(self).words()) && square.valid() ==> tidy(final(self).words()),
            final(self).pool() == old(self).pool(),
            final(self).solvable() == old(self).solvable(),
    {
        proof {
            lemma_grid_bounds(self.words());
            lemma_clear_grid(self.words(), square.0 as int, square.1 as int, square.2 as int);
            if tidy(self.words()) && square.valid() {
                lemma_clear_tidy(self.words(), square.0 as int, square.1 as int);
            }
        }
        self.unmark(square);
        let SudokuSquare(row, col, _) = *square;
        self.board[row].clear_square(col);
        proof {
            lemma_write_square(
                unmark_words(
                    old(self).words(),
                    square.0 as int,
                    square.1 as int,
                    square.2 as int,
                    digit_at(old(self).words()[square.0 as int], square.1 as u64),
                )[square.0 as int],
                0,
                square.1 as u64,
                0,
            );
        }
        assert(self.words() =~= clear_words(
            old(self).words(),
            square.0 as int,
            square.1 as int,
            square.2 as int,
        ));
    }

    /// Retrieves the value at a given square.
    pub fn value_at(&self, square: &SudokuSquare) -> (r: u64)
        requires
            square.0 < 9,
            square.1 < 9,
        ensures
            r == at(self@, square.0 as int, square.1 as int),
            r == digit_at(self.words()[square.0 as int], square.1 as u64),
            r <= 15,
    {
        proof {
            lemma_grid_bounds(self.words());
        }
        let SudokuSquare(row, col, _) = *square;
        self.board[row].value_at(col)
    }

    /// Inserts a new value onto the board at a given `(row, col)`; a zero
    /// changes nothing.
    ///
    /// The value is written even where it is already present in the row,
    /// the column or the box; the board is then no longer solvable, and
    /// stays so.
    pub fn insert(self, value: usize, row: usize, col: usize) -> (r: Self)
        requires
            self.wf(),
            value <= 9,
            row <= 8,
            col <= 8,
        ensures
            r.wf(),
            value == 0 ==> r == self,
            value != 0 ==> r@ == with_value(self@, row as int, col as int, value as nat),
            value != 0 ==> r.solvable() == (self.solvable() && !unit_holds(
                self@,
                row as int,
                col as int,
                value as nat,
            )),
            value != 0 ==> r.words() == fill_words(
                self.words(),
                row as int,
                col as int,
                box_of(row as int, col as int),
                value as u64,
            ),
            sound(self.words()) && at(self@, row as int, col as int) == 0 ==> sound(r.words()),
            r.pool() == self.pool(),
    {
        if value == 0 {
            return self;
        }
        let mut board = self;
        let bx = box_index(row, col);
        let square = SudokuSquare::new(row, col, bx);
        let bit = as_bit(value);
        let in_row = board.board[row].values_in_row();
        let in_col = board.board[col].values_in_col();
        let in_box = board.board[bx].values_in_box();
        proof {
            lemma_union_has(in_row, in_col, in_box, value as u64);
            if self.solvable() {
                lemma_used_mask(self.words(), row as int, col as int, value as nat);
                if !unit_holds(self@, row as int, col as int, value as nat) {
                    lemma_overwrite_conflict(self@, row as int, col as int, value as nat);
                }
            }
        }
        if 0 < (in_row & bit | in_col & bit | in_box & bit) {
            board.is_solvable = false;
        }
        assert(board.words() == self.words());
        board.fill(&square, value);
        board
    }

    /// Returns a set of bits representing the options for a given square.
    /// For example, if `0b101010101` is returned, this means that
    /// `{ 1, 3, 5, 7, 9 }` are already present in the row/col/box and that
    /// `{ 2, 4, 6, 8 }` are available options.
    pub fn options(&self, square: &SudokuSquare) -> (r: u64)
        requires
            square.in_range(),
        ensures
            r == used_mask(self.words(), square.0 as int, square.1 as int, square.2 as int),
            r < 512,
            marks_exact(self.words()) && square.valid() ==> forall|d: nat|
                1 <= d <= 9 ==> has_digit(r, d as u64) == #[trigger] unit_holds(
                    self@,
                    square.0 as int,
                    square.1 as int,
                    d,
                ),
    {
        let SudokuSquare(row, col, bx) = *square;
        let in_row = self.board[row].values_in_row();
        let in_col = self.board[col].values_in_col();
        let in_box = self.board[bx].values_in_box();
        proof {
            lemma_union_bound(in_row, in_col, in_box);
            if marks_exact(self.words()) && square.valid() {
                assert forall|d: nat| 1 <= d <= 9 implies has_digit(
                    in_row | in_col | in_box,
                    d as u64,
                ) == #[trigger] unit_holds(self@, square.0 as int, square.1 as int, d) by {
                    lemma_used_mask(self.words(), square.0 as int, square.1 as int, d);
                }
            }
        }
        in_row | in_col | in_box
    }

    /// Returns every value that is an available option for this square, in
    /// ascending order.
    /// For example, if `{ 1, 3, 5, 7, 9 }` are already present in this square's row/col/box,
    /// then this will return `{ 2, 4, 6, 8 }`.
    pub fn options_iter(&self, square: &SudokuSquare) -> (r: Vec<usize>)
        requires
            square.in_range(),
        ensures
            is_option_list(
                r@,
                used_mask(self.words(), square.0 as int, square.1 as int, square.2 as int),
            ),
            r@.len() == 9 - digit_count(
                used_mask(self.words(), square.0 as int, square.1 as int, square.2 as int),
            ),
    {
        free_digits(self.options(square))
    }

    /// Returns the count of available options for this square.
    /// For example, if { 1, 3, 5, 7, 9 } are already present in this square's row/col/box,
    /// then this will return 4, because { 2, 4, 6, 8 } are all available options.
    pub fn count_options(&self, square: &SudokuSquare) -> (r: u32)
        requires
            square.in_range(),
        ensures
            r == 9 - digit_count(
                used_mask(self.words(), square.0 as int, square.1 as int, square.2 as int),
            ),
            r <= 9,
    {
        9 - count_marked(self.options(square))
    }

    /// Returns the number of digits already present in the row, the column
    /// and the box of a square.
    pub fn taken_count(&self, square: &SudokuSquare) -> (r: u32)
        requires
            square.in_range(),
        ensures
            r == taken(self.words(), *square),
    {
        9 - self.count_options(square)
    }

    /// How many squares wait in the pool.
    pub fn fillable_count(&self) -> (r: usize)
        ensures
            r == self.pool().len(),
    {
        self.fillable_squares.len()
    }

    /// The square at place `i` of the pool.
    pub fn fillable_at(&self, i: usize) -> (r: SudokuSquare)
        requires
            i < self.pool().len(),
        ensures
            r == self.pool()[i as int],
    {
        self.fillable_squares[i]
    }

    /// Puts a square at the back of the pool.
    pub fn put_back(&mut self, square: SudokuSquare)
        ensures
            final(self).pool() == old(self).pool().push(square),
            final(self).words() == old(self).words(),
            final(self).solvable() == old(self).solvable(),
    {
        self.fillable_squares.push(square);
    }

    /// Populates the pool with the coordinates of every fillable square on the board.
    /// The pool is sorted such that the squares with the fewest options are in the back.
    pub fn analyze_fillable_squares(&mut self)
        ensures
            pool_lists(final(self).pool(), blanks_of(final(self)@)),
            forall|i: int, j: int|
                0 <= i < j < final(self).pool().len() ==> option_count(
                    final(self).words(),
                    final(self).pool()[i],
                ) >= option_count(final(self).words(), final(self).pool()[j]),
            final(self).words() == old(self).words(),
            final(self).solvable() == old(self).solvable(),
    {
        let mut squares: Vec<SudokuSquare> = Vec::with_capacity(81);
        let ghost grid = self@;
        proof {
            lemma_grid_bounds(self.words());
        }
        let mut row: usize = 0;
        while row < 9
            invariant
                row <= 9,
                grid == self@,
                self.words() == old(self).words(),
                self.solvable() == old(self).solvable(),
                squares@.no_duplicates(),
                forall|sq: SudokuSquare| #[trigger]
                    squares@.contains(sq) <==> (sq.valid() && at(grid, sq.0 as int, sq.1 as int)
                        == 0 && sq.0 < row),
            decreases 9 - row,
        {
            let mut col: usize = 0;
            while col < 9
                invariant
                    row < 9,
                    col <= 9,
                    grid == self@,
                    self.words() == old(self).words(),
                    self.solvable() == old(self).solvable(),
                    squares@.no_duplicates(),
                    forall|sq: SudokuSquare| #[trigger]
                        squares@.contains(sq) <==> (sq.valid() && at(grid, sq.0 as int, sq.1 as int)
                            == 0 && (sq.0 < row || (sq.0 == row && sq.1 < col))),
                decreases 9 - col,
            {
                let square = SudokuSquare::new(row, col, box_index(row, col));
                if 0 == self.value_at(&square) {
                    proof {
                        assert(!squares@.contains(square));
                        lemma_push_contains(squares@, square);
                    }
                    squares.push(square);
                }
                col += 1;
            }
            row += 1;
        }
        proof {
            assert forall|sq: SudokuSquare| #[trigger]
                squares@.contains(sq) implies sq.in_range() by {}
            assert forall|i: int| 0 <= i < squares@.len() implies squares@[i].in_range() by {
                assert(squares@.contains(squares@[i]));
            }
            assert(pool_lists(squares@, blanks_of(grid)));
        }
        let ghost unsorted = squares@;
        sort_by_taken(&mut squares, &*self);
        proof {
            lemma_pool_rearranged(unsorted, squares@, blanks_of(grid));
        }
        self.fillable_squares = squares;
    }

    /// Returns the next best square in which to try a value, removing it from the pool.
    /// That is the first encountered square if only 1 option.
    /// Or else the first encountered square among those with the least number of options.
    pub fn next_fillable_square(&mut self) -> (r: SudokuSquare)
        requires
            old(self).pool().len() > 0,
            forall|i: int| 0 <= i < old(self).pool().len() ==> old(self).pool()[i].in_range(),
        ensures
            exists|p: int|
                is_scan_choice(old(self).words(), old(self).pool(), p) && r == old(self).pool()[p]
                    && final(self).pool() == pool_without(old(self).pool(), p),
            final(self).words() == old(self).words(),
            final(self).solvable() == old(self).solvable(),
    {
        let len = self.fillable_squares.len();
        let mut index: usize = 0;
        let mut min_options = self.count_options(&self.fillable_squares[0]);
        let mut i: usize = len;
        let ghost pool = self.pool();
        let ghost words = self.words();
        while i > 1
            invariant
                1 <= i <= len,
                len == pool.len(),
                pool == self.pool(),
                words == self.words(),
                self.words() == old(self).words(),
                self.pool() == old(self).pool(),
                self.solvable() == old(self).solvable(),
                forall|k: int| 0 <= k < pool.len() ==> pool[k].in_range(),
                index == 0 || i <= index < len,
                min_options == option_count(words, pool[index as int]),
                forall|j: int|
                    0 <= j < len && (j == 0 || j >= i) ==> #[trigger] option_count(words, pool[j])
                        >= min_options,
                forall|j: int|
                    0 <= j < len && (j == 0 || j >= i) && scan_rank(j, len as int) < scan_rank(
                        index as int,
                        len as int,
                    ) ==> #[trigger] option_count(words, pool[j]) > min_options && option_count(
                        words,
                        pool[j],
                    ) > 1,
            ensures
                i <= 1 || min_options == 1,
            decreases i,
        {
            if min_options == 1 {
                break;
            }
            i -= 1;
            let curr_options = self.count_options(&self.fillable_squares[i]);
            if curr_options < min_options {
                min_options = curr_options;
                index = i;
            }
        }
        proof {
            assert(is_scan_choice(words, pool, index as int));
        }
        self.fillable_squares.swap_remove(index)
    }

    /// Creates a board from a string of digits.
    /// Ignores whitespace and treats non-digits as a blank square.
    /// Example Board String #1:
    /// ```text
    /// .75.....42139.5.7...8.7...9..2417...4...6...1...8324..3...9.7...5.3.46988.....31.
    /// ```
    /// Example Board String #2:
    /// ```text
    /// -  -  -  -  -  -  -  -  -
    /// -  -  -  -  -  3  -  8  5
    /// -  -  1  -  2  -  -  -  -
    /// -  -  -  5  -  7  -  -  -
    /// -  -  4  -  -  -  1  -  -
    /// -  9  -  -  -  -  -  -  -
    /// 5  -  -  -  -  -  -  7  3
    /// -  -  2  -  1  -  -  -  -
    /// -  -  -  -  4  -  -  -  9
    /// ```
    /// A text with fewer than 81 meaningful characters leaves the squares
    /// it does not reach blank. The board is solvable exactly when the text
    /// puts no digit twice into a row, a column or a box. Its masks mark
    /// the digits of the grid, so the grid fixes all nine words.
    pub fn parse(input: &str) -> (r: Self)
        ensures
            r@ == parse_grid(input@),
            r.solvable() == conflict_free(r@),
            sound(r.words()),
            r.pool().len() == 0,
            r.wf(),
    {
        let mut board = SudokuBoard::default();
        let indices = board_indices();
        let mut chars = input.chars();
        let mut placed: usize = 0;
        let ghost mut consumed: Seq<char> = Seq::empty();
        proof {
            broadcast use vstd::string::group_string_axioms;

            assert(consumed + chars.remaining() =~= input@);
            assert(meaningful(consumed) =~= Seq::<char>::empty());
            assert(board@ =~= partial_grid(meaningful(consumed)));
            lemma_blank_conflict_free();
        }
        while placed < 81
            invariant
                placed <= 81,
                is_row_major(indices@),
                chars.obeys_prophetic_iter_laws(),
                chars.decrease() is Some,
                consumed + chars.remaining() == input@,
                placed == meaningful(consumed).len(),
                board@ == partial_grid(meaningful(consumed)),
                board.wf(),
                board.solvable() == conflict_free(board@),
                sound(board.words()),
                board.pool().len() == 0,
            ensures
                placed <= 81,
                consumed + chars.remaining() == input@,
                placed == meaningful(consumed).len(),
                board@ == partial_grid(meaningful(consumed)),
                board.wf(),
                board.solvable() == conflict_free(board@),
                sound(board.words()),
                board.pool().len() == 0,
                placed == 81 || chars.remaining().len() == 0,
            decreases chars.decrease().unwrap(),
        {
            let ghost before = chars.remaining();
            let next = chars.next();
            proof {
                broadcast use vstd::string::group_string_axioms;

            }
            match next {
                None => {
                    break ;
                },
                Some(c) => {
                    proof {
                        assert(before.len() > 0 && c == before[0]);
                        assert(consumed.push(c) + chars.remaining() =~= input@);
                        lemma_meaningful_push(consumed, c);
                        consumed = consumed.push(c);
                    }
                    if !is_whitespace(c) {
                        let value: usize = match decimal_digit(c) {
                            Some(d) => d as usize,
                            None => 0,
                        };
                        let ghost grid = board@;
                        proof {
                            assert((9 * (placed / 9) + placed % 9) as int == placed);
                            if value != 0 {
                                lemma_place_conflict(
                                    grid,
                                    (placed / 9) as int,
                                    (placed % 9) as int,
                                    value as nat,
                                );
                            }
                        }
                        let (row, col) = indices[placed];
                        board = board.insert(value, row, col);
                        proof {
                            assert(board@ =~= partial_grid(meaningful(consumed)));
                        }
                        placed += 1;
                    }
                },
            }
        }
        proof {
            lemma_parse_prefix(consumed, chars.remaining());
        }
        board
    }

    /// Returns the board as it is drawn, from its top edge to its bottom
    /// edge, each line ended by a newline.
    pub fn to_display_string(&self) -> (r: String)
        ensures
            r@ == framed_text(self@) + "\n"@,
    {
        proof {
            lemma_row_cells(self.words());
            reveal(framed_text);
        }
        let mut string = String::new();
        string.append(TOP_EDGE);
        string.append("\n");
        string.append(self.board[0].to_string().as_str());
        string.append(THIN_RULE);
        string.append("\n");
        string.append(self.board[1].to_string().as_str());
        string.append(THIN_RULE);
        string.append("\n");
        string.append(self.board[2].to_string().as_str());
        string.append(THICK_RULE);
        string.append("\n");
        string.append(self.board[3].to_string().as_str());
        string.append(THIN_RULE);
        string.append("\n");
        string.append(self.board[4].to_string().as_str());
        string.append(THIN_RULE);
        string.append("\n");
        string.append(self.board[5].to_string().as_str());
        string.append(THICK_RULE);
        string.append("\n");
        string.append(self.board[6].to_string().as_str());
        string.append(THIN_RULE);
        string.append("\n");
        string.append(self.board[7].to_string().as_str());
        string.append(THIN_RULE);
        string.append("\n");
        string.append(self.board[8].to_string().as_str());
        string.append(BOTTOM_EDGE);
        string.append("\n");
        assert(string@ =~= framed_text(self@) + "\n"@);
        string
    }

    /// Returns a string representation of the board.
    pub fn to_string(&self) -> (r: String)
        ensures
            r@ == pretty_text(self@),
    {
        let mut string = String::new();
        string.append("\n");
        string.append(self.to_display_string().as_str());
        string.append("\n");
        assert(string@ =~= pretty_text(self@));
        string
    }

    /// Returns a compact string representation of the board: 81 contiguous digits `(1..=9)`
    pub fn to_string_compact(&self) -> (r: String)
        ensures
            r@ == compact_text(self@),
    {
        proof {
            lemma_row_cells(self.words());
        }
        let mut string = String::new();
        let mut i: usize = 0;
        while i <= 8
            invariant
                i <= 9,
                string@ == Seq::new(9 * i as nat, |k: int| square_char(self@[k])),
                forall|r: int| 0 <= r < 9 ==> #[trigger] row_of(self@, r) == cells_of(self.words()[r]),
            decreases 9 - i,
        {
            let row = self.board[i].to_string_compact();
            string.append(row.as_str());
            assert(string@ =~= Seq::new(9 * (i + 1) as nat, |k: int| square_char(self@[k]))) by {
                assert(row_of(self@, i as int) == cells_of(self.words()[i as int]));
                assert forall|k: int| 9 * i <= k < 9 * i + 9 implies string@[k] == square_char(
                    self@[k],
                ) by {
                    assert(row@[k - 9 * i] == square_char(row_of(self@, i as int)[k - 9 * i]));
                }
            }
            i += 1;
        }
        string.append("\n");
        proof {
            reveal_strlit("\n");
            assert("\n"@ =~= seq!['\n']);
            assert(string@ =~= compact_text(self@));
        }
        string
    }
}

impl Default for SudokuBoard {
    /// The empty board: every square blank, nothing marked, solvable.
    fn default() -> (r: Self)
        ensures
            r@ == blank_grid(),
            r.solvable(),
            r.wf(),
            r.pool().len() == 0,
    {
        let blank = SudokuData::default();
        let r = SudokuBoard {
            board: [blank, blank, blank, blank, blank, blank, blank, blank, blank],
            fillable_squares: Vec::with_capacity(81),
            is_solvable: true,
        };
        proof {
            lemma_blank_words(r.words());
        }
        r
    }
}

impl Clone for SudokuBoard {
    /// A copy that shares nothing with the board: the same words, the same
    /// waiting squares, the same flag.
    fn clone(&self) -> (r: Self)
        ensures
            r.words() == self.words(),
            r.pool() == self.pool(),
            r.solvable() == self.solvable(),
    {
        let r = SudokuBoard {
            board: self.board,
            fillable_squares: self.fillable_squares.clone(),
            is_solvable: self.is_solvable,
        };
        assert(r.pool() =~= self.pool());
        r
    }
}

impl<'a> vstd::std_specs::convert::FromSpecImpl<&'a str> for SudokuBoard {
    /// A board is not a function of its text alone in every part: the pool
    /// it carries is scratch space. So the conversion is specified by the
    /// contract of `from`, not by `from_spec`.
    open spec fn obeys_from_spec() -> bool {
        false
    }

    open spec fn from_spec(input: &'a str) -> Self {
        arbitrary()
    }
}

impl<'a> From<&'a str> for SudokuBoard {
    /// Creates a board from a string of digits, as [`SudokuBoard::parse`]
    /// does.
    fn from(input: &'a str) -> (r: Self)
        ensures
            r@ == parse_grid(input@),
            r.solvable() == conflict_free(r@),
            sound(r.words()),
            r.pool().len() == 0,
            r.wf(),
    {
        SudokuBoard::parse(input)
    }
}

impl vstd::std_specs::convert::FromSpecImpl<String> for SudokuBoard {
    /// As for a borrowed text, the conversion is specified by the contract
    /// of `from`.
    open spec fn obeys_from_spec() -> bool {
        false
    }

    open spec fn from_spec(input: String) -> Self {
        arbitrary()
    }
}

impl From<String> for SudokuBoard {
    /// Creates a board from a string of digits, as [`SudokuBoard::parse`]
    /// does.
    fn from(input: String) -> (r: Self)
        ensures
            r@ == parse_grid(input@),
            r.solvable() == conflict_free(r@),
            sound(r.words()),
            r.pool().len() == 0,
            r.wf(),
    {
        SudokuBoard::parse(input.as_str())
    }
}

/// The list names the 81 squares in row-major order, from `(0, 0)` to
/// `(8, 8)`.
pub open spec fn is_row_major(indices: Seq<(usize, usize)>) -> bool {
    &&& indices.len() == 81
    &&& forall|k: int| 0 <= k < 81 ==> #[trigger] indices[k] == ((k / 9) as usize, (k % 9) as usize)
}

/// Returns all 81 of the board's (row, col) indices from (0, 0) to (8, 8).
pub fn board_indices() -> (r: Vec<(usize, usize)>)
    ensures
        is_row_major(r@),
{
    let mut indices: Vec<(usize, usize)> = Vec::with_capacity(81);
    let mut row: usize = 0;
    while row < 9
        invariant
            row <= 9,
            indices@.len() == 9 * row,
            forall|k: int|
                0 <= k < indices@.len() ==> #[trigger] indices@[k] == (
                    (k / 9) as usize,
                    (k % 9) as usize,
                ),
        decreases 9 - row,
    {
        let mut col: usize = 0;
        while col < 9
            invariant
                row < 9,
                col <= 9,
                indices@.len() == 9 * row + col,
                forall|k: int|
                    0 <= k < indices@.len() ==> #[trigger] indices@[k] == (
                        (k / 9) as usize,
                        (k % 9) as usize,
                    ),
            decreases 9 - col,
        {
            indices.push((row, col));
            col += 1;
        }
        row += 1;
    }
    indices
}

/// How many digits are already taken for a square.
pub open spec fn taken(words: Seq<u64>, square: SudokuSquare) -> nat {
    digit_count(used_mask(words, square.0 as int, square.1 as int, square.2 as int))
}

/// How many digits are still free for a square.
pub open spec fn option_count(words: Seq<u64>, square: SudokuSquare) -> int {
    9 - taken(words, square)
}

/// The pool lists, each once, the valid squares at the places in `blanks`.
pub open spec fn pool_lists(pool: Seq<SudokuSquare>, blanks: Set<(int, int)>) -> bool {
    &&& pool.no_duplicates()
    &&& forall|sq: SudokuSquare| #[trigger]
        pool.contains(sq) <==> (sq.valid() && blanks.contains((sq.0 as int, sq.1 as int)))
}

/// Where the scan for the next square meets place `i` of a pool of `len`
/// squares: place zero first, then the last place, and from there down.
pub open spec fn scan_rank(i: int, len: int) -> int {
    if i == 0 {
        0
    } else {
        len - i
    }
}

/// The place that the scan for the next square settles on. Every place met
/// before it has more options, and more than one; and the place itself has
/// at most one option, or as few as any place of the pool.
pub open spec fn is_scan_choice(words: Seq<u64>, pool: Seq<SudokuSquare>, p: int) -> bool {
    &&& 0 <= p < pool.len()
    &&& forall|j: int|
        0 <= j < pool.len() && scan_rank(j, pool.len() as int) < scan_rank(p, pool.len() as int)
            ==> #[trigger] option_count(words, pool[j]) > option_count(words, pool[p])
            && option_count(words, pool[j]) > 1
    &&& option_count(words, pool[p]) <= 1 || forall|j: int|
        0 <= j < pool.len() ==> #[trigger] option_count(words, pool[j]) >= option_count(
            words,
            pool[p],
        )
}

/// The pool after the square at place `p` was swapped out of it.
pub open spec fn pool_without(pool: Seq<SudokuSquare>, p: int) -> Seq<SudokuSquare> {
    pool.update(p, pool.last()).drop_last()
}

/// Sorts the squares by the number of digits already taken for each, the
/// fewest first.
///
/// Calls `sort_unstable_by_key` of the slice, which sorts in place in
/// ascending order of the key and may reorder squares with equal keys. So
/// the result holds the squares it was given, each as often as before, and
/// no key is followed by a smaller one.
#[verifier::external_body]
fn sort_by_taken(squares: &mut Vec<SudokuSquare>, board: &SudokuBoard)
    requires
        forall|i: int| 0 <= i < old(squares)@.len() ==> old(squares)@[i].in_range(),
    ensures
        final(squares)@.to_multiset() == old(squares)@.to_multiset(),
        forall|i: int, j: int|
            0 <= i < j < final(squares)@.len() ==> taken(board.words(), final(squares)@[i])
                <= taken(board.words(), final(squares)@[j]),
{
    squares.sort_unstable_by_key(|sq| board.taken_count(sq));
}

/// An empty pool lists no place on the grid.
pub proof fn lemma_pool_none(pool: Seq<SudokuSquare>, blanks: Set<(int, int)>)
    requires
        pool.len() == 0,
        pool_lists(pool, blanks),
    ensures
        forall|p: (int, int)| on_grid(p.0, p.1) ==> !blanks.contains(p),
{
    assert forall|p: (int, int)| on_grid(p.0, p.1) implies !blanks.contains(p) by {
        if blanks.contains(p) {
            let sq = SudokuSquare(p.0 as usize, p.1 as usize, box_of(p.0, p.1) as usize);
            assert(sq.valid());
            assert(pool.contains(sq));
        }
    }
}

/// An empty pool lists no blank: the grid is full.
pub proof fn lemma_pool_empty(pool: Seq<SudokuSquare>, grid: Seq<nat>)
    requires
        pool.len() == 0,
        pool_lists(pool, blanks_of(grid)),
    ensures
        blanks_of(grid) == Set::<(int, int)>::empty(),
{
    assert forall|p: (int, int)| !blanks_of(grid).contains(p) by {
        if blanks_of(grid).contains(p) {
            let sq = SudokuSquare(p.0 as usize, p.1 as usize, box_of(p.0, p.1) as usize);
            assert(sq.valid());
            assert(pool.contains(sq));
        }
    }
    assert(blanks_of(grid) =~= Set::<(int, int)>::empty());
}

/// Every square of a pool names three words of the board.
pub proof fn lemma_pool_in_range(pool: Seq<SudokuSquare>, blanks: Set<(int, int)>)
    requires
        pool_lists(pool, blanks),
    ensures
        forall|i: int| 0 <= i < pool.len() ==> (#[trigger] pool[i]).valid() && pool[i].in_range(),
{
    assert forall|i: int| 0 <= i < pool.len() implies (#[trigger] pool[i]).valid()
        && pool[i].in_range() by {
        assert(pool.contains(pool[i]));
    }
}

/// Taking a square out of the pool leaves the list of the other blanks.
pub proof fn lemma_pool_take(pool: Seq<SudokuSquare>, blanks: Set<(int, int)>, p: int)
    requires
        pool_lists(pool, blanks),
        0 <= p < pool.len(),
    ensures
        pool_lists(pool_without(pool, p), blanks.remove((pool[p].0 as int, pool[p].1 as int))),
        pool[p].valid(),
        blanks.contains((pool[p].0 as int, pool[p].1 as int)),
{
    let rest = pool_without(pool, p);
    let last = pool.len() - 1;
    assert(pool.contains(pool[p]));
    assert forall|i: int| 0 <= i < rest.len() implies #[trigger] rest[i] == (if i == p {
        pool[last]
    } else {
        pool[i]
    }) by {}
    assert forall|sq: SudokuSquare| #[trigger]
        rest.contains(sq) <==> (pool.contains(sq) && sq != pool[p]) by {
        if rest.contains(sq) {
            let i = choose|i: int| 0 <= i < rest.len() && rest[i] == sq;
            if i == p {
                assert(pool[last] == sq);
            } else {
                assert(pool[i] == sq);
            }
        }
        if pool.contains(sq) && sq != pool[p] {
            let i = choose|i: int| 0 <= i < pool.len() && pool[i] == sq;
            if i == last {
                assert(rest[p] == sq);
            } else {
                assert(rest[i] == sq);
            }
        }
    }
    assert forall|sq: SudokuSquare| #[trigger]
        rest.contains(sq) <==> (sq.valid() && blanks.remove(
            (pool[p].0 as int, pool[p].1 as int),
        ).contains((sq.0 as int, sq.1 as int))) by {
        assert(pool.contains(sq) <==> (sq.valid() && blanks.contains((sq.0 as int, sq.1 as int))));
    }
}

/// Putting a square back into the pool lists its place among the blanks
/// again.
pub proof fn lemma_pool_put(pool: Seq<SudokuSquare>, blanks: Set<(int, int)>, square: SudokuSquare)
    requires
        pool_lists(pool, blanks),
        square.valid(),
        !blanks.contains((square.0 as int, square.1 as int)),
    ensures
        pool_lists(pool.push(square), blanks.insert((square.0 as int, square.1 as int))),
{
    let more = pool.push(square);
    assert(!pool.contains(square));
    lemma_push_contains(pool, square);
    assert forall|sq: SudokuSquare| #[trigger]
        more.contains(sq) <==> (sq.valid() && blanks.insert(
            (square.0 as int, square.1 as int),
        ).contains((sq.0 as int, sq.1 as int))) by {
        assert(pool.contains(sq) <==> (sq.valid() && blanks.contains((sq.0 as int, sq.1 as int))));
    }
}

/// A rearrangement of a pool lists the same blanks.
pub proof fn lemma_pool_rearranged(
    pool: Seq<SudokuSquare>,
    other: Seq<SudokuSquare>,
    blanks: Set<(int, int)>,
)
    requires
        pool_lists(pool, blanks),
        other.to_multiset() == pool.to_multiset(),
    ensures
        pool_lists(other, blanks),
        other.len() == pool.len(),
{
    pool.to_multiset_ensures();
    other.to_multiset_ensures();
    pool.lemma_multiset_has_no_duplicates();
    other.lemma_multiset_has_no_duplicates_conv();
    assert forall|sq: SudokuSquare| #[trigger] other.contains(sq) <==> pool.contains(sq) by {
        assert(other.contains(sq) <==> other.to_multiset().count(sq) > 0);
        assert(pool.contains(sq) <==> pool.to_multiset().count(sq) > 0);
    }
}

/// The grid that a list of meaningful characters fills so far.
pub open spec fn partial_grid(chars: Seq<char>) -> Seq<nat> {
    Seq::new(
        81,
        |k: int|
            if k < chars.len() {
                digit_of(chars[k])
            } else {
                0
            },
    )
}

/// The blank grid has no conflict.
proof fn lemma_blank_conflict_free()
    ensures
        conflict_free(blank_grid()),
{
    assert forall|r: int, c: int| on_grid(r, c) implies #[trigger] at(blank_grid(), r, c) == 0 by {}
}

/// One more character adds itself to the meaningful ones unless it is
/// white space.
proof fn lemma_meaningful_push(text: Seq<char>, c: char)
    ensures
        meaningful(text.push(c)) == (if is_white_space(c) {
            meaningful(text)
        } else {
            meaningful(text).push(c)
        }),
{
    let pred = |c: char| !is_white_space(c);
    assert(text.push(c).drop_last() =~= text);
    reveal(Seq::filter);
    assert(text.push(c).filter(pred) =~= (if pred(c) {
        text.filter(pred).push(c)
    } else {
        text.filter(pred)
    }));
}

/// A text is read from its beginning: what follows the first 81
/// meaningful characters, or nothing, changes nothing.
proof fn lemma_parse_prefix(consumed: Seq<char>, rest: Seq<char>)
    requires
        meaningful(consumed).len() >= 81 || rest.len() == 0,
    ensures
        parse_grid(consumed + rest) == partial_grid(meaningful(consumed)),
{
    let pred = |c: char| !is_white_space(c);
    Seq::filter_distributes_over_add(consumed, rest, pred);
    if rest.len() == 0 {
        assert(consumed + rest =~= consumed);
    }
    assert(parse_grid(consumed + rest) =~= partial_grid(meaningful(consumed)));
}

/// Word `r` holds row `r` of the grid.
pub proof fn lemma_row_cells(words: Seq<u64>)
    ensures
        forall|r: int| 0 <= r < 9 ==> #[trigger] row_of(grid_of(words), r) == cells_of(words[r]),
{
    assert forall|r: int| 0 <= r < 9 implies #[trigger] row_of(grid_of(words), r) == cells_of(
        words[r],
    ) by {
        assert forall|c: int| 0 <= c < 9 implies row_of(grid_of(words), r)[c] == cells_of(
            words[r],
        )[c] by {
            assert((9 * r + c) / 9 == r && (9 * r + c) % 9 == c);
        }
        assert(row_of(grid_of(words), r) =~= cells_of(words[r]));
    }
}

} // verus!
