//! What the nine packed words of a board mean: the grid they hold and the
//! digits that their masks mark, with the effect of each update on both.
//!
//! Word `i` is read in three roles. Its row mask answers for row `i`, its
//! column mask for column `i` and its box mask for box `i`, while its nine
//! digit fields hold row `i` alone.
use crate::sudoku::bitwise::{
    as_bit, bit_of, box_mask, col_mask, digit_at, has_digit, lemma_mark_box, lemma_mark_col,
    lemma_mark_row, lemma_part_bounds, lemma_union_has, lemma_unmark_box, lemma_unmark_col,
    lemma_unmark_row, lemma_write_square, row_mask, square_shift,
};
use crate::sudoku::rules::{
    at, blank_grid, box_holds, box_of, col_holds, conflict_free, lemma_unit_holds, on_grid,
    row_holds, same_unit, unit_holds, well_formed, with_value,
};
use vstd::prelude::*;

verus! {

/// The value that the words hold at `(row, col)`.
pub open spec fn cell_of(words: Seq<u64>, row: int, col: int) -> nat {
    digit_at(words[row], col as u64) as nat
}

/// The grid that the words hold.
pub open spec fn grid_of(words: Seq<u64>) -> Seq<nat> {
    Seq::new(81, |k: int| cell_of(words, k / 9, k % 9))
}

/// Whether `(unit, digit)` is a pair that a mask can mark.
pub open spec fn markable(p: (int, nat)) -> bool {
    0 <= p.0 < 9 && 1 <= p.1 <= 9
}

/// The pairs `(row, digit)` that the row masks mark.
pub open spec fn row_marks(words: Seq<u64>) -> Set<(int, nat)> {
    Set::new(|p: (int, nat)| markable(p) && has_digit(row_mask(words[p.0]), p.1 as u64))
}

/// The pairs `(column, digit)` that the column masks mark.
pub open spec fn col_marks(words: Seq<u64>) -> Set<(int, nat)> {
    Set::new(|p: (int, nat)| markable(p) && has_digit(col_mask(words[p.0]), p.1 as u64))
}

/// The pairs `(box, digit)` that the box masks mark.
pub open spec fn box_marks(words: Seq<u64>) -> Set<(int, nat)> {
    Set::new(|p: (int, nat)| markable(p) && has_digit(box_mask(words[p.0]), p.1 as u64))
}

/// The pairs `(row, digit)` with the digit standing in the row.
pub open spec fn row_digits(grid: Seq<nat>) -> Set<(int, nat)> {
    Set::new(|p: (int, nat)| markable(p) && row_holds(grid, p.0, p.1))
}

/// The pairs `(column, digit)` with the digit standing in the column.
pub open spec fn col_digits(grid: Seq<nat>) -> Set<(int, nat)> {
    Set::new(|p: (int, nat)| markable(p) && col_holds(grid, p.0, p.1))
}

/// The pairs `(box, digit)` with the digit standing in the box.
pub open spec fn box_digits(grid: Seq<nat>) -> Set<(int, nat)> {
    Set::new(|p: (int, nat)| markable(p) && box_holds(grid, p.0, p.1))
}

/// The masks mark exactly the digits that stand in each row, column and box.
pub open spec fn marks_exact(words: Seq<u64>) -> bool {
    &&& row_marks(words) == row_digits(grid_of(words))
    &&& col_marks(words) == col_digits(grid_of(words))
    &&& box_marks(words) == box_digits(grid_of(words))
}

/// The bit above the row mask is clear in every word.
pub open spec fn tops_clear(words: Seq<u64>) -> bool {
    forall|i: int| 0 <= i < 9 ==> #[trigger] words[i] >> 63 == 0
}

/// The top bit of every word of `a` is that of the word of `b`.
pub open spec fn same_tops(a: Seq<u64>, b: Seq<u64>) -> bool {
    forall|i: int| 0 <= i < 9 ==> #[trigger] a[i] >> 63 == b[i] >> 63
}

/// Nine words that hold blanks and digits, with exact masks and nothing in
/// the unused bit.
pub open spec fn sound(words: Seq<u64>) -> bool {
    &&& words.len() == 9
    &&& well_formed(grid_of(words))
    &&& marks_exact(words)
    &&& tops_clear(words)
}

/// The state in which the search works: sound words whose grid has no
/// conflict.
pub open spec fn tidy(words: Seq<u64>) -> bool {
    &&& sound(words)
    &&& conflict_free(grid_of(words))
}

/// `marks` with the pair `(unit, value)` added where `value` is a digit.
pub open spec fn with_mark(marks: Set<(int, nat)>, unit: int, value: nat) -> Set<(int, nat)> {
    if 1 <= value <= 9 {
        marks.insert((unit, value))
    } else {
        marks
    }
}

/// The words after `value` was marked in a row, a column and a box.
pub open spec fn mark_words(words: Seq<u64>, row: int, col: int, bx: int, value: u64) -> Seq<u64> {
    let w1 = words.update(row, words[row] | (bit_of(value) << 54));
    let w2 = w1.update(col, w1[col] | (bit_of(value) << 45));
    w2.update(bx, w2[bx] | (bit_of(value) << 36))
}

/// The words after `value` was unmarked from a row, a column and a box.
pub open spec fn unmark_words(words: Seq<u64>, row: int, col: int, bx: int, value: u64) -> Seq<
    u64,
> {
    let w1 = words.update(row, words[row] & !(bit_of(value) << 54));
    let w2 = w1.update(col, w1[col] & !(bit_of(value) << 45));
    w2.update(bx, w2[bx] & !(bit_of(value) << 36))
}

/// The words after the digit field at `(row, col)` was set to `value`.
pub open spec fn write_words(words: Seq<u64>, row: int, col: int, value: u64) -> Seq<u64> {
    words.update(
        row,
        (words[row] & !(0xFu64 << square_shift(col as u64))) | (value << square_shift(col as u64)),
    )
}

/// The words after a square was filled: its old value unmarked, the new one
/// written and marked.
pub open spec fn fill_words(words: Seq<u64>, row: int, col: int, bx: int, value: u64) -> Seq<u64> {
    let before = digit_at(words[row], col as u64);
    mark_words(
        write_words(unmark_words(words, row, col, bx, before), row, col, value),
        row,
        col,
        bx,
        value,
    )
}

/// The words after a square was cleared: its value unmarked and its field
/// set to blank.
pub open spec fn clear_words(words: Seq<u64>, row: int, col: int, bx: int) -> Seq<u64> {
    let before = digit_at(words[row], col as u64);
    write_words(unmark_words(words, row, col, bx, before), row, col, 0)
}

/// The mask of the digits that are taken for a square: those marked in its
/// row, its column or its box.
pub open spec fn used_mask(words: Seq<u64>, row: int, col: int, bx: int) -> u64 {
    row_mask(words[row]) | col_mask(words[col]) | box_mask(words[bx])
}

/// How many of the digits `1..=9` a mask marks.
pub open spec fn digit_count(mask: u64) -> nat {
    (if has_digit(mask, 1) { 1nat } else { 0 }) + (if has_digit(mask, 2) { 1nat } else { 0 })
        + (if has_digit(mask, 3) { 1nat } else { 0 }) + (if has_digit(mask, 4) { 1nat } else { 0 })
        + (if has_digit(mask, 5) { 1nat } else { 0 }) + (if has_digit(mask, 6) { 1nat } else { 0 })
        + (if has_digit(mask, 7) { 1nat } else { 0 }) + (if has_digit(mask, 8) { 1nat } else { 0 })
        + (if has_digit(mask, 9) { 1nat } else { 0 })
}

/// The grid holds at `(row, col)` what the words hold there.
proof fn lemma_grid_cells(words: Seq<u64>)
    ensures
        grid_of(words).len() == 81,
        forall|r: int, c: int| on_grid(r, c) ==> #[trigger] at(grid_of(words), r, c) == cell_of(words, r, c),
{
    assert forall|r: int, c: int| on_grid(r, c) implies #[trigger] at(grid_of(words), r, c)
        == cell_of(words, r, c) by {
        assert((9 * r + c) / 9 == r && (9 * r + c) % 9 == c);
    }
}

/// Setting a bit of the row mask of word `i` adds one row mark and changes
/// nothing else.
proof fn lemma_step_mark_row(words: Seq<u64>, i: int, value: u64)
    requires
        words.len() == 9,
        0 <= i < 9,
    ensures
        ({
            let next = words.update(i, words[i] | (bit_of(value) << 54));
            &&& row_marks(next) == with_mark(row_marks(words), i, value as nat)
            &&& col_marks(next) == col_marks(words)
            &&& box_marks(next) == box_marks(words)
            &&& grid_of(next) == grid_of(words)
            &&& same_tops(next, words)
        }),
{
    let next = words.update(i, words[i] | (bit_of(value) << 54));
    assert forall|p: (int, nat)| markable(p) implies (has_digit(row_mask(next[p.0]), p.1 as u64)
        == (has_digit(row_mask(words[p.0]), p.1 as u64) || (p.0 == i && p.1 == value)))
        && has_digit(col_mask(next[p.0]), p.1 as u64) == has_digit(col_mask(words[p.0]), p.1 as u64)
        && has_digit(box_mask(next[p.0]), p.1 as u64) == has_digit(
        box_mask(words[p.0]),
        p.1 as u64,
    ) by {
        lemma_mark_row(words[i], value, p.1 as u64, 0);
    }
    assert(row_marks(next) =~= with_mark(row_marks(words), i, value as nat));
    assert(col_marks(next) =~= col_marks(words));
    assert(box_marks(next) =~= box_marks(words));
    assert forall|k: int| 0 <= k < 81 implies grid_of(next)[k] == grid_of(words)[k] by {
        lemma_mark_row(words[i], value, 1, (k % 9) as u64);
    }
    assert(grid_of(next) =~= grid_of(words));
    assert(same_tops(next, words)) by {
        lemma_mark_row(words[i], value, 1, 0);
    }
}

/// Setting a bit of the column mask of word `i` adds one column mark and
/// changes nothing else.
proof fn lemma_step_mark_col(words: Seq<u64>, i: int, value: u64)
    requires
        words.len() == 9,
        0 <= i < 9,
    ensures
        ({
            let next = words.update(i, words[i] | (bit_of(value) << 45));
            &&& col_marks(next) == with_mark(col_marks(words), i, value as nat)
            &&& row_marks(next) == row_marks(words)
            &&& box_marks(next) == box_marks(words)
            &&& grid_of(next) == grid_of(words)
            &&& same_tops(next, words)
        }),
{
    let next = words.update(i, words[i] | (bit_of(value) << 45));
    assert forall|p: (int, nat)| markable(p) implies (has_digit(col_mask(next[p.0]), p.1 as u64)
        == (has_digit(col_mask(words[p.0]), p.1 as u64) || (p.0 == i && p.1 == value)))
        && has_digit(row_mask(next[p.0]), p.1 as u64) == has_digit(row_mask(words[p.0]), p.1 as u64)
        && has_digit(box_mask(next[p.0]), p.1 as u64) == has_digit(
        box_mask(words[p.0]),
        p.1 as u64,
    ) by {
        lemma_mark_col(words[i], value, p.1 as u64, 0);
    }
    assert(col_marks(next) =~= with_mark(col_marks(words), i, value as nat));
    assert(row_marks(next) =~= row_marks(words));
    assert(box_marks(next) =~= box_marks(words));
    assert forall|k: int| 0 <= k < 81 implies grid_of(next)[k] == grid_of(words)[k] by {
        lemma_mark_col(words[i], value, 1, (k % 9) as u64);
    }
    assert(grid_of(next) =~= grid_of(words));
    assert(same_tops(next, words)) by {
        lemma_mark_col(words[i], value, 1, 0);
    }
}

/// Setting a bit of the box mask of word `i` adds one box mark and changes
/// nothing else.
proof fn lemma_step_mark_box(words: Seq<u64>, i: int, value: u64)
    requires
        words.len() == 9,
        0 <= i < 9,
    ensures
        ({
            let next = words.update(i, words[i] | (bit_of(value) << 36));
            &&& box_marks(next) == with_mark(box_marks(words), i, value as nat)
            &&& row_marks(next) == row_marks(words)
            &&& col_marks(next) == col_marks(words)
            &&& grid_of(next) == grid_of(words)
            &&& same_tops(next, words)
        }),
{
    let next = words.update(i, words[i] | (bit_of(value) << 36));
    assert forall|p: (int, nat)| markable(p) implies (has_digit(box_mask(next[p.0]), p.1 as u64)
        == (has_digit(box_mask(words[p.0]), p.1 as u64) || (p.0 == i && p.1 == value)))
        && has_digit(row_mask(next[p.0]), p.1 as u64) == has_digit(row_mask(words[p.0]), p.1 as u64)
        && has_digit(col_mask(next[p.0]), p.1 as u64) == has_digit(
        col_mask(words[p.0]),
        p.1 as u64,
    ) by {
        lemma_mark_box(words[i], value, p.1 as u64, 0);
    }
    assert(box_marks(next) =~= with_mark(box_marks(words), i, value as nat));
    assert(row_marks(next) =~= row_marks(words));
    assert(col_marks(next) =~= col_marks(words));
    assert forall|k: int| 0 <= k < 81 implies grid_of(next)[k] == grid_of(words)[k] by {
        lemma_mark_box(words[i], value, 1, (k % 9) as u64);
    }
    assert(grid_of(next) =~= grid_of(words));
    assert(same_tops(next, words)) by {
        lemma_mark_box(words[i], value, 1, 0);
    }
}

/// Clearing a bit of the row mask of word `i` removes one row mark and
/// changes nothing else.
proof fn lemma_step_unmark_row(words: Seq<u64>, i: int, value: u64)
    requires
        words.len() == 9,
        0 <= i < 9,
    ensures
        ({
            let next = words.update(i, words[i] & !(bit_of(value) << 54));
            &&& row_marks(next) == row_marks(words).remove((i, value as nat))
            &&& col_marks(next) == col_marks(words)
            &&& box_marks(next) == box_marks(words)
            &&& grid_of(next) == grid_of(words)
            &&& same_tops(next, words)
        }),
{
    let next = words.update(i, words[i] & !(bit_of(value) << 54));
    assert forall|p: (int, nat)| markable(p) implies (has_digit(row_mask(next[p.0]), p.1 as u64)
        == (has_digit(row_mask(words[p.0]), p.1 as u64) && !(p.0 == i && p.1 == value)))
        && has_digit(col_mask(next[p.0]), p.1 as u64) == has_digit(col_mask(words[p.0]), p.1 as u64)
        && has_digit(box_mask(next[p.0]), p.1 as u64) == has_digit(
        box_mask(words[p.0]),
        p.1 as u64,
    ) by {
        lemma_unmark_row(words[i], value, p.1 as u64, 0);
    }
    assert(row_marks(next) =~= row_marks(words).remove((i, value as nat)));
    assert(col_marks(next) =~= col_marks(words));
    assert(box_marks(next) =~= box_marks(words));
    assert forall|k: int| 0 <= k < 81 implies grid_of(next)[k] == grid_of(words)[k] by {
        lemma_unmark_row(words[i], value, 1, (k % 9) as u64);
    }
    assert(grid_of(next) =~= grid_of(words));
    assert(same_tops(next, words)) by {
        lemma_unmark_row(words[i], value, 1, 0);
    }
}

/// Clearing a bit of the column mask of word `i` removes one column mark
/// and changes nothing else.
proof fn lemma_step_unmark_col(words: Seq<u64>, i: int, value: u64)
    requires
        words.len() == 9,
        0 <= i < 9,
    ensures
        ({
            let next = words.update(i, words[i] & !(bit_of(value) << 45));
            &&& col_marks(next) == col_marks(words).remove((i, value as nat))
            &&& row_marks(next) == row_marks(words)
            &&& box_marks(next) == box_marks(words)
            &&& grid_of(next) == grid_of(words)
            &&& same_tops(next, words)
        }),
{
    let next = words.update(i, words[i] & !(bit_of(value) << 45));
    assert forall|p: (int, nat)| markable(p) implies (has_digit(col_mask(next[p.0]), p.1 as u64)
        == (has_digit(col_mask(words[p.0]), p.1 as u64) && !(p.0 == i && p.1 == value)))
        && has_digit(row_mask(next[p.0]), p.1 as u64) == has_digit(row_mask(words[p.0]), p.1 as u64)
        && has_digit(box_mask(next[p.0]), p.1 as u64) == has_digit(
        box_mask(words[p.0]),
        p.1 as u64,
    ) by {
        lemma_unmark_col(words[i], value, p.1 as u64, 0);
    }
    assert(col_marks(next) =~= col_marks(words).remove((i, value as nat)));
    assert(row_marks(next) =~= row_marks(words));
    assert(box_marks(next) =~= box_marks(words));
    assert forall|k: int| 0 <= k < 81 implies grid_of(next)[k] == grid_of(words)[k] by {
        lemma_unmark_col(words[i], value, 1, (k % 9) as u64);
    }
    assert(grid_of(next) =~= grid_of(words));
    assert(same_tops(next, words)) by {
        lemma_unmark_col(words[i], value, 1, 0);
    }
}

/// Clearing a bit of the box mask of word `i` removes one box mark and
/// changes nothing else.
proof fn lemma_step_unmark_box(words: Seq<u64>, i: int, value: u64)
    requires
        words.len() == 9,
        0 <= i < 9,
    ensures
        ({
            let next = words.update(i, words[i] & !(bit_of(value) << 36));
            &&& box_marks(next) == box_marks(words).remove((i, value as nat))
            &&& row_marks(next) == row_marks(words)
            &&& col_marks(next) == col_marks(words)
            &&& grid_of(next) == grid_of(words)
            &&& same_tops(next, words)
        }),
{
    let next = words.update(i, words[i] & !(bit_of(value) << 36));
    assert forall|p: (int, nat)| markable(p) implies (has_digit(box_mask(next[p.0]), p.1 as u64)
        == (has_digit(box_mask(words[p.0]), p.1 as u64) && !(p.0 == i && p.1 == value)))
        && has_digit(row_mask(next[p.0]), p.1 as u64) == has_digit(row_mask(words[p.0]), p.1 as u64)
        && has_digit(col_mask(next[p.0]), p.1 as u64) == has_digit(
        col_mask(words[p.0]),
        p.1 as u64,
    ) by {
        lemma_unmark_box(words[i], value, p.1 as u64, 0);
    }
    assert(box_marks(next) =~= box_marks(words).remove((i, value as nat)));
    assert(row_marks(next) =~= row_marks(words));
    assert(col_marks(next) =~= col_marks(words));
    assert forall|k: int| 0 <= k < 81 implies grid_of(next)[k] == grid_of(words)[k] by {
        lemma_unmark_box(words[i], value, 1, (k % 9) as u64);
    }
    assert(grid_of(next) =~= grid_of(words));
    assert(same_tops(next, words)) by {
        lemma_unmark_box(words[i], value, 1, 0);
    }
}

/// Marking a value touches the three masks it is meant for and leaves the
/// grid alone.
pub proof fn lemma_mark_words(words: Seq<u64>, row: int, col: int, bx: int, value: u64)
    requires
        words.len() == 9,
        0 <= row < 9,
        0 <= col < 9,
        0 <= bx < 9,
    ensures
        ({
            let next = mark_words(words, row, col, bx, value);
            &&& next.len() == 9
            &&& row_marks(next) == with_mark(row_marks(words), row, value as nat)
            &&& col_marks(next) == with_mark(col_marks(words), col, value as nat)
            &&& box_marks(next) == with_mark(box_marks(words), bx, value as nat)
            &&& grid_of(next) == grid_of(words)
            &&& same_tops(next, words)
        }),
{
    let w1 = words.update(row, words[row] | (bit_of(value) << 54));
    let w2 = w1.update(col, w1[col] | (bit_of(value) << 45));
    lemma_step_mark_row(words, row, value);
    lemma_step_mark_col(w1, col, value);
    lemma_step_mark_box(w2, bx, value);
}

/// Unmarking a value touches the three masks it is meant for and leaves the
/// grid alone.
pub proof fn lemma_unmark_words(words: Seq<u64>, row: int, col: int, bx: int, value: u64)
    requires
        words.len() == 9,
        0 <= row < 9,
        0 <= col < 9,
        0 <= bx < 9,
    ensures
        ({
            let next = unmark_words(words, row, col, bx, value);
            &&& next.len() == 9
            &&& row_marks(next) == row_marks(words).remove((row, value as nat))
            &&& col_marks(next) == col_marks(words).remove((col, value as nat))
            &&& box_marks(next) == box_marks(words).remove((bx, value as nat))
            &&& grid_of(next) == grid_of(words)
            &&& same_tops(next, words)
        }),
{
    let w1 = words.update(row, words[row] & !(bit_of(value) << 54));
    let w2 = w1.update(col, w1[col] & !(bit_of(value) << 45));
    lemma_step_unmark_row(words, row, value);
    lemma_step_unmark_col(w1, col, value);
    lemma_step_unmark_box(w2, bx, value);
}

/// Writing a digit field changes one square of the grid and no mask.
pub proof fn lemma_write_words(words: Seq<u64>, row: int, col: int, value: u64)
    requires
        words.len() == 9,
        on_grid(row, col),
        value <= 15,
    ensures
        ({
            let next = write_words(words, row, col, value);
            &&& next.len() == 9
            &&& row_marks(next) == row_marks(words)
            &&& col_marks(next) == col_marks(words)
            &&& box_marks(next) == box_marks(words)
            &&& grid_of(next) == with_value(grid_of(words), row, col, value as nat)
            &&& same_tops(next, words)
        }),
{
    let next = write_words(words, row, col, value);
    assert forall|p: (int, nat)| markable(p) implies has_digit(row_mask(next[p.0]), p.1 as u64)
        == has_digit(row_mask(words[p.0]), p.1 as u64) && has_digit(
        col_mask(next[p.0]),
        p.1 as u64,
    ) == has_digit(col_mask(words[p.0]), p.1 as u64) && has_digit(box_mask(next[p.0]), p.1 as u64)
        == has_digit(box_mask(words[p.0]), p.1 as u64) by {
        lemma_write_square(words[row], value, col as u64, 0);
    }
    assert(row_marks(next) =~= row_marks(words));
    assert(col_marks(next) =~= col_marks(words));
    assert(box_marks(next) =~= box_marks(words));
    let target = with_value(grid_of(words), row, col, value as nat);
    assert forall|k: int| 0 <= k < 81 implies grid_of(next)[k] == target[k] by {
        lemma_write_square(words[row], value, col as u64, (k % 9) as u64);
    }
    assert(grid_of(next) =~= target);
    assert(same_tops(next, words)) by {
        lemma_write_square(words[row], value, col as u64, 0);
    }
}

/// Every square that the words hold is at most 15, and the grid has 81
/// squares.
pub proof fn lemma_grid_bounds(words: Seq<u64>)
    ensures
        grid_of(words).len() == 81,
        forall|k: int| 0 <= k < 81 ==> #[trigger] grid_of(words)[k] <= 15,
        forall|r: int, c: int|
            on_grid(r, c) ==> #[trigger] at(grid_of(words), r, c) == cell_of(words, r, c),
{
    lemma_grid_cells(words);
    assert forall|k: int| 0 <= k < 81 implies #[trigger] grid_of(words)[k] <= 15 by {
        lemma_part_bounds(words[k / 9], (k % 9) as u64);
    }
}

/// Writing `value` over a square takes the square's old digit out of its
/// three units and puts the new one in, as long as the old digit stood
/// nowhere else in them: the grid has no conflict, or the square was blank.
pub proof fn lemma_units_after_write(grid: Seq<nat>, row: int, col: int, value: nat)
    requires
        grid.len() == 81,
        conflict_free(grid) || at(grid, row, col) == 0,
        on_grid(row, col),
    ensures
        ({
            let before = at(grid, row, col);
            let next = with_value(grid, row, col, value);
            &&& row_digits(next) == with_mark(row_digits(grid).remove((row, before)), row, value)
            &&& col_digits(next) == with_mark(col_digits(grid).remove((col, before)), col, value)
            &&& box_digits(next) == with_mark(
                box_digits(grid).remove((box_of(row, col), before)),
                box_of(row, col),
                value,
            )
        }),
{
    let before = at(grid, row, col);
    let next = with_value(grid, row, col, value);
    let bx = box_of(row, col);
    assert forall|r: int, c: int| on_grid(r, c) implies #[trigger] at(next, r, c) == (if r == row
        && c == col {
        value
    } else {
        at(grid, r, c)
    }) by {}
    assert(at(next, row, col) == value);
    assert forall|p: (int, nat)| markable(p) implies row_holds(next, p.0, p.1) == ((row_holds(
        grid,
        p.0,
        p.1,
    ) && p != (row, before)) || p == (row, value)) by {
        let (i, d) = p;
        if row_holds(next, i, d) && !(i == row && d == value) {
            let c = choose|c: int| 0 <= c < 9 && #[trigger] at(next, i, c) == d;
            assert(at(grid, i, c) == d);
            if i == row && d == before {
                assert(same_unit(i, c, row, col));
            }
        }
        if row_holds(grid, i, d) && !(i == row && d == before) {
            let c = choose|c: int| 0 <= c < 9 && #[trigger] at(grid, i, c) == d;
            assert(at(next, i, c) == d);
        }
    }
    assert(row_digits(next) =~= with_mark(row_digits(grid).remove((row, before)), row, value));
    assert forall|p: (int, nat)| markable(p) implies col_holds(next, p.0, p.1) == ((col_holds(
        grid,
        p.0,
        p.1,
    ) && p != (col, before)) || p == (col, value)) by {
        let (i, d) = p;
        if col_holds(next, i, d) && !(i == col && d == value) {
            let r = choose|r: int| 0 <= r < 9 && #[trigger] at(next, r, i) == d;
            assert(at(grid, r, i) == d);
            if i == col && d == before {
                assert(same_unit(r, i, row, col));
            }
        }
        if col_holds(grid, i, d) && !(i == col && d == before) {
            let r = choose|r: int| 0 <= r < 9 && #[trigger] at(grid, r, i) == d;
            assert(at(next, r, i) == d);
        }
    }
    assert(col_digits(next) =~= with_mark(col_digits(grid).remove((col, before)), col, value));
    assert forall|p: (int, nat)| markable(p) implies box_holds(next, p.0, p.1) == ((box_holds(
        grid,
        p.0,
        p.1,
    ) && p != (bx, before)) || p == (bx, value)) by {
        let (i, d) = p;
        if box_holds(next, i, d) && !(i == bx && d == value) {
            let (r, c) = choose|r: int, c: int|
                on_grid(r, c) && box_of(r, c) == i && #[trigger] at(next, r, c) == d;
            assert(at(grid, r, c) == d);
            if i == bx && d == before {
                assert(same_unit(r, c, row, col));
            }
        }
        if box_holds(grid, i, d) && !(i == bx && d == before) {
            let (r, c) = choose|r: int, c: int|
                on_grid(r, c) && box_of(r, c) == i && #[trigger] at(grid, r, c) == d;
            assert(at(next, r, c) == d);
        }
    }
    assert(box_digits(next) =~= with_mark(box_digits(grid).remove((bx, before)), bx, value));
}

/// Filling a square writes its value into the grid, whatever the masks
/// held before.
pub proof fn lemma_fill_grid(words: Seq<u64>, row: int, col: int, bx: int, value: u64)
    requires
        words.len() == 9,
        on_grid(row, col),
        0 <= bx < 9,
        value <= 15,
    ensures
        fill_words(words, row, col, bx, value).len() == 9,
        grid_of(fill_words(words, row, col, bx, value)) == with_value(
            grid_of(words),
            row,
            col,
            value as nat,
        ),
        same_tops(fill_words(words, row, col, bx, value), words),
{
    let before = digit_at(words[row], col as u64);
    let w1 = unmark_words(words, row, col, bx, before);
    let w2 = write_words(w1, row, col, value);
    lemma_unmark_words(words, row, col, bx, before);
    lemma_write_words(w1, row, col, value);
    lemma_mark_words(w2, row, col, bx, value);
}

/// Filling a square leaves sound words where they were sound and the
/// grid had no conflict or the square was blank.
pub proof fn lemma_fill_marks(words: Seq<u64>, row: int, col: int, value: u64)
    requires
        sound(words),
        conflict_free(grid_of(words)) || at(grid_of(words), row, col) == 0,
        on_grid(row, col),
        value <= 9,
    ensures
        sound(fill_words(words, row, col, box_of(row, col), value)),
{
    let bx = box_of(row, col);
    let before = digit_at(words[row], col as u64);
    let w1 = unmark_words(words, row, col, bx, before);
    let w2 = write_words(w1, row, col, value);
    lemma_unmark_words(words, row, col, bx, before);
    lemma_write_words(w1, row, col, value);
    lemma_mark_words(w2, row, col, bx, value);
    lemma_grid_bounds(words);
    lemma_units_after_write(grid_of(words), row, col, value as nat);
    lemma_fill_grid(words, row, col, bx, value);
}

/// Clearing a square blanks it in the grid, whatever the masks held before.
pub proof fn lemma_clear_grid(words: Seq<u64>, row: int, col: int, bx: int)
    requires
        words.len() == 9,
        on_grid(row, col),
        0 <= bx < 9,
    ensures
        clear_words(words, row, col, bx).len() == 9,
        grid_of(clear_words(words, row, col, bx)) == with_value(grid_of(words), row, col, 0),
        same_tops(clear_words(words, row, col, bx), words),
{
    let before = digit_at(words[row], col as u64);
    let w1 = unmark_words(words, row, col, bx, before);
    lemma_unmark_words(words, row, col, bx, before);
    lemma_write_words(w1, row, col, 0);
}

/// Clearing a square of a tidy board leaves a tidy board.
pub proof fn lemma_clear_tidy(words: Seq<u64>, row: int, col: int)
    requires
        tidy(words),
        on_grid(row, col),
    ensures
        tidy(clear_words(words, row, col, box_of(row, col))),
{
    let bx = box_of(row, col);
    let grid = grid_of(words);
    let before = digit_at(words[row], col as u64);
    let w1 = unmark_words(words, row, col, bx, before);
    lemma_unmark_words(words, row, col, bx, before);
    lemma_write_words(w1, row, col, 0);
    lemma_grid_bounds(words);
    lemma_units_after_write(grid, row, col, 0);
    lemma_clear_grid(words, row, col, bx);
    let next = with_value(grid, row, col, 0);
    assert forall|r: int, c: int| on_grid(r, c) implies #[trigger] at(next, r, c) == (if r == row
        && c == col {
        0
    } else {
        at(grid, r, c)
    }) by {}
    assert(conflict_free(next)) by {
        assert forall|r1: int, c1: int, r2: int, c2: int|
            on_grid(r1, c1) && on_grid(r2, c2) && (r1 != r2 || c1 != c2) && #[trigger] at(
                next,
                r1,
                c1,
            ) != 0 && at(next, r1, c1) == #[trigger] at(next, r2, c2) implies !same_unit(
            r1,
            c1,
            r2,
            c2,
        ) by {
            assert(at(grid, r1, c1) == at(next, r1, c1));
            assert(at(grid, r2, c2) == at(next, r2, c2));
        }
    }
}

/// On a board with exact masks, the used mask of a square marks exactly the
/// digits that stand in the square's units.
pub proof fn lemma_used_mask(words: Seq<u64>, row: int, col: int, value: nat)
    requires
        words.len() == 9,
        marks_exact(words),
        on_grid(row, col),
        1 <= value <= 9,
    ensures
        has_digit(used_mask(words, row, col, box_of(row, col)), value as u64) == unit_holds(
            grid_of(words),
            row,
            col,
            value,
        ),
{
    let bx = box_of(row, col);
    lemma_union_has(
        row_mask(words[row]),
        col_mask(words[col]),
        box_mask(words[bx]),
        value as u64,
    );
    lemma_unit_holds(grid_of(words), row, col, value);
    assert(row_marks(words).contains((row, value)) == row_digits(grid_of(words)).contains(
        (row, value),
    ));
    assert(col_marks(words).contains((col, value)) == col_digits(grid_of(words)).contains(
        (col, value),
    ));
    assert(box_marks(words).contains((bx, value)) == box_digits(grid_of(words)).contains(
        (bx, value),
    ));
}

/// The words of an empty board are tidy and hold the blank grid.
pub proof fn lemma_blank_words(words: Seq<u64>)
    requires
        words.len() == 9,
        forall|i: int| 0 <= i < 9 ==> words[i] == 0,
    ensures
        tidy(words),
        grid_of(words) == blank_grid(),
{
    assert forall|k: int| 0 <= k < 81 implies grid_of(words)[k] == 0 by {
        lemma_part_bounds(0, (k % 9) as u64);
    }
    assert(grid_of(words) =~= blank_grid());
    lemma_grid_bounds(words);
    let grid = grid_of(words);
    assert forall|p: (int, nat)| markable(p) implies !has_digit(row_mask(words[p.0]), p.1 as u64)
        && !has_digit(col_mask(words[p.0]), p.1 as u64) && !has_digit(
        box_mask(words[p.0]),
        p.1 as u64,
    ) && !row_holds(grid, p.0, p.1) && !col_holds(grid, p.0, p.1) && !box_holds(
        grid,
        p.0,
        p.1,
    ) by {
        lemma_part_bounds(0, 0);
        lemma_zero_mask(p.1 as u64);
    }
    assert(row_marks(words) =~= row_digits(grid));
    assert(col_marks(words) =~= col_digits(grid));
    assert(box_marks(words) =~= box_digits(grid));
    assert(tops_clear(words)) by {
        lemma_part_bounds(0, 0);
    }
}

/// The empty mask marks nothing.
pub proof fn lemma_zero_mask(value: u64)
    by (bit_vector)
    ensures
        !has_digit(0, value),
{
}

/// A mask is fixed by the digits it marks.
proof fn lemma_mask_by_digits(a: u64, b: u64)
    by (bit_vector)
    requires
        a < 512,
        b < 512,
        has_digit(a, 1) == has_digit(b, 1),
        has_digit(a, 2) == has_digit(b, 2),
        has_digit(a, 3) == has_digit(b, 3),
        has_digit(a, 4) == has_digit(b, 4),
        has_digit(a, 5) == has_digit(b, 5),
        has_digit(a, 6) == has_digit(b, 6),
        has_digit(a, 7) == has_digit(b, 7),
        has_digit(a, 8) == has_digit(b, 8),
        has_digit(a, 9) == has_digit(b, 9),
    ensures
        a == b,
{
}

/// A word is fixed by its parts.
proof fn lemma_word_by_parts(a: u64, b: u64)
    by (bit_vector)
    requires
        a >> 63 == b >> 63,
        row_mask(a) == row_mask(b),
        col_mask(a) == col_mask(b),
        box_mask(a) == box_mask(b),
        digit_at(a, 0) == digit_at(b, 0),
        digit_at(a, 1) == digit_at(b, 1),
        digit_at(a, 2) == digit_at(b, 2),
        digit_at(a, 3) == digit_at(b, 3),
        digit_at(a, 4) == digit_at(b, 4),
        digit_at(a, 5) == digit_at(b, 5),
        digit_at(a, 6) == digit_at(b, 6),
        digit_at(a, 7) == digit_at(b, 7),
        digit_at(a, 8) == digit_at(b, 8),
    ensures
        a == b,
{
}

/// Sound words are fixed by their grid: two boards that hold the same grid
/// hold the same nine words.
pub proof fn lemma_words_by_grid(a: Seq<u64>, b: Seq<u64>)
    requires
        sound(a),
        sound(b),
        grid_of(a) == grid_of(b),
    ensures
        a == b,
{
    lemma_grid_bounds(a);
    lemma_grid_bounds(b);
    assert forall|i: int| 0 <= i < 9 implies a[i] == b[i] by {
        lemma_part_bounds(a[i], 0);
        lemma_part_bounds(b[i], 0);
        lemma_row_mask_by_marks(a, b, i);
        lemma_col_mask_by_marks(a, b, i);
        lemma_box_mask_by_marks(a, b, i);
        assert(digit_at(a[i], 0) == digit_at(b[i], 0)) by {
            assert(at(grid_of(a), i, 0) == cell_of(a, i, 0));
            assert(at(grid_of(b), i, 0) == cell_of(b, i, 0));
        }
        assert(digit_at(a[i], 1) == digit_at(b[i], 1)) by {
            assert(at(grid_of(a), i, 1) == cell_of(a, i, 1));
            assert(at(grid_of(b), i, 1) == cell_of(b, i, 1));
        }
        assert(digit_at(a[i], 2) == digit_at(b[i], 2)) by {
            assert(at(grid_of(a), i, 2) == cell_of(a, i, 2));
            assert(at(grid_of(b), i, 2) == cell_of(b, i, 2));
        }
        assert(digit_at(a[i], 3) == digit_at(b[i], 3)) by {
            assert(at(grid_of(a), i, 3) == cell_of(a, i, 3));
            assert(at(grid_of(b), i, 3) == cell_of(b, i, 3));
        }
        assert(digit_at(a[i], 4) == digit_at(b[i], 4)) by {
            assert(at(grid_of(a), i, 4) == cell_of(a, i, 4));
            assert(at(grid_of(b), i, 4) == cell_of(b, i, 4));
        }
        assert(digit_at(a[i], 5) == digit_at(b[i], 5)) by {
            assert(at(grid_of(a), i, 5) == cell_of(a, i, 5));
            assert(at(grid_of(b), i, 5) == cell_of(b, i, 5));
        }
        assert(digit_at(a[i], 6) == digit_at(b[i], 6)) by {
            assert(at(grid_of(a), i, 6) == cell_of(a, i, 6));
            assert(at(grid_of(b), i, 6) == cell_of(b, i, 6));
        }
        assert(digit_at(a[i], 7) == digit_at(b[i], 7)) by {
            assert(at(grid_of(a), i, 7) == cell_of(a, i, 7));
            assert(at(grid_of(b), i, 7) == cell_of(b, i, 7));
        }
        assert(digit_at(a[i], 8) == digit_at(b[i], 8)) by {
            assert(at(grid_of(a), i, 8) == cell_of(a, i, 8));
            assert(at(grid_of(b), i, 8) == cell_of(b, i, 8));
        }
        lemma_word_by_parts(a[i], b[i]);
    }
    assert(a =~= b);
}

/// Equal row marks give equal row masks.
proof fn lemma_row_mask_by_marks(a: Seq<u64>, b: Seq<u64>, i: int)
    requires
        a.len() == 9,
        b.len() == 9,
        0 <= i < 9,
        row_marks(a) == row_marks(b),
    ensures
        row_mask(a[i]) == row_mask(b[i]),
{
    lemma_part_bounds(a[i], 0);
    lemma_part_bounds(b[i], 0);
    assert(row_marks(a).contains((i, 1nat)) == has_digit(row_mask(a[i]), 1));
    assert(row_marks(b).contains((i, 1nat)) == has_digit(row_mask(b[i]), 1));
    assert(row_marks(a).contains((i, 2nat)) == has_digit(row_mask(a[i]), 2));
    assert(row_marks(b).contains((i, 2nat)) == has_digit(row_mask(b[i]), 2));
    assert(row_marks(a).contains((i, 3nat)) == has_digit(row_mask(a[i]), 3));
    assert(row_marks(b).contains((i, 3nat)) == has_digit(row_mask(b[i]), 3));
    assert(row_marks(a).contains((i, 4nat)) == has_digit(row_mask(a[i]), 4));
    assert(row_marks(b).contains((i, 4nat)) == has_digit(row_mask(b[i]), 4));
    assert(row_marks(a).contains((i, 5nat)) == has_digit(row_mask(a[i]), 5));
    assert(row_marks(b).contains((i, 5nat)) == has_digit(row_mask(b[i]), 5));
    assert(row_marks(a).contains((i, 6nat)) == has_digit(row_mask(a[i]), 6));
    assert(row_marks(b).contains((i, 6nat)) == has_digit(row_mask(b[i]), 6));
    assert(row_marks(a).contains((i, 7nat)) == has_digit(row_mask(a[i]), 7));
    assert(row_marks(b).contains((i, 7nat)) == has_digit(row_mask(b[i]), 7));
    assert(row_marks(a).contains((i, 8nat)) == has_digit(row_mask(a[i]), 8));
    assert(row_marks(b).contains((i, 8nat)) == has_digit(row_mask(b[i]), 8));
    assert(row_marks(a).contains((i, 9nat)) == has_digit(row_mask(a[i]), 9));
    assert(row_marks(b).contains((i, 9nat)) == has_digit(row_mask(b[i]), 9));
    lemma_mask_by_digits(row_mask(a[i]), row_mask(b[i]));
}

/// Equal column marks give equal column masks.
proof fn lemma_col_mask_by_marks(a: Seq<u64>, b: Seq<u64>, i: int)
    requires
        a.len() == 9,
        b.len() == 9,
        0 <= i < 9,
        col_marks(a) == col_marks(b),
    ensures
        col_mask(a[i]) == col_mask(b[i]),
{
    lemma_part_bounds(a[i], 0);
    lemma_part_bounds(b[i], 0);
    assert(col_marks(a).contains((i, 1nat)) == has_digit(col_mask(a[i]), 1));
    assert(col_marks(b).contains((i, 1nat)) == has_digit(col_mask(b[i]), 1));
    assert(col_marks(a).contains((i, 2nat)) == has_digit(col_mask(a[i]), 2));
    assert(col_marks(b).contains((i, 2nat)) == has_digit(col_mask(b[i]), 2));
    assert(col_marks(a).contains((i, 3nat)) == has_digit(col_mask(a[i]), 3));
    assert(col_marks(b).contains((i, 3nat)) == has_digit(col_mask(b[i]), 3));
    assert(col_marks(a).contains((i, 4nat)) == has_digit(col_mask(a[i]), 4));
    assert(col_marks(b).contains((i, 4nat)) == has_digit(col_mask(b[i]), 4));
    assert(col_marks(a).contains((i, 5nat)) == has_digit(col_mask(a[i]), 5));
    assert(col_marks(b).contains((i, 5nat)) == has_digit(col_mask(b[i]), 5));
    assert(col_marks(a).contains((i, 6nat)) == has_digit(col_mask(a[i]), 6));
    assert(col_marks(b).contains((i, 6nat)) == has_digit(col_mask(b[i]), 6));
    assert(col_marks(a).contains((i, 7nat)) == has_digit(col_mask(a[i]), 7));
    assert(col_marks(b).contains((i, 7nat)) == has_digit(col_mask(b[i]), 7));
    assert(col_marks(a).contains((i, 8nat)) == has_digit(col_mask(a[i]), 8));
    assert(col_marks(b).contains((i, 8nat)) == has_digit(col_mask(b[i]), 8));
    assert(col_marks(a).contains((i, 9nat)) == has_digit(col_mask(a[i]), 9));
    assert(col_marks(b).contains((i, 9nat)) == has_digit(col_mask(b[i]), 9));
    lemma_mask_by_digits(col_mask(a[i]), col_mask(b[i]));
}

/// Equal box marks give equal box masks.
proof fn lemma_box_mask_by_marks(a: Seq<u64>, b: Seq<u64>, i: int)
    requires
        a.len() == 9,
        b.len() == 9,
        0 <= i < 9,
        box_marks(a) == box_marks(b),
    ensures
        box_mask(a[i]) == box_mask(b[i]),
{
    lemma_part_bounds(a[i], 0);
    lemma_part_bounds(b[i], 0);
    assert(box_marks(a).contains((i, 1nat)) == has_digit(box_mask(a[i]), 1));
    assert(box_marks(b).contains((i, 1nat)) == has_digit(box_mask(b[i]), 1));
    assert(box_marks(a).contains((i, 2nat)) == has_digit(box_mask(a[i]), 2));
    assert(box_marks(b).contains((i, 2nat)) == has_digit(box_mask(b[i]), 2));
    assert(box_marks(a).contains((i, 3nat)) == has_digit(box_mask(a[i]), 3));
    assert(box_marks(b).contains((i, 3nat)) == has_digit(box_mask(b[i]), 3));
    assert(box_marks(a).contains((i, 4nat)) == has_digit(box_mask(a[i]), 4));
    assert(box_marks(b).contains((i, 4nat)) == has_digit(box_mask(b[i]), 4));
    assert(box_marks(a).contains((i, 5nat)) == has_digit(box_mask(a[i]), 5));
    assert(box_marks(b).contains((i, 5nat)) == has_digit(box_mask(b[i]), 5));
    assert(box_marks(a).contains((i, 6nat)) == has_digit(box_mask(a[i]), 6));
    assert(box_marks(b).contains((i, 6nat)) == has_digit(box_mask(b[i]), 6));
    assert(box_marks(a).contains((i, 7nat)) == has_digit(box_mask(a[i]), 7));
    assert(box_marks(b).contains((i, 7nat)) == has_digit(box_mask(b[i]), 7));
    assert(box_marks(a).contains((i, 8nat)) == has_digit(box_mask(a[i]), 8));
    assert(box_marks(b).contains((i, 8nat)) == has_digit(box_mask(b[i]), 8));
    assert(box_marks(a).contains((i, 9nat)) == has_digit(box_mask(a[i]), 9));
    assert(box_marks(b).contains((i, 9nat)) == has_digit(box_mask(b[i]), 9));
    lemma_mask_by_digits(box_mask(a[i]), box_mask(b[i]));
}

/// Counts the digits that a mask marks.
///
/// Calls `u64::count_ones`, which returns the number of set bits. Below 512
/// only the nine mask bits can be set, one for each digit, so the number of
/// set bits is the number of marked digits.
#[verifier::external_body]
pub(crate) fn count_marked(mask: u64) -> (r: u32)
    requires
        mask < 512,
    ensures
        r == digit_count(mask),
{
    mask.count_ones()
}

/// How many of the digits below `bound` a mask marks.
pub open spec fn marked_below(mask: u64, bound: nat) -> nat
    decreases bound,
{
    if bound <= 1 {
        0
    } else {
        marked_below(mask, (bound - 1) as nat) + (if has_digit(mask, (bound - 1) as u64) {
            1nat
        } else {
            0
        })
    }
}

/// Below ten, all nine digits are counted.
proof fn lemma_marked_below(mask: u64)
    ensures
        marked_below(mask, 10) == digit_count(mask),
{
    reveal_with_fuel(marked_below, 11);
}

/// A list with one more item at its end holds what it held, and the item.
pub proof fn lemma_push_contains<T>(list: Seq<T>, item: T)
    ensures
        forall|other: T| #[trigger]
            list.push(item).contains(other) <==> (list.contains(other) || other == item),
{
    let more = list.push(item);
    assert forall|other: T| #[trigger]
        more.contains(other) <==> (list.contains(other) || other == item) by {
        if more.contains(other) {
            let i = choose|i: int| 0 <= i < more.len() && more[i] == other;
            if i < list.len() {
                assert(list[i] == other);
            }
        }
        if list.contains(other) {
            let i = choose|i: int| 0 <= i < list.len() && list[i] == other;
            assert(more[i] == other);
        }
        if other == item {
            assert(more[list.len() as int] == other);
        }
    }
}

/// The list holds, in ascending order, exactly the digits that `used` does
/// not mark.
pub open spec fn is_option_list(list: Seq<usize>, used: u64) -> bool {
    &&& forall|i: int| 0 <= i < list.len() ==> 1 <= #[trigger] list[i] <= 9
    &&& forall|i: int, j: int| 0 <= i < j < list.len() ==> list[i] < list[j]
    &&& forall|d: usize| 1 <= d <= 9 ==> (list.contains(d) <==> !has_digit(used, d as u64))
}

/// Returns the digits that a mask does not mark, in ascending order.
pub fn free_digits(used: u64) -> (r: Vec<usize>)
    ensures
        is_option_list(r@, used),
        r@.len() == 9 - digit_count(used),
{
    let mut list: Vec<usize> = Vec::new();
    let mut value: usize = 1;
    while value <= 9
        invariant
            1 <= value <= 10,
            forall|i: int| 0 <= i < list@.len() ==> 1 <= #[trigger] list@[i] < value,
            forall|i: int, j: int| 0 <= i < j < list@.len() ==> list@[i] < list@[j],
            forall|d: usize|
                1 <= d < value ==> (list@.contains(d) <==> !has_digit(used, d as u64)),
            list@.len() + marked_below(used, value as nat) == value - 1,
        decreases 10 - value,
    {
        if 0 == used & as_bit(value) {
            proof {
                lemma_push_contains(list@, value);
            }
            list.push(value);
        }
        value += 1;
    }
    proof {
        lemma_marked_below(used);
    }
    list
}

} // verus!
