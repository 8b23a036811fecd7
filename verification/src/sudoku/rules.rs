//! The rules of the game, stated over a plain grid: 81 numbers in row-major
//! order, zero for a blank square and `1..=9` for a filled one.
//!
//! Nothing here knows how a board is stored. The contracts of the board and
//! of the search engines are written against these definitions.
use vstd::prelude::*;
use vstd::relations::injective_on;
use vstd::set_lib::{lemma_int_range, lemma_map_size, lemma_subset_equality, set_int_range};

verus! {

/// The value of the square at `(row, col)`.
pub open spec fn at(grid: Seq<nat>, row: int, col: int) -> nat {
    grid[9 * row + col]
}

/// The box that the square at `(row, col)` lies in, counted row-major.
pub open spec fn box_of(row: int, col: int) -> int {
    (row / 3) * 3 + col / 3
}

/// Whether `(row, col)` names a square of the grid.
pub open spec fn on_grid(row: int, col: int) -> bool {
    0 <= row < 9 && 0 <= col < 9
}

/// Whether two squares share a row, a column or a box.
pub open spec fn same_unit(r1: int, c1: int, r2: int, c2: int) -> bool {
    r1 == r2 || c1 == c2 || box_of(r1, c1) == box_of(r2, c2)
}

/// A grid has 81 squares, each blank or holding a digit.
pub open spec fn well_formed(grid: Seq<nat>) -> bool {
    &&& grid.len() == 81
    &&& forall|k: int| 0 <= k < 81 ==> #[trigger] grid[k] <= 9
}

/// No digit stands twice in a row, a column or a box.
pub open spec fn conflict_free(grid: Seq<nat>) -> bool {
    forall|r1: int, c1: int, r2: int, c2: int|
        on_grid(r1, c1) && on_grid(r2, c2) && (r1 != r2 || c1 != c2) && #[trigger] at(grid, r1, c1)
            != 0 && at(grid, r1, c1) == #[trigger] at(grid, r2, c2) ==> !same_unit(r1, c1, r2, c2)
}

/// No square is blank.
pub open spec fn complete(grid: Seq<nat>) -> bool {
    forall|k: int| 0 <= k < 81 ==> #[trigger] grid[k] != 0
}

/// A solved grid: every square filled, no digit twice in any unit.
pub open spec fn is_solution(grid: Seq<nat>) -> bool {
    well_formed(grid) && complete(grid) && conflict_free(grid)
}

/// `full` keeps every digit that `grid` gives.
pub open spec fn extends(full: Seq<nat>, grid: Seq<nat>) -> bool {
    forall|k: int| 0 <= k < 81 && #[trigger] grid[k] != 0 ==> full[k] == grid[k]
}

/// The solved grids that keep the givens of `grid`.
pub open spec fn solutions(grid: Seq<nat>) -> Set<Seq<nat>> {
    Set::new(|full: Seq<nat>| is_solution(full) && extends(full, grid))
}

/// How many ways there are to complete `grid`.
pub open spec fn num_solutions(grid: Seq<nat>) -> nat {
    solutions(grid).len()
}

/// Whether `value` stands somewhere in the row, the column or the box of
/// `(row, col)`, that square included.
pub open spec fn unit_holds(grid: Seq<nat>, row: int, col: int, value: nat) -> bool {
    exists|r: int, c: int|
        on_grid(r, c) && same_unit(row, col, r, c) && #[trigger] at(grid, r, c) == value
}

/// Whether `value` stands somewhere in row `row`.
pub open spec fn row_holds(grid: Seq<nat>, row: int, value: nat) -> bool {
    exists|c: int| 0 <= c < 9 && #[trigger] at(grid, row, c) == value
}

/// Whether `value` stands somewhere in column `col`.
pub open spec fn col_holds(grid: Seq<nat>, col: int, value: nat) -> bool {
    exists|r: int| 0 <= r < 9 && #[trigger] at(grid, r, col) == value
}

/// Whether `value` stands somewhere in box `bx`.
pub open spec fn box_holds(grid: Seq<nat>, bx: int, value: nat) -> bool {
    exists|r: int, c: int| on_grid(r, c) && box_of(r, c) == bx && #[trigger] at(grid, r, c) == value
}

/// The grid with `value` written at `(row, col)`.
pub open spec fn with_value(grid: Seq<nat>, row: int, col: int, value: nat) -> Seq<nat> {
    grid.update(9 * row + col, value)
}

/// The empty grid.
pub open spec fn blank_grid() -> Seq<nat> {
    Seq::new(81, |k: int| 0nat)
}

/// A value stands in the units of a square exactly when it stands in its
/// row, its column or its box.
pub proof fn lemma_unit_holds(grid: Seq<nat>, row: int, col: int, value: nat)
    requires
        on_grid(row, col),
    ensures
        unit_holds(grid, row, col, value) == (row_holds(grid, row, value) || col_holds(
            grid,
            col,
            value,
        ) || box_holds(grid, box_of(row, col), value)),
{
    if unit_holds(grid, row, col, value) {
        let (r, c) = choose|r: int, c: int|
            on_grid(r, c) && same_unit(row, col, r, c) && #[trigger] at(grid, r, c) == value;
        if r == row {
            assert(at(grid, row, c) == value);
        } else if c == col {
            assert(at(grid, r, col) == value);
        } else {
            assert(box_of(r, c) == box_of(row, col));
        }
    }
    if row_holds(grid, row, value) {
        let c = choose|c: int| 0 <= c < 9 && #[trigger] at(grid, row, c) == value;
        assert(on_grid(row, c) && same_unit(row, col, row, c) && at(grid, row, c) == value);
    }
    if col_holds(grid, col, value) {
        let r = choose|r: int| 0 <= r < 9 && #[trigger] at(grid, r, col) == value;
        assert(on_grid(r, col) && same_unit(row, col, r, col) && at(grid, r, col) == value);
    }
    if box_holds(grid, box_of(row, col), value) {
        let (r, c) = choose|r: int, c: int|
            on_grid(r, c) && box_of(r, c) == box_of(row, col) && #[trigger] at(grid, r, c) == value;
        assert(on_grid(r, c) && same_unit(row, col, r, c) && at(grid, r, c) == value);
    }
}

/// Writing a digit into a blank square keeps the grid free of conflicts
/// exactly when it was free of them and the digit was not yet in the
/// square's units.
pub proof fn lemma_place_conflict(grid: Seq<nat>, row: int, col: int, value: nat)
    requires
        grid.len() == 81,
        on_grid(row, col),
        at(grid, row, col) == 0,
        value != 0,
    ensures
        conflict_free(with_value(grid, row, col, value)) == (conflict_free(grid) && !unit_holds(
            grid,
            row,
            col,
            value,
        )),
{
    let placed = with_value(grid, row, col, value);
    assert forall|r: int, c: int| on_grid(r, c) implies #[trigger] at(placed, r, c) == (if r == row
        && c == col {
        value
    } else {
        at(grid, r, c)
    }) by {}
    if conflict_free(placed) {
        assert forall|r1: int, c1: int, r2: int, c2: int|
            on_grid(r1, c1) && on_grid(r2, c2) && (r1 != r2 || c1 != c2) && #[trigger] at(
                grid,
                r1,
                c1,
            ) != 0 && at(grid, r1, c1) == #[trigger] at(grid, r2, c2) implies !same_unit(
            r1,
            c1,
            r2,
            c2,
        ) by {
            assert(at(placed, r1, c1) == at(grid, r1, c1));
            assert(at(placed, r2, c2) == at(grid, r2, c2));
        }
        if unit_holds(grid, row, col, value) {
            let (r, c) = choose|r: int, c: int|
                on_grid(r, c) && same_unit(row, col, r, c) && #[trigger] at(grid, r, c) == value;
            assert(at(placed, r, c) == value);
            assert(at(placed, row, col) == value);
            assert(false);
        }
    }
    if conflict_free(grid) && !unit_holds(grid, row, col, value) {
        assert forall|r1: int, c1: int, r2: int, c2: int|
            on_grid(r1, c1) && on_grid(r2, c2) && (r1 != r2 || c1 != c2) && #[trigger] at(
                placed,
                r1,
                c1,
            ) != 0 && at(placed, r1, c1) == #[trigger] at(placed, r2, c2) implies !same_unit(
            r1,
            c1,
            r2,
            c2,
        ) by {
            if r1 == row && c1 == col {
                if same_unit(r1, c1, r2, c2) {
                    assert(on_grid(r2, c2) && same_unit(row, col, r2, c2) && at(grid, r2, c2)
                        == value);
                }
            } else if r2 == row && c2 == col {
                if same_unit(r1, c1, r2, c2) {
                    assert(on_grid(r1, c1) && same_unit(row, col, r1, c1) && at(grid, r1, c1)
                        == value);
                }
            } else {
                assert(at(grid, r1, c1) == at(placed, r1, c1));
                assert(at(grid, r2, c2) == at(placed, r2, c2));
            }
        }
    }
}

/// A grid with a conflict has no solution.
pub proof fn lemma_conflict_no_solution(grid: Seq<nat>)
    requires
        !conflict_free(grid),
    ensures
        solutions(grid) == Set::<Seq<nat>>::empty(),
        num_solutions(grid) == 0,
{
    assert forall|full: Seq<nat>| !(is_solution(full) && extends(full, grid)) by {
        if is_solution(full) && extends(full, grid) {
            let (r1, c1, r2, c2) = choose|r1: int, c1: int, r2: int, c2: int|
                on_grid(r1, c1) && on_grid(r2, c2) && (r1 != r2 || c1 != c2) && #[trigger] at(
                    grid,
                    r1,
                    c1,
                ) != 0 && at(grid, r1, c1) == #[trigger] at(grid, r2, c2) && same_unit(
                    r1,
                    c1,
                    r2,
                    c2,
                );
            assert(grid[9 * r1 + c1] != 0);
            assert(grid[9 * r2 + c2] != 0);
            assert(at(full, r1, c1) == at(grid, r1, c1));
            assert(at(full, r2, c2) == at(grid, r2, c2));
            assert(false);
        }
    }
    assert(solutions(grid) =~= Set::<Seq<nat>>::empty());
}

/// A solved grid is its own only solution.
pub proof fn lemma_solved_grid(grid: Seq<nat>)
    requires
        is_solution(grid),
    ensures
        solutions(grid) == set![grid],
        num_solutions(grid) == 1,
{
    assert forall|full: Seq<nat>| is_solution(full) && extends(full, grid) implies full
        == grid by {
        assert forall|k: int| 0 <= k < 81 implies full[k] == grid[k] by {
            assert(grid[k] != 0);
        }
        assert(full =~= grid);
    }
    assert(solutions(grid) =~= set![grid]);
}

/// Writing a digit over any square keeps a grid free of conflicts when the
/// digit was nowhere in the square's units.
pub proof fn lemma_overwrite_conflict(grid: Seq<nat>, row: int, col: int, value: nat)
    requires
        grid.len() == 81,
        on_grid(row, col),
        conflict_free(grid),
        !unit_holds(grid, row, col, value),
    ensures
        conflict_free(with_value(grid, row, col, value)),
{
    let placed = with_value(grid, row, col, value);
    assert forall|r: int, c: int| on_grid(r, c) implies #[trigger] at(placed, r, c) == (if r == row
        && c == col {
        value
    } else {
        at(grid, r, c)
    }) by {}
    assert forall|r1: int, c1: int, r2: int, c2: int|
        on_grid(r1, c1) && on_grid(r2, c2) && (r1 != r2 || c1 != c2) && #[trigger] at(
            placed,
            r1,
            c1,
        ) != 0 && at(placed, r1, c1) == #[trigger] at(placed, r2, c2) implies !same_unit(
        r1,
        c1,
        r2,
        c2,
    ) by {
        if r1 == row && c1 == col {
            if same_unit(r1, c1, r2, c2) {
                assert(on_grid(r2, c2) && same_unit(row, col, r2, c2) && at(grid, r2, c2) == value);
            }
        } else if r2 == row && c2 == col {
            if same_unit(r1, c1, r2, c2) {
                assert(on_grid(r1, c1) && same_unit(row, col, r1, c1) && at(grid, r1, c1) == value);
            }
        } else {
            assert(at(grid, r1, c1) == at(placed, r1, c1));
            assert(at(grid, r2, c2) == at(placed, r2, c2));
        }
    }
}

/// The lists of `n` digits.
pub open spec fn digit_lists(n: nat) -> Set<Seq<nat>> {
    Set::new(|list: Seq<nat>| list.len() == n && forall|i: int| 0 <= i < n ==> 1 <= #[trigger] list[i] <= 9)
}

/// The lists of `prev` with `digit` added at the end.
pub open spec fn with_digit(prev: Set<Seq<nat>>, digit: nat) -> Set<Seq<nat>> {
    prev.map(|list: Seq<nat>| list.push(digit))
}

/// There are finitely many lists of `n` digits.
pub proof fn lemma_digit_lists_finite(n: nat)
    ensures
        digit_lists(n).finite(),
    decreases n,
{
    if n == 0 {
        assert(digit_lists(0) =~= set![Seq::<nat>::empty()]) by {
            assert forall|list: Seq<nat>| digit_lists(0).contains(list) implies list
                == Seq::<nat>::empty() by {
                assert(list =~= Seq::<nat>::empty());
            }
        }
    } else {
        let prev = digit_lists((n - 1) as nat);
        lemma_digit_lists_finite((n - 1) as nat);
        lemma_with_digit_finite(prev, 1);
        lemma_with_digit_finite(prev, 2);
        lemma_with_digit_finite(prev, 3);
        lemma_with_digit_finite(prev, 4);
        lemma_with_digit_finite(prev, 5);
        lemma_with_digit_finite(prev, 6);
        lemma_with_digit_finite(prev, 7);
        lemma_with_digit_finite(prev, 8);
        lemma_with_digit_finite(prev, 9);
        let all = with_digit(prev, 1) + with_digit(prev, 2) + with_digit(prev, 3) + with_digit(
            prev,
            4,
        ) + with_digit(prev, 5) + with_digit(prev, 6) + with_digit(prev, 7) + with_digit(prev, 8)
            + with_digit(prev, 9);
        assert forall|list: Seq<nat>| digit_lists(n).contains(list) implies all.contains(list) by {
            let head = list.drop_last();
            assert(prev.contains(head)) by {
                assert forall|i: int| 0 <= i < n - 1 implies 1 <= #[trigger] head[i] <= 9 by {
                    assert(head[i] == list[i]);
                }
            }
            assert(list =~= head.push(list.last()));
            assert(with_digit(prev, list.last()).contains(list));
            assert(1 <= list[n - 1] <= 9);
        }
        assert(digit_lists(n).subset_of(all));
        vstd::set_lib::lemma_set_subset_finite(all, digit_lists(n));
    }
}

/// Adding a digit to each of finitely many lists gives finitely many.
proof fn lemma_with_digit_finite(prev: Set<Seq<nat>>, digit: nat)
    requires
        prev.finite(),
    ensures
        with_digit(prev, digit).finite(),
{
    prev.lemma_map_finite(|list: Seq<nat>| list.push(digit));
}

/// A grid has finitely many solutions.
pub proof fn lemma_solutions_finite(grid: Seq<nat>)
    ensures
        solutions(grid).finite(),
{
    lemma_digit_lists_finite(81);
    assert forall|full: Seq<nat>| solutions(grid).contains(full) implies digit_lists(81).contains(
        full,
    ) by {
        assert forall|i: int| 0 <= i < 81 implies 1 <= #[trigger] full[i] <= 9 by {
            assert(full[i] != 0);
        }
    }
    assert(solutions(grid).subset_of(digit_lists(81)));
    vstd::set_lib::lemma_set_subset_finite(digit_lists(81), solutions(grid));
}

/// A row that is full and has no conflict holds every digit.
pub proof fn lemma_full_row(grid: Seq<nat>, row: int, digit: nat)
    requires
        well_formed(grid),
        conflict_free(grid),
        0 <= row < 9,
        forall|c: int| 0 <= c < 9 ==> #[trigger] at(grid, row, c) != 0,
        1 <= digit <= 9,
    ensures
        row_holds(grid, row, digit),
{
    let cols = set_int_range(0, 9);
    let digits = set_int_range(1, 10);
    let value = |c: int| at(grid, row, c) as int;
    let image = cols.map(value);
    lemma_int_range(0, 9);
    lemma_int_range(1, 10);
    assert(injective_on(value, cols)) by {
        assert forall|c1: int, c2: int|
            cols.contains(c1) && cols.contains(c2) && #[trigger] value(c1) == #[trigger] value(
                c2,
            ) implies c1 == c2 by {
            if c1 != c2 {
                assert(at(grid, row, c1) != 0);
                assert(at(grid, row, c1) == at(grid, row, c2));
                assert(same_unit(row, c1, row, c2));
            }
        }
    }
    lemma_map_size(cols, image, value);
    assert forall|d: int| image.contains(d) implies digits.contains(d) by {
        let c = choose|c: int| cols.contains(c) && d == value(c);
        assert(at(grid, row, c) != 0);
        assert(grid[9 * row + c] <= 9);
    }
    assert(image.subset_of(digits));
    lemma_subset_equality(image, digits);
    assert(digits.contains(digit as int));
    let c = choose|c: int| cols.contains(c) && digit as int == value(c);
    assert(at(grid, row, c) == digit);
}

} // verus!
