//! What a search over one blank square adds up to: the solutions of a grid
//! are those of the grids that put a free digit into the square, and no
//! solution belongs to two of them.
use crate::sudoku::bitwise::has_digit;
use crate::sudoku::packed::is_option_list;
use crate::sudoku::rules::{
    at, conflict_free, extends, is_solution, lemma_full_row, lemma_place_conflict,
    lemma_solutions_finite, lemma_solved_grid, num_solutions, on_grid, same_unit, solutions,
    unit_holds, well_formed, with_value,
};
use crate::sudoku::text::{board_text, listing_text};
use vstd::prelude::*;
use vstd::set_lib::lemma_set_disjoint_lens;

verus! {

/// A count as the engines report it: exact while it fits a `usize`, and the
/// largest `usize` beyond that.
pub open spec fn saturated(n: nat) -> usize {
    if n <= usize::MAX {
        n as usize
    } else {
        usize::MAX
    }
}

/// The blank squares of a grid.
pub open spec fn blanks_of(grid: Seq<nat>) -> Set<(int, int)> {
    Set::new(|p: (int, int)| on_grid(p.0, p.1) && at(grid, p.0, p.1) == 0)
}

/// The solutions of `grid` whose digit at `(row, col)` is one of `tried`.
pub open spec fn branch_solutions(grid: Seq<nat>, row: int, col: int, tried: Set<nat>) -> Set<
    Seq<nat>,
> {
    Set::new(|full: Seq<nat>| solutions(grid).contains(full) && tried.contains(at(full, row, col)))
}

/// The first `upto` entries of a list of digits, as a set.
pub open spec fn tried_set(options: Seq<usize>, upto: int) -> Set<nat> {
    Set::new(|d: nat| exists|j: int| 0 <= j < upto && #[trigger] options[j] == d)
}

/// The entries of a list of digits at the first `upto` places of `order`, as
/// a set.
pub open spec fn tried_in_order(options: Seq<usize>, order: Seq<int>, upto: int) -> Set<nat> {
    Set::new(|d: nat| exists|j: int| 0 <= j < upto && options[#[trigger] order[j]] == d)
}

/// `order` names each place of a list of length `n` exactly once.
pub open spec fn is_order(order: Seq<int>, n: int) -> bool {
    &&& order.len() == n
    &&& forall|i: int| 0 <= i < n ==> 0 <= #[trigger] order[i] < n
    &&& forall|i: int, j: int| 0 <= i < j < n ==> order[i] != order[j]
    &&& forall|k: int| 0 <= k < n ==> #[trigger] order_reaches(order, k)
}

/// Some place of `order` names `k`.
pub open spec fn order_reaches(order: Seq<int>, k: int) -> bool {
    exists|i: int| 0 <= i < order.len() && #[trigger] order[i] == k
}

/// Rewriting a square changes the grid there and nowhere else, and the last
/// write wins.
pub proof fn lemma_with_value(grid: Seq<nat>, row: int, col: int, first: nat, second: nat)
    requires
        grid.len() == 81,
        on_grid(row, col),
    ensures
        with_value(with_value(grid, row, col, first), row, col, second) == with_value(
            grid,
            row,
            col,
            second,
        ),
        with_value(grid, row, col, at(grid, row, col)) == grid,
        at(with_value(grid, row, col, first), row, col) == first,
        first != 0 ==> blanks_of(with_value(grid, row, col, first)) == blanks_of(grid).remove(
            (row, col),
        ),
        first == 0 ==> blanks_of(with_value(grid, row, col, first)) == blanks_of(grid).insert(
            (row, col),
        ),
{
    assert(with_value(with_value(grid, row, col, first), row, col, second) =~= with_value(
        grid,
        row,
        col,
        second,
    ));
    assert(with_value(grid, row, col, at(grid, row, col)) =~= grid);
    let next = with_value(grid, row, col, first);
    assert forall|p: (int, int)| on_grid(p.0, p.1) implies #[trigger] at(next, p.0, p.1) == (if p
        == (row, col) {
        first
    } else {
        at(grid, p.0, p.1)
    }) by {}
    if first != 0 {
        assert(blanks_of(next) =~= blanks_of(grid).remove((row, col)));
    } else {
        assert(blanks_of(next) =~= blanks_of(grid).insert((row, col)));
    }
}

/// A grid without blanks and without conflicts has itself as its one
/// solution.
pub proof fn lemma_no_blanks(grid: Seq<nat>)
    requires
        well_formed(grid),
        conflict_free(grid),
        blanks_of(grid) == Set::<(int, int)>::empty(),
    ensures
        is_solution(grid),
        solutions(grid) == set![grid],
        solutions(grid).finite(),
        num_solutions(grid) == 1,
{
    assert forall|k: int| 0 <= k < 81 implies #[trigger] grid[k] != 0 by {
        assert(!blanks_of(grid).contains((k / 9, k % 9)));
        assert(at(grid, k / 9, k % 9) == grid[k]);
    }
    lemma_solved_grid(grid);
}

/// With nothing tried, nothing is found.
pub proof fn lemma_branch_none(grid: Seq<nat>, row: int, col: int)
    ensures
        branch_solutions(grid, row, col, Set::empty()) == Set::<Seq<nat>>::empty(),
        branch_solutions(grid, row, col, Set::empty()).finite(),
        branch_solutions(grid, row, col, Set::empty()).len() == 0,
{
    assert(branch_solutions(grid, row, col, Set::empty()) =~= Set::<Seq<nat>>::empty());
}

/// The solutions of a grid with a digit written into a blank square are the
/// solutions of the grid that hold that digit there.
pub proof fn lemma_branch_one(grid: Seq<nat>, row: int, col: int, value: nat)
    requires
        grid.len() == 81,
        on_grid(row, col),
        at(grid, row, col) == 0,
        value != 0,
    ensures
        solutions(with_value(grid, row, col, value)) == branch_solutions(
            grid,
            row,
            col,
            set![value],
        ),
{
    let placed = with_value(grid, row, col, value);
    assert forall|full: Seq<nat>| is_solution(full) implies (extends(full, placed) <==> (extends(
        full,
        grid,
    ) && at(full, row, col) == value)) by {
        if extends(full, placed) {
            assert(placed[9 * row + col] != 0);
            assert forall|k: int| 0 <= k < 81 && #[trigger] grid[k] != 0 implies full[k]
                == grid[k] by {
                assert(placed[k] == grid[k]);
            }
        }
        if extends(full, grid) && at(full, row, col) == value {
            assert forall|k: int| 0 <= k < 81 && #[trigger] placed[k] != 0 implies full[k]
                == placed[k] by {
                if k != 9 * row + col {
                    assert(placed[k] == grid[k]);
                }
            }
        }
    }
    assert(solutions(placed) =~= branch_solutions(grid, row, col, set![value]));
}

/// Trying one more digit adds the solutions of the grid with that digit
/// written, and none of them was there before.
pub proof fn lemma_branch_step(grid: Seq<nat>, row: int, col: int, tried: Set<nat>, value: nat)
    requires
        grid.len() == 81,
        on_grid(row, col),
        at(grid, row, col) == 0,
        value != 0,
        !tried.contains(value),
    ensures
        branch_solutions(grid, row, col, tried.insert(value)) == branch_solutions(
            grid,
            row,
            col,
            tried,
        ) + solutions(with_value(grid, row, col, value)),
        branch_solutions(grid, row, col, tried).disjoint(
            solutions(with_value(grid, row, col, value)),
        ),
        solutions(with_value(grid, row, col, value)).subset_of(solutions(grid)),
        branch_solutions(grid, row, col, tried.insert(value)).len() == branch_solutions(
            grid,
            row,
            col,
            tried,
        ).len() + num_solutions(with_value(grid, row, col, value)),
{
    lemma_branch_one(grid, row, col, value);
    let before = branch_solutions(grid, row, col, tried);
    let added = solutions(with_value(grid, row, col, value));
    assert(branch_solutions(grid, row, col, tried.insert(value)) =~= before + added);
    assert(before.disjoint(added));
    lemma_branch_finite(grid, row, col, tried);
    lemma_solutions_finite(with_value(grid, row, col, value));
    lemma_set_disjoint_lens(before, added);
}

/// What was found so far is finite.
pub proof fn lemma_branch_finite(grid: Seq<nat>, row: int, col: int, tried: Set<nat>)
    ensures
        branch_solutions(grid, row, col, tried).finite(),
{
    lemma_solutions_finite(grid);
    assert(branch_solutions(grid, row, col, tried).subset_of(solutions(grid)));
    vstd::set_lib::lemma_set_subset_finite(
        solutions(grid),
        branch_solutions(grid, row, col, tried),
    );
}

/// Once every digit that is free for a blank square was tried, every
/// solution of the grid was found.
pub proof fn lemma_branch_all(grid: Seq<nat>, row: int, col: int, tried: Set<nat>)
    requires
        grid.len() == 81,
        on_grid(row, col),
        at(grid, row, col) == 0,
        forall|d: nat| 1 <= d <= 9 && !unit_holds(grid, row, col, d) ==> tried.contains(d),
    ensures
        branch_solutions(grid, row, col, tried) == solutions(grid),
{
    assert forall|full: Seq<nat>| solutions(grid).contains(full) implies tried.contains(
        at(full, row, col),
    ) by {
        let d = at(full, row, col);
        assert(full[9 * row + col] != 0);
        assert(full[9 * row + col] <= 9);
        if unit_holds(grid, row, col, d) {
            let (r, c) = choose|r: int, c: int|
                on_grid(r, c) && same_unit(row, col, r, c) && #[trigger] at(grid, r, c) == d;
            assert(grid[9 * r + c] != 0);
            assert(at(full, r, c) == d);
            assert(at(full, row, col) == d);
            assert(false);
        }
    }
    assert(branch_solutions(grid, row, col, tried) =~= solutions(grid));
}

/// Adding two saturated counts with saturation gives the saturated sum.
pub proof fn lemma_saturated_sum(a: nat, b: nat)
    ensures
        (if saturated(a) + saturated(b) > usize::MAX {
            usize::MAX
        } else {
            (saturated(a) + saturated(b)) as usize
        }) == saturated(a + b),
{
}

/// A point at which a search branches: a blank square of a grid without
/// conflicts, the mask of the digits that stand in its units, and the list
/// of the digits that are free for it.
pub open spec fn branch_point(
    grid: Seq<nat>,
    row: int,
    col: int,
    used: u64,
    options: Seq<usize>,
) -> bool {
    &&& grid.len() == 81
    &&& conflict_free(grid)
    &&& on_grid(row, col)
    &&& at(grid, row, col) == 0
    &&& is_option_list(options, used)
    &&& forall|d: nat|
        1 <= d <= 9 ==> has_digit(used, d as u64) == #[trigger] unit_holds(grid, row, col, d)
}

/// Before the first digit is tried, nothing is found.
pub proof fn lemma_options_start(grid: Seq<nat>, row: int, col: int, options: Seq<usize>)
    requires
        grid.len() == 81,
        on_grid(row, col),
        at(grid, row, col) == 0,
    ensures
        branch_solutions(grid, row, col, tried_set(options, 0)) == Set::<Seq<nat>>::empty(),
        branch_solutions(grid, row, col, tried_set(options, 0)).len() == 0,
        forall|order: Seq<int>|
            tried_in_order(options, order, 0) == tried_set(options, 0),
        with_value(grid, row, col, 0) == grid,
{
    assert(tried_set(options, 0) =~= Set::<nat>::empty());
    assert forall|order: Seq<int>| tried_in_order(options, order, 0) == tried_set(options, 0) by {
        assert(tried_in_order(options, order, 0) =~= tried_set(options, 0));
    }
    lemma_branch_none(grid, row, col);
    lemma_with_value(grid, row, col, 0, 0);
}

/// What trying the digit at place `k` of the options comes to, whatever
/// digits `tried` were tried before it, as long as it was not among them:
/// the grid with the digit written has no conflict, its blanks are those of
/// the grid but for the square, and its solutions are new ones of the grid.
pub proof fn lemma_option_step(
    grid: Seq<nat>,
    row: int,
    col: int,
    used: u64,
    options: Seq<usize>,
    k: int,
    tried: Set<nat>,
    last: nat,
)
    requires
        branch_point(grid, row, col, used, options),
        0 <= k < options.len(),
        !tried.contains(options[k] as nat),
    ensures
        ({
            let value = options[k] as nat;
            let next = with_value(grid, row, col, value);
            &&& 1 <= value <= 9
            &&& next.len() == 81
            &&& with_value(with_value(grid, row, col, last), row, col, value) == next
            &&& conflict_free(next)
            &&& blanks_of(next) == blanks_of(grid).remove((row, col))
            &&& branch_solutions(grid, row, col, tried.insert(value)) == branch_solutions(
                grid,
                row,
                col,
                tried,
            ) + solutions(next)
            &&& branch_solutions(grid, row, col, tried).disjoint(solutions(next))
            &&& solutions(next).subset_of(solutions(grid))
            &&& branch_solutions(grid, row, col, tried.insert(value)).len() == branch_solutions(
                grid,
                row,
                col,
                tried,
            ).len() + num_solutions(next)
        }),
{
    let value = options[k] as nat;
    assert(options.contains(options[k]));
    lemma_with_value(grid, row, col, last, value);
    lemma_with_value(grid, row, col, value, 0);
    lemma_place_conflict(grid, row, col, value);
    lemma_branch_step(grid, row, col, tried, value);
}

/// The digit at place `k` of the options was not among the first `k`, and
/// with it the first `k + 1` were tried.
pub proof fn lemma_tried_next(options: Seq<usize>, used: u64, k: int)
    requires
        is_option_list(options, used),
        0 <= k < options.len(),
    ensures
        !tried_set(options, k).contains(options[k] as nat),
        tried_set(options, k + 1) == tried_set(options, k).insert(options[k] as nat),
{
    assert(tried_set(options, k + 1) =~= tried_set(options, k).insert(options[k] as nat));
}

/// The digit at place `order[i]` of the options was not among those at the
/// first `i` places of the order, and with it the first `i + 1` were tried.
pub proof fn lemma_tried_next_in_order(options: Seq<usize>, used: u64, order: Seq<int>, i: int)
    requires
        is_option_list(options, used),
        is_order(order, options.len() as int),
        0 <= i < options.len(),
    ensures
        0 <= order[i] < options.len(),
        !tried_in_order(options, order, i).contains(options[order[i]] as nat),
        tried_in_order(options, order, i + 1) == tried_in_order(options, order, i).insert(
            options[order[i]] as nat,
        ),
{
    let value = options[order[i]] as nat;
    if tried_in_order(options, order, i).contains(value) {
        let j = choose|j: int| 0 <= j < i && options[#[trigger] order[j]] == value;
        assert(order[j] != order[i]);
        if order[j] < order[i] {
            assert(options[order[j]] < options[order[i]]);
        } else {
            assert(options[order[i]] < options[order[j]]);
        }
    }
    assert(tried_in_order(options, order, i + 1) =~= tried_in_order(options, order, i).insert(
        value,
    ));
}

/// Once every option was tried, every solution was found, and blanking the
/// square gives the grid back.
pub proof fn lemma_options_done(
    grid: Seq<nat>,
    row: int,
    col: int,
    used: u64,
    options: Seq<usize>,
    last: nat,
)
    requires
        branch_point(grid, row, col, used, options),
    ensures
        branch_solutions(grid, row, col, tried_set(options, options.len() as int)) == solutions(
            grid,
        ),
        forall|order: Seq<int>|
            is_order(order, options.len() as int) ==> #[trigger] tried_in_order(
                options,
                order,
                options.len() as int,
            ) == tried_set(options, options.len() as int),
        with_value(with_value(grid, row, col, last), row, col, 0) == grid,
{
    let all = tried_set(options, options.len() as int);
    assert forall|d: nat| 1 <= d <= 9 && !unit_holds(grid, row, col, d) implies all.contains(
        d,
    ) by {
        assert(options.contains(d as usize));
        let j = choose|j: int| 0 <= j < options.len() && options[j] == d as usize;
        assert(options[j] == d);
    }
    lemma_branch_all(grid, row, col, all);
    lemma_with_value(grid, row, col, last, 0);
    lemma_with_value(grid, row, col, 0, 0);
    assert forall|order: Seq<int>| is_order(order, options.len() as int) implies #[trigger] tried_in_order(
        options,
        order,
        options.len() as int,
    ) == all by {
        let mine = tried_in_order(options, order, options.len() as int);
        assert forall|d: nat| all.contains(d) implies mine.contains(d) by {
            let j = choose|j: int| 0 <= j < options.len() && #[trigger] options[j] == d;
            assert(order_reaches(order, j));
            let i = choose|i: int| 0 <= i < order.len() && #[trigger] order[i] == j;
            assert(options[order[i]] == d);
        }
        assert forall|d: nat| mine.contains(d) implies all.contains(d) by {
            let i = choose|i: int| 0 <= i < options.len() && options[#[trigger] order[i]] == d;
            assert(options[order[i]] == d);
        }
        assert(mine =~= all);
    }
}

/// The last blank of a grid has at most one option: the other eight
/// digits stand in its row.
pub proof fn lemma_last_blank(
    grid: Seq<nat>,
    row: int,
    col: int,
    used: u64,
    options: Seq<usize>,
)
    requires
        well_formed(grid),
        branch_point(grid, row, col, used, options),
        blanks_of(grid) == set![(row, col)],
    ensures
        options.len() <= 1,
{
    if options.len() >= 2 {
        let first = options[0] as nat;
        let second = options[1] as nat;
        assert(options.contains(options[0]));
        assert(options.contains(options[1]));
        let full = with_value(grid, row, col, first);
        lemma_place_conflict(grid, row, col, first);
        assert forall|r: int, c: int| on_grid(r, c) implies #[trigger] at(full, r, c) == (if r
            == row && c == col {
            first
        } else {
            at(grid, r, c)
        }) by {}
        assert forall|c: int| 0 <= c < 9 implies #[trigger] at(full, row, c) != 0 by {
            if c != col {
                assert(!blanks_of(grid).contains((row, c)));
            }
        }
        assert(well_formed(full));
        lemma_full_row(full, row, second);
        let c = choose|c: int| 0 <= c < 9 && #[trigger] at(full, row, c) == second;
        assert(on_grid(row, c) && same_unit(row, col, row, c) && at(grid, row, c) == second);
        assert(unit_holds(grid, row, col, second));
    }
}

/// `list` names each member of `set` exactly once.
pub open spec fn is_listing(list: Seq<Seq<nat>>, set: Set<Seq<nat>>) -> bool {
    &&& list.no_duplicates()
    &&& forall|full: Seq<nat>| #[trigger] list.contains(full) <==> set.contains(full)
}

/// A set that can be listed is finite and has as many members as the list.
pub proof fn lemma_listing_len(list: Seq<Seq<nat>>, set: Set<Seq<nat>>)
    requires
        is_listing(list, set),
    ensures
        set.finite(),
        set.len() == list.len(),
{
    broadcast use vstd::seq_lib::group_seq_properties;

    assert(list.to_set() =~= set);
    list.unique_seq_to_set();
}

/// The empty list lists the empty set, and its text is empty.
pub proof fn lemma_listing_none(compact: bool)
    ensures
        is_listing(Seq::empty(), Set::empty()),
        listing_text(Seq::empty(), compact) == Seq::<char>::empty(),
{
}

/// A single grid lists itself, and its text is that of the grid.
pub proof fn lemma_listing_one(grid: Seq<nat>, compact: bool)
    ensures
        is_listing(seq![grid], set![grid]),
        listing_text(seq![grid], compact) == board_text(grid, compact),
{
    reveal_with_fuel(listing_text, 2);
    assert(seq![grid].drop_last() =~= Seq::<Seq<nat>>::empty());
    assert(seq![grid].last() == grid);
    assert(listing_text(seq![grid], compact) =~= board_text(grid, compact));
    assert forall|full: Seq<nat>| #[trigger] seq![grid].contains(full) <==> set![grid].contains(
        full,
    ) by {
        if full == grid {
            assert(seq![grid][0] == full);
        }
    }
}

/// The text of two lists, one after the other, is the text of the first
/// followed by that of the second.
pub proof fn lemma_listing_text_append(a: Seq<Seq<nat>>, b: Seq<Seq<nat>>, compact: bool)
    ensures
        listing_text(a + b, compact) == listing_text(a, compact) + listing_text(b, compact),
    decreases b.len(),
{
    if b.len() == 0 {
        assert(a + b =~= a);
        assert(listing_text(a, compact) + listing_text(b, compact) =~= listing_text(a, compact));
    } else {
        lemma_listing_text_append(a, b.drop_last(), compact);
        assert((a + b).drop_last() =~= a + b.drop_last());
        assert((a + b).last() == b.last());
        assert(listing_text(a + b, compact) =~= listing_text(a, compact) + listing_text(
            b,
            compact,
        ));
    }
}

/// Two lists of sets that share no member list, one after the other, the
/// union of the sets.
pub proof fn lemma_listing_append(
    a: Seq<Seq<nat>>,
    set_a: Set<Seq<nat>>,
    b: Seq<Seq<nat>>,
    set_b: Set<Seq<nat>>,
)
    requires
        is_listing(a, set_a),
        is_listing(b, set_b),
        set_a.disjoint(set_b),
    ensures
        is_listing(a + b, set_a + set_b),
{
    assert forall|i: int, j: int| 0 <= i < a.len() && 0 <= j < b.len() implies a[i] != b[j] by {
        assert(a.contains(a[i]));
        assert(b.contains(b[j]));
    }
    vstd::seq_lib::lemma_no_dup_in_concat(a, b);
    assert forall|full: Seq<nat>| #[trigger] (a + b).contains(full) <==> (set_a + set_b).contains(
        full,
    ) by {
        if (a + b).contains(full) {
            let i = choose|i: int| 0 <= i < (a + b).len() && (a + b)[i] == full;
            if i < a.len() {
                assert(a[i] == full);
                assert(a.contains(full));
            } else {
                assert(b[i - a.len()] == full);
                assert(b.contains(full));
            }
        }
        if set_a.contains(full) {
            assert(a.contains(full));
            let i = choose|i: int| 0 <= i < a.len() && a[i] == full;
            assert((a + b)[i] == full);
        }
        if set_b.contains(full) {
            assert(b.contains(full));
            let j = choose|j: int| 0 <= j < b.len() && b[j] == full;
            assert((a + b)[a.len() + j] == full);
        }
    }
}

/// What a search may be asked for.
#[derive(Clone, Copy, Debug, PartialEq, Eq, Structural)]
pub enum Search {
    /// The number of solutions.
    Count,
    /// Every solution, drawn.
    FindAll,
    /// Every solution, in the compact form.
    FindAllCompact,
    /// One solution, drawn.
    FindOne,
    /// One solution, in the compact form.
    FindOneCompact,
}

/// `count` and `text` answer the question for all solutions of `grid`:
/// the text holds every solution exactly once, in some order, and the count
/// is their number.
pub open spec fn all_found(count: usize, text: Seq<char>, grid: Seq<nat>, compact: bool) -> bool {
    exists|found: Seq<Seq<nat>>|
        is_listing(found, solutions(grid)) && text == #[trigger] listing_text(found, compact)
            && count == saturated(found.len())
}

/// `count` and `text` answer the question for one solution of `grid`: where
/// there is none, zero and the empty text; else one, and the text of a
/// solution.
pub open spec fn one_found(count: usize, text: Seq<char>, grid: Seq<nat>, compact: bool) -> bool {
    if solutions(grid) == Set::<Seq<nat>>::empty() {
        count == 0 && text == Seq::<char>::empty()
    } else {
        count == 1 && exists|full: Seq<nat>|
            solutions(grid).contains(full) && text == #[trigger] board_text(full, compact)
    }
}

/// `count` and `text` are what `search` asks for on `grid`.
pub open spec fn is_answer(search: Search, count: usize, text: Seq<char>, grid: Seq<nat>) -> bool {
    match search {
        Search::Count => count == saturated(num_solutions(grid)) && text == Seq::<char>::empty(),
        Search::FindAll => all_found(count, text, grid, false),
        Search::FindAllCompact => all_found(count, text, grid, true),
        Search::FindOne => one_found(count, text, grid, false),
        Search::FindOneCompact => one_found(count, text, grid, true),
    }
}

} // verus!
