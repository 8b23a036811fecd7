//! A search that can be watched: it goes one step at a time, and after each
//! step tells its caller whether to draw the board or only to pause.
//!
//! The steps are those of the sequential search. Entering a board is a
//! step; a board without blanks is a solution and is drawn; a board with
//! blanks is drawn, its next square is taken, and each option of the square
//! is filled in and entered in turn; leaving a board, once its options are
//! used up, is a step again, drawn after the square was cleared. A search
//! for one solution that has found it enters the boards that are left
//! without drawing or searching them.
use crate::sudoku::board::{
    lemma_pool_in_range, lemma_pool_none, lemma_pool_put, pool_lists, SudokuBoard, SudokuSquare,
};
use crate::sudoku::packed::{grid_of, lemma_grid_bounds, lemma_words_by_grid, tidy, used_mask};
use crate::sudoku::rules::{
    lemma_solutions_finite, num_solutions, on_grid, solutions, well_formed, with_value,
};
use crate::sudoku::search::{
    blanks_of, branch_point, branch_solutions, lemma_last_blank, lemma_option_step,
    lemma_options_done, lemma_options_start, lemma_tried_next, lemma_with_value, saturated,
    tried_set,
};
use crate::sudoku::solve::{lemma_branch_point, lemma_full_board, lemma_square_taken};
use vstd::prelude::*;

verus! {

/// A branch point that the search has not left yet: the square, its
/// options, and how many of them were filled in so far.
struct Level {
    square: SudokuSquare,
    options: Vec<usize>,
    next: usize,
    used: Ghost<u64>,
}

/// What the caller does after a step, each time after waiting for one
/// frame: draw the board, only pause, or stop.
#[derive(Clone, Copy, Debug, PartialEq, Eq, Structural)]
pub enum WatchStep {
    /// Wait for one frame, then draw the board and the count.
    Draw,
    /// Wait for one frame.
    Pause,
    /// The watch has finished: stop.
    Done,
}

/// Where the search stands between two steps.
#[derive(Clone, Copy, Debug, PartialEq, Eq, Structural)]
enum Phase {
    /// The board on hand is entered next.
    Enter,
    /// The deepest open square gets its next option, or is left.
    Advance,
    /// The first board was left.
    Finished,
}

impl Level {
    /// The row of the square.
    spec fn row(&self) -> int {
        self.square.0 as int
    }

    /// The column of the square.
    spec fn col(&self) -> int {
        self.square.1 as int
    }

    /// The value that stands in the square: the option filled in last, or
    /// a blank before the first.
    spec fn current(&self) -> nat {
        if self.next == 0 {
            0
        } else {
            self.options@[self.next - 1] as nat
        }
    }
}

/// The grid under the open levels: the first grid with the current value
/// of each level written into its square.
spec fn node_grid(root: Seq<nat>, levels: Seq<Level>) -> Seq<nat>
    decreases levels.len(),
{
    if levels.len() == 0 {
        root
    } else {
        with_value(
            node_grid(root, levels.drop_last()),
            levels.last().row(),
            levels.last().col(),
            levels.last().current(),
        )
    }
}

/// Each level is a branch point of the grid under the levels above it, and
/// each but perhaps the deepest has an option filled in.
spec fn chain_ok(root: Seq<nat>, levels: Seq<Level>, fresh: bool) -> bool
    decreases levels.len(),
{
    if levels.len() == 0 {
        true
    } else {
        let level = levels.last();
        &&& chain_ok(root, levels.drop_last(), false)
        &&& level.square.valid()
        &&& branch_point(
            node_grid(root, levels.drop_last()),
            level.row(),
            level.col(),
            level.used@,
            level.options@,
        )
        &&& level.next <= level.options@.len() <= 9
        &&& (fresh || level.next >= 1)
    }
}

/// How many solutions lie in the branches that were searched to the end:
/// at each level those of the options before the current one, and at the
/// deepest level that of the current one too if `top_done`.
spec fn explored(root: Seq<nat>, levels: Seq<Level>, top_done: bool) -> nat
    decreases levels.len(),
{
    if levels.len() == 0 {
        0
    } else {
        let level = levels.last();
        explored(root, levels.drop_last(), false) + branch_solutions(
            node_grid(root, levels.drop_last()),
            level.row(),
            level.col(),
            tried_set(
                level.options@,
                if top_done {
                    level.next as int
                } else {
                    level.next - 1
                },
            ),
        ).len()
    }
}

/// A bound on the steps that a board with so many blanks takes.
spec fn weight(blanks: nat) -> nat
    decreases blanks,
{
    if blanks == 0 {
        1
    } else {
        2 + 9 * weight((blanks - 1) as nat)
    }
}

/// A bound on the steps that the open levels still take, where the boards
/// under the deepest level have `blanks` blanks.
spec fn pending(levels: Seq<Level>, blanks: nat) -> nat
    decreases levels.len(),
{
    if levels.len() == 0 {
        0
    } else {
        pending(levels.drop_last(), blanks + 1) + (levels.last().options@.len()
            - levels.last().next) as nat * weight(blanks) + 1
    }
}

/// `after` is `before` with at most one square written anew.
pub open spec fn one_write_apart(before: Seq<nat>, after: Seq<nat>) -> bool {
    after == before || exists|row: int, col: int, value: nat|
        on_grid(row, col) && value <= 9 && after == #[trigger] with_value(before, row, col, value)
}

/// What a finished watch has counted: all solutions, or, where it looked
/// for one, one if there is any.
pub open spec fn is_watch_answer(find_one: bool, count: usize, root: Seq<nat>) -> bool {
    if find_one {
        count == (if num_solutions(root) > 0 {
            1usize
        } else {
            0usize
        })
    } else {
        count == saturated(num_solutions(root))
    }
}

/// A search that goes step by step.
pub struct SudokuWatch {
    board: SudokuBoard,
    levels: Vec<Level>,
    count: usize,
    find_one: bool,
    phase: Phase,
    start: Ghost<Seq<u64>>,
}

/// The grid under a chain of levels is a grid, and its solutions are
/// solutions of the first grid.
proof fn lemma_chain_grid(root: Seq<nat>, levels: Seq<Level>, fresh: bool)
    requires
        well_formed(root),
        chain_ok(root, levels, fresh),
    ensures
        well_formed(node_grid(root, levels)),
        chain_ok(root, levels, true),
        !fresh ==> solutions(node_grid(root, levels)).subset_of(solutions(root)),
    decreases levels.len(),
{
    if levels.len() > 0 {
        let level = levels.last();
        let above = node_grid(root, levels.drop_last());
        lemma_chain_grid(root, levels.drop_last(), false);
        if level.next > 0 {
            assert(level.options@.contains(level.options@[level.next - 1]));
        }
        if !fresh {
            lemma_option_step(
                above,
                level.row(),
                level.col(),
                level.used@,
                level.options@,
                level.next - 1,
                Set::empty(),
                0,
            );
        }
    }
}

/// Every board takes at least one step.
proof fn lemma_weight_positive(blanks: nat)
    ensures
        weight(blanks) >= 1,
    decreases blanks,
{
    if blanks > 0 {
        lemma_weight_positive((blanks - 1) as nat);
    }
}

/// Products with a common factor.
proof fn lemma_times(a: nat, b: nat, w: nat)
    by (nonlinear_arith)
    requires
        a <= b,
    ensures
        a * w <= b * w,
        (b + 1) * w == b * w + w,
        0 * w == 0,
{
}

impl SudokuWatch {
    /// The grid that the watch started from.
    pub closed spec fn root(&self) -> Seq<nat> {
        grid_of(self.start@)
    }

    /// The words that the watch started from.
    pub closed spec fn start_words(&self) -> Seq<u64> {
        self.start@
    }

    /// The board as it stands.
    pub closed spec fn board_now(&self) -> SudokuBoard {
        self.board
    }

    /// The number of solutions met so far.
    pub closed spec fn found(&self) -> usize {
        self.count
    }

    /// Whether the watch looks for one solution only.
    pub closed spec fn one_only(&self) -> bool {
        self.find_one
    }

    /// Whether the first board was left.
    pub closed spec fn finished(&self) -> bool {
        self.phase == Phase::Finished
    }

    /// A bound on the steps that are left.
    pub closed spec fn remaining(&self) -> nat {
        match self.phase {
            Phase::Finished => 0,
            Phase::Enter => weight(self.board.pool().len()) + pending(
                self.levels@,
                self.board.pool().len(),
            ),
            Phase::Advance => pending(self.levels@, self.board.pool().len()),
        }
    }

    /// The count fits what was explored; once a search for one solution
    /// has found it, only that there is one.
    spec fn counted(&self, explored: nat) -> bool {
        if self.find_one && self.count > 0 {
            num_solutions(self.root()) > 0
        } else {
            self.count == saturated(explored)
        }
    }

    /// The levels, the board and the count fit together.
    pub closed spec fn wf(&self) -> bool {
        let root = self.root();
        let levels = self.levels@;
        &&& tidy(self.start@)
        &&& tidy(self.board.words())
        &&& self.find_one ==> self.count <= 1
        &&& match self.phase {
            Phase::Finished => {
                &&& levels.len() == 0
                &&& self.board.words() == self.start@
                &&& pool_lists(self.board.pool(), blanks_of(root))
                &&& is_watch_answer(self.find_one, self.count, root)
            },
            Phase::Enter => {
                &&& chain_ok(root, levels, false)
                &&& self.board@ == node_grid(root, levels)
                &&& pool_lists(self.board.pool(), blanks_of(self.board@))
                &&& self.counted(explored(root, levels, false))
                &&& levels.len() == 0 ==> self.count == 0
                &&& self.find_one && self.board.pool().len() == 0 ==> self.count == 0
            },
            Phase::Advance => {
                &&& levels.len() >= 1
                &&& chain_ok(root, levels, true)
                &&& self.board@ == node_grid(root, levels)
                &&& pool_lists(
                    self.board.pool(),
                    blanks_of(node_grid(root, levels.drop_last())).remove(
                        (levels.last().row(), levels.last().col()),
                    ),
                )
                &&& self.counted(explored(root, levels, true))
                &&& self.find_one && levels.last().next == 0 ==> self.count == 0
            },
        }
    }

    /// Starts a watch on a board, for one solution or for all. A board that
    /// met a conflict when it was filled has no solution and is not
    /// watched.
    pub fn start(board: SudokuBoard, find_one: bool) -> (r: Option<Self>)
        requires
            board.wf(),
        ensures
            r is Some == board.solvable(),
            r is Some ==> {
                &&& r->0.wf()
                &&& !r->0.finished()
                &&& r->0.root() == board@
                &&& r->0.start_words() == board.words()
                &&& r->0.board_now().words() == board.words()
                &&& r->0.found() == 0
                &&& r->0.one_only() == find_one
            },
    {
        if !board.is_solvable() {
            return None;
        }
        let mut board = board;
        let ghost words = board.words();
        board.analyze_fillable_squares();
        let watch = SudokuWatch {
            board,
            levels: Vec::new(),
            count: 0,
            find_one,
            phase: Phase::Enter,
            start: Ghost(words),
        };
        Some(watch)
    }

    /// The board as it stands, to be drawn.
    pub fn board(&self) -> (r: &SudokuBoard)
        ensures
            *r == self.board_now(),
    {
        &self.board
    }

    /// The number of solutions met so far. Once the watch has finished it
    /// is the answer, and the board holds its first words again.
    pub fn count(&self) -> (r: usize)
        requires
            self.wf(),
        ensures
            r == self.found(),
            self.finished() ==> is_watch_answer(self.one_only(), r, self.root())
                && self.board_now().words() == self.start_words(),
    {
        self.count
    }

    /// Whether the watch has finished.
    pub fn is_finished(&self) -> (r: bool)
        ensures
            r == self.finished(),
    {
        self.phase == Phase::Finished
    }

    /// Enters the board on hand.
    fn enter(&mut self) -> (r: WatchStep)
        requires
            old(self).wf(),
            old(self).phase == Phase::Enter,
        ensures
            final(self).wf(),
            final(self).start@ == old(self).start@,
            final(self).find_one == old(self).find_one,
            final(self).remaining() < old(self).remaining(),
            r != WatchStep::Done,
            old(self).count <= final(self).count <= old(self).count + 1,
            final(self).count != old(self).count ==> r == WatchStep::Draw && solutions(
                old(self).root(),
            ).contains(final(self).board@),
            r == WatchStep::Pause ==> old(self).find_one && old(self).count > 0,
            final(self).board.words() == old(self).board.words(),
    {
        let ghost root = self.root();
        let ghost levels = self.levels@;
        proof {
            lemma_grid_bounds(self.start@);
            lemma_chain_grid(root, levels, false);
            lemma_weight_positive(self.board.pool().len());
        }
        if self.board.fillable_count() == 0 {
            proof {
                lemma_full_board(self.board);
                lemma_solutions_finite(root);
                if levels.len() > 0 {
                    let level = levels.last();
                    let above = node_grid(root, levels.drop_last());
                    lemma_tried_next(level.options@, level.used@, level.next - 1);
                    lemma_option_step(
                        above,
                        level.row(),
                        level.col(),
                        level.used@,
                        level.options@,
                        level.next - 1,
                        tried_set(level.options@, level.next - 1),
                        0,
                    );
                    lemma_with_value(above, level.row(), level.col(), level.current(), 0);
                } else {
                    lemma_words_by_grid(self.board.words(), self.start@);
                }
                assert(solutions(root).contains(self.board@));
                if solutions(root).len() == 0 {
                    solutions(root).lemma_len0_is_empty();
                }
            }
            self.count = self.count.saturating_add(1);
            if self.levels.len() == 0 {
                self.phase = Phase::Finished;
            } else {
                self.phase = Phase::Advance;
            }
            return WatchStep::Draw;
        }
        if self.find_one && self.count != 0 {
            proof {
                let level = levels.last();
                let above = node_grid(root, levels.drop_last());
                lemma_with_value(above, level.row(), level.col(), level.current(), 0);
            }
            self.phase = Phase::Advance;
            return WatchStep::Pause;
        }
        proof {
            lemma_pool_in_range(self.board.pool(), blanks_of(self.board@));
        }
        let ghost before = self.board;
        let square = self.board.next_fillable_square();
        let options = self.board.options_iter(&square);
        let ghost used = used_mask(
            self.board.words(),
            square.0 as int,
            square.1 as int,
            square.2 as int,
        );
        proof {
            lemma_square_taken(before, self.board, square);
            lemma_branch_point(self.board, square, options@);
            lemma_options_start(before@, square.0 as int, square.1 as int, options@);
            lemma_times(options@.len(), 9, weight((self.board.pool().len()) as nat));
        }
        let level = Level { square, options, next: 0, used: Ghost(used) };
        self.levels.push(level);
        self.phase = Phase::Advance;
        proof {
            assert(self.levels@.drop_last() =~= levels);
        }
        WatchStep::Draw
    }

    /// Fills the next option into the deepest open square.
    fn descend(&mut self)
        requires
            old(self).wf(),
            old(self).phase == Phase::Advance,
            old(self).levels@.last().next < old(self).levels@.last().options@.len(),
        ensures
            final(self).wf(),
            final(self).phase == Phase::Enter,
            final(self).start@ == old(self).start@,
            final(self).find_one == old(self).find_one,
            final(self).count == old(self).count,
            final(self).remaining() == old(self).remaining(),
            one_write_apart(old(self).board@, final(self).board@),
    {
        let ghost root = self.root();
        let ghost levels = self.levels@;
        let ghost above = node_grid(root, levels.drop_last());
        proof {
            lemma_grid_bounds(self.start@);
            lemma_chain_grid(root, levels.drop_last(), false);
        }
        let top = self.levels.pop();
        let mut level = top.unwrap();
        let value = level.options[level.next];
        proof {
            lemma_tried_next(level.options@, level.used@, level.next as int);
            lemma_option_step(
                above,
                level.row(),
                level.col(),
                level.used@,
                level.options@,
                level.next as int,
                tried_set(level.options@, level.next as int),
                level.current(),
            );
            lemma_times(
                (level.options@.len() - level.next - 1) as nat,
                (level.options@.len() - level.next - 1) as nat,
                weight(self.board.pool().len()),
            );
            if self.board.pool().len() == 0 {
                lemma_pool_none(
                    self.board.pool(),
                    blanks_of(above).remove((level.row(), level.col())),
                );
                assert(blanks_of(above) =~= set![(level.row(), level.col())]);
                lemma_last_blank(above, level.row(), level.col(), level.used@, level.options@);
            }
        }
        self.board.fill(&level.square, value);
        proof {
            assert(self.board@ == with_value(
                old(self).board@,
                level.square.0 as int,
                level.square.1 as int,
                value as nat,
            ));
        }
        level.next = level.next + 1;
        self.levels.push(level);
        self.phase = Phase::Enter;
        proof {
            assert(self.levels@.drop_last() =~= levels.drop_last());
        }
    }

    /// Leaves the deepest open square: clears it and puts it back.
    fn ascend(&mut self) -> (r: WatchStep)
        requires
            old(self).wf(),
            old(self).phase == Phase::Advance,
            old(self).levels@.last().next == old(self).levels@.last().options@.len(),
        ensures
            final(self).wf(),
            final(self).start@ == old(self).start@,
            final(self).find_one == old(self).find_one,
            final(self).count == old(self).count,
            final(self).remaining() < old(self).remaining(),
            r == WatchStep::Draw,
            one_write_apart(old(self).board@, final(self).board@),
    {
        let ghost root = self.root();
        let ghost levels = self.levels@;
        let ghost above = node_grid(root, levels.drop_last());
        proof {
            reveal_with_fuel(chain_ok, 3);
            reveal_with_fuel(explored, 3);
            reveal_with_fuel(node_grid, 3);
            reveal_with_fuel(pending, 3);
            lemma_grid_bounds(self.start@);
            lemma_chain_grid(root, levels.drop_last(), false);
            lemma_solutions_finite(root);
        }
        let top = self.levels.pop();
        let level = top.unwrap();
        proof {
            lemma_options_done(
                above,
                level.row(),
                level.col(),
                level.used@,
                level.options@,
                level.current(),
            );
            lemma_pool_put(
                self.board.pool(),
                blanks_of(above).remove((level.row(), level.col())),
                level.square,
            );
            assert(blanks_of(above).remove((level.row(), level.col())).insert(
                (level.row(), level.col()),
            ) =~= blanks_of(above));
            lemma_times(0, 0, weight(self.board.pool().len()));
            let rest = levels.drop_last();
            if rest.len() > 0 {
                let outer = rest.last();
                let higher = node_grid(root, rest.drop_last());
                lemma_chain_grid(root, rest.drop_last(), false);
                lemma_tried_next(outer.options@, outer.used@, outer.next - 1);
                lemma_option_step(
                    higher,
                    outer.row(),
                    outer.col(),
                    outer.used@,
                    outer.options@,
                    outer.next - 1,
                    tried_set(outer.options@, outer.next - 1),
                    0,
                );
                lemma_with_value(higher, outer.row(), outer.col(), outer.current(), 0);
            }
        }
        self.board.clear(&level.square);
        proof {
            assert(self.board@ == with_value(
                old(self).board@,
                level.square.0 as int,
                level.square.1 as int,
                0,
            ));
        }
        self.board.put_back(level.square);
        if self.levels.len() == 0 {
            proof {
                lemma_words_by_grid(self.board.words(), self.start@);
                if solutions(root).len() == 0 {
                    solutions(root).lemma_len0_is_empty();
                }
            }
            self.phase = Phase::Finished;
        }
        WatchStep::Draw
    }

    /// Takes one step and tells what to do after waiting for one frame:
    /// to draw the board, only to pause, or to stop.
    ///
    /// Every step but the last brings the end nearer, and writes at most
    /// one square of the board. A step that raises
    /// the count asks for a drawing, and the board to draw is a solution of
    /// the first board. A step asks only for a pause where one solution is
    /// looked for and was found. When the watch has finished, its count is
    /// the answer and the board holds the words it started with.
    pub fn step(&mut self) -> (r: WatchStep)
        requires
            old(self).wf(),
        ensures
            final(self).wf(),
            final(self).root() == old(self).root(),
            final(self).start_words() == old(self).start_words(),
            final(self).one_only() == old(self).one_only(),
            (r == WatchStep::Done) == old(self).finished(),
            old(self).finished() ==> final(self).finished() && final(self).found() == old(
                self,
            ).found(),
            !old(self).finished() ==> final(self).remaining() < old(self).remaining(),
            old(self).found() <= final(self).found() <= old(self).found() + 1,
            final(self).found() != old(self).found() ==> r == WatchStep::Draw && solutions(
                final(self).root(),
            ).contains(final(self).board_now()@),
            r == WatchStep::Pause ==> old(self).one_only() && old(self).found() > 0,
            one_write_apart(old(self).board_now()@, final(self).board_now()@),
            final(self).finished() ==> is_watch_answer(
                final(self).one_only(),
                final(self).found(),
                final(self).root(),
            ) && final(self).board_now().words() == final(self).start_words(),
    {
        match self.phase {
            Phase::Finished => WatchStep::Done,
            Phase::Enter => self.enter(),
            Phase::Advance => {
                let depth = self.levels.len();
                let go_down = self.levels[depth - 1].next < self.levels[depth - 1].options.len();
                if go_down {
                    self.descend();
                    self.enter()
                } else {
                    self.ascend()
                }
            },
        }
    }
}

impl SudokuBoard {
    /// Starts a watch on the search for all solutions of the board. A
    /// board that met a conflict when it was filled is not watched.
    pub fn watch_find_all(self) -> (r: Option<SudokuWatch>)
        requires
            self.wf(),
        ensures
            r is Some == self.solvable(),
            r is Some ==> {
                &&& r->0.wf()
                &&& !r->0.finished()
                &&& r->0.root() == self@
                &&& r->0.start_words() == self.words()
                &&& r->0.found() == 0
                &&& !r->0.one_only()
            },
    {
        SudokuWatch::start(self, false)
    }

    /// Starts a watch on the search for one solution of the board. A board
    /// that met a conflict when it was filled is not watched.
    pub fn watch_find_one(self) -> (r: Option<SudokuWatch>)
        requires
            self.wf(),
        ensures
            r is Some == self.solvable(),
            r is Some ==> {
                &&& r->0.wf()
                &&& !r->0.finished()
                &&& r->0.root() == self@
                &&& r->0.start_words() == self.words()
                &&& r->0.found() == 0
                &&& r->0.one_only()
            },
    {
        SudokuWatch::start(self, true)
    }
}

} // verus!
