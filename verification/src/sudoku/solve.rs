//! The search engines of the board: counting, finding all solutions and
//! finding one, each sequentially and on the thread pool.
//!
//! Every engine takes the next square from the pool, tries each digit that
//! is free for it in ascending order on the board with the digit filled in,
//! and puts the square back. The sequential engines fill and clear the
//! board in place. The parallel engines hand a copy of the board to the
//! thread pool for each digit, and put the answers together as they come
//! back over a channel.
use crate::sudoku::bitwise::has_digit;
use crate::sudoku::board::{
    is_scan_choice, lemma_pool_empty, lemma_pool_in_range, lemma_pool_put, lemma_pool_take,
    pool_lists, pool_without, SudokuBoard, SudokuSquare,
};
use crate::sudoku::packed::{is_option_list, lemma_used_mask, lemma_words_by_grid, tidy, used_mask};
use crate::sudoku::rules::{
    at, conflict_free, lemma_conflict_no_solution, lemma_place_conflict, num_solutions, solutions,
    unit_holds, with_value,
};
use crate::sudoku::search::{
    all_found, blanks_of, branch_point, branch_solutions, is_answer, is_listing, is_order,
    lemma_listing_append, lemma_listing_none, lemma_listing_one, lemma_listing_text_append,
    lemma_no_blanks, lemma_option_step, lemma_options_done, lemma_options_start,
    lemma_saturated_sum, lemma_tried_next, lemma_tried_next_in_order, lemma_with_value, one_found,
    saturated, Search, tried_in_order, tried_set,
};
use crate::sudoku::text::{board_text, listing_text};
use rayon::iter::{ParallelBridge, ParallelIterator};
use std::sync::mpsc::channel;
use vstd::prelude::*;
use vstd::string::StringExecFns;

verus! {

impl SudokuBoard {
    /// The board has no conflict, its masks are exact, and the pool lists
    /// its blank squares: the state in which a search may start.
    pub open spec fn search_ready(&self) -> bool {
        &&& tidy(self.words())
        &&& pool_lists(self.pool(), blanks_of(self@))
    }

    /// The board holds the same words as `before`, masks and all, is ready
    /// for a search again, and its pool has the length it had.
    pub open spec fn restores(&self, before: SudokuBoard) -> bool {
        &&& self.words() == before.words()
        &&& self.search_ready()
        &&& self.pool().len() == before.pool().len()
        &&& self.solvable() == before.solvable()
    }

    /// The state of a search between two digits that it tries at `square`:
    /// the board holds `grid` but for the square, which holds `last`, and
    /// the pool lists the other blanks of `grid`.
    pub open spec fn in_branch(
        &self,
        before: SudokuBoard,
        square: SudokuSquare,
        last: nat,
    ) -> bool {
        &&& tidy(self.words())
        &&& self@ == with_value(before@, square.0 as int, square.1 as int, last)
        &&& pool_lists(
            self.pool(),
            blanks_of(before@).remove((square.0 as int, square.1 as int)),
        )
        &&& self.pool().len() + 1 == before.pool().len()
        &&& self.solvable() == before.solvable()
    }

    /// The board can try `value` at `square`: the square is blank and out
    /// of the pool, and the value stands nowhere in its units.
    pub open spec fn branch_ready(&self, square: SudokuSquare, value: usize) -> bool {
        &&& tidy(self.words())
        &&& square.valid()
        &&& at(self@, square.0 as int, square.1 as int) == 0
        &&& pool_lists(self.pool(), blanks_of(self@).remove((square.0 as int, square.1 as int)))
        &&& 1 <= value <= 9
        &&& !unit_holds(self@, square.0 as int, square.1 as int, value as nat)
    }

    /// Count the number of solutions for this board in parallel.
    ///
    /// A board that met a conflict when it was filled has none, and is not
    /// searched.
    pub fn count_solutions(&mut self) -> (count: usize)
        requires
            old(self).wf(),
        ensures
            old(self).solvable() ==> count == saturated(num_solutions(old(self)@)),
            !old(self).solvable() ==> count == 0,
            old(self).solvable() == conflict_free(old(self)@) ==> count == saturated(
                num_solutions(old(self)@),
            ),
            final(self).words() == old(self).words(),
            !old(self).solvable() ==> final(self).pool() == old(self).pool(),
            final(self).wf(),
            final(self).solvable() == old(self).solvable(),
    {
        if !self.is_solvable() {
            proof {
                if !conflict_free(self@) {
                    lemma_conflict_no_solution(self@);
                }
            }
            return 0;
        }
        self.analyze_fillable_squares();
        self.count_solutions_par()
    }

    /// Count the number of solutions for this board sequentially.
    ///
    /// The board and the pool come back as they were, the pool perhaps in
    /// another order.
    pub fn count_solutions_seq(&mut self) -> (count: usize)
        requires
            old(self).search_ready(),
        ensures
            count == saturated(num_solutions(old(self)@)),
            final(self).restores(*old(self)),
        decreases old(self).pool().len(),
    {
        if self.fillable_count() == 0 {
            proof {
                lemma_full_board(*self);
            }
            return 1;
        }
        let ghost grid = self@;
        let mut count: usize = 0;
        proof {
            lemma_pool_in_range(self.pool(), blanks_of(grid));
        }
        let square = self.next_fillable_square();
        let options = self.options_iter(&square);
        let ghost row = square.0 as int;
        let ghost col = square.1 as int;
        let ghost used = used_mask(self.words(), row, col, square.2 as int);
        let ghost mut last: nat = 0;
        proof {
            lemma_square_taken(*old(self), *self, square);
            lemma_branch_point(*self, square, options@);
            lemma_options_start(grid, row, col, options@);
        }
        let mut i: usize = 0;
        while i < options.len()
            invariant
                i <= options.len(),
                grid == old(self)@,
                row == square.0,
                col == square.1,
                square.valid(),
                branch_point(grid, row, col, used, options@),
                self.in_branch(*old(self), square, last),
                count == saturated(
                    branch_solutions(grid, row, col, tried_set(options@, i as int)).len(),
                ),
            decreases options.len() - i,
        {
            let value = options[i];
            proof {
                lemma_tried_next(options@, used, i as int);
                lemma_option_step(
                    grid,
                    row,
                    col,
                    used,
                    options@,
                    i as int,
                    tried_set(options@, i as int),
                    last,
                );
                lemma_saturated_sum(
                    branch_solutions(grid, row, col, tried_set(options@, i as int)).len(),
                    num_solutions(with_value(grid, row, col, value as nat)),
                );
                last = value as nat;
            }
            self.fill(&square, value);
            count = count.saturating_add(self.count_solutions_seq());
            i += 1;
        }
        proof {
            lemma_options_done(grid, row, col, used, options@, last);
        }
        let ghost mid = *self;
        self.clear(&square);
        self.put_back(square);
        proof {
            lemma_square_returned(*old(self), mid, *self, square, last);
        }
        count
    }

    /// Count the number of solutions for this board in parallel.
    ///
    /// Every option of the next square is solved on a copy of the board, on
    /// the thread pool; the counts are added up as they come in.
    pub fn count_solutions_par(&mut self) -> (count: usize)
        requires
            old(self).search_ready(),
        ensures
            count == saturated(num_solutions(old(self)@)),
            final(self).restores(*old(self)),
    {
        if self.fillable_count() == 0 {
            proof {
                lemma_full_board(*self);
            }
            return 1;
        }
        let mut count: usize = 0;
        let ghost grid = self@;
        proof {
            lemma_pool_in_range(self.pool(), blanks_of(grid));
        }
        let square = self.next_fillable_square();
        let num_options = self.count_options(&square);
        let options = self.options_iter(&square);
        let ghost row = square.0 as int;
        let ghost col = square.1 as int;
        let ghost used = used_mask(self.words(), row, col, square.2 as int);
        proof {
            lemma_square_taken(*old(self), *self, square);
            lemma_branch_point(*self, square, options@);
            lemma_options_start(grid, row, col, options@);
        }
        let answers = solve_branches(&*self, &square, &options, Search::Count, num_options > 1);
        let ghost order = choose|order: Seq<int>|
            is_order(order, options@.len() as int) && answers_in_order(
                answers@,
                order,
                Search::Count,
                grid,
                row,
                col,
                options@,
            );
        let mut k: usize = 0;
        while k < answers.len()
            invariant
                k <= answers.len(),
                answers@.len() == options@.len(),
                grid == old(self)@,
                row == square.0,
                col == square.1,
                branch_point(grid, row, col, used, options@),
                is_order(order, options@.len() as int),
                answers_in_order(answers@, order, Search::Count, grid, row, col, options@),
                count == saturated(
                    branch_solutions(grid, row, col, tried_in_order(options@, order, k as int)).len(),
                ),
            decreases answers.len() - k,
        {
            proof {
                lemma_tried_next_in_order(options@, used, order, k as int);
                lemma_option_step(
                    grid,
                    row,
                    col,
                    used,
                    options@,
                    order[k as int],
                    tried_in_order(options@, order, k as int),
                    0,
                );
                lemma_saturated_sum(
                    branch_solutions(grid, row, col, tried_in_order(options@, order, k as int)).len(),
                    num_solutions(with_value(grid, row, col, options@[order[k as int]] as nat)),
                );
            }
            count = count.saturating_add(answers[k].0);
            k += 1;
        }
        proof {
            lemma_options_done(grid, row, col, used, options@, 0);
        }
        let ghost mid = *self;
        self.clear(&square);
        self.put_back(square);
        proof {
            lemma_square_returned(*old(self), mid, *self, square, 0);
        }
        count
    }

    /// Find all solutions in parallel and return each solved board in a String.
    ///
    /// A board that met a conflict when it was filled has no solution, and
    /// is not searched.
    pub fn find_all(&mut self) -> (r: (usize, String))
        requires
            old(self).wf(),
        ensures
            old(self).solvable() ==> all_found(r.0, r.1@, old(self)@, false),
            !old(self).solvable() ==> r.0 == 0 && r.1@ == Seq::<char>::empty(),
            old(self).solvable() == conflict_free(old(self)@) ==> all_found(
                r.0,
                r.1@,
                old(self)@,
                false,
            ),
            final(self).words() == old(self).words(),
            !old(self).solvable() ==> final(self).pool() == old(self).pool(),
            final(self).wf(),
            final(self).solvable() == old(self).solvable(),
    {
        if !self.is_solvable() {
            proof {
                if !conflict_free(self@) {
                    lemma_conflict_no_solution(self@);
                    lemma_listing_none(false);
                    assert(is_listing(Seq::<Seq<nat>>::empty(), solutions(self@)));
                    assert(Seq::<char>::empty() == listing_text(
                        Seq::<Seq<nat>>::empty(),
                        false,
                    ));
                }
            }
            return (0, String::new());
        }
        self.analyze_fillable_squares();
        self.find_all_par()
    }

    /// Find all solutions sequentially and return each solved board in a String sequentially.
    ///
    /// The board and the pool come back as they were, the pool perhaps in
    /// another order.
    pub fn find_all_seq(&mut self) -> (r: (usize, String))
        requires
            old(self).search_ready(),
        ensures
            all_found(r.0, r.1@, old(self)@, false),
            final(self).restores(*old(self)),
        decreases old(self).pool().len(),
    {
        if self.fillable_count() == 0 {
            let solved = self.to_string();
            proof {
                lemma_full_board(*self);
                lemma_listing_one(self@, false);
                assert(solved@ == listing_text(seq![self@], false));
            }
            return (1, solved);
        }
        let ghost grid = self@;
        let mut count: usize = 0;
        let mut text = String::new();
        proof {
            lemma_pool_in_range(self.pool(), blanks_of(grid));
        }
        let square = self.next_fillable_square();
        let options = self.options_iter(&square);
        let ghost row = square.0 as int;
        let ghost col = square.1 as int;
        let ghost used = used_mask(self.words(), row, col, square.2 as int);
        let ghost mut last: nat = 0;
        let ghost mut found: Seq<Seq<nat>> = Seq::empty();
        proof {
            lemma_square_taken(*old(self), *self, square);
            lemma_branch_point(*self, square, options@);
            lemma_options_start(grid, row, col, options@);
            lemma_listing_none(false);
        }
        let mut i: usize = 0;
        while i < options.len()
            invariant
                i <= options.len(),
                grid == old(self)@,
                row == square.0,
                col == square.1,
                square.valid(),
                branch_point(grid, row, col, used, options@),
                self.in_branch(*old(self), square, last),
                is_listing(found, branch_solutions(grid, row, col, tried_set(options@, i as int))),
                text@ == listing_text(found, false),
                count == saturated(found.len()),
            decreases options.len() - i,
        {
            let value = options[i];
            proof {
                lemma_tried_next(options@, used, i as int);
                lemma_option_step(
                    grid,
                    row,
                    col,
                    used,
                    options@,
                    i as int,
                    tried_set(options@, i as int),
                    last,
                );
                last = value as nat;
            }
            self.fill(&square, value);
            let (new_count, new_sols) = self.find_all_seq();
            proof {
                let sub = choose|sub: Seq<Seq<nat>>|
                    is_listing(sub, solutions(with_value(grid, row, col, value as nat)))
                        && new_sols@ == #[trigger] listing_text(sub, false) && new_count
                        == saturated(sub.len());
                lemma_listing_append(
                    found,
                    branch_solutions(grid, row, col, tried_set(options@, i as int)),
                    sub,
                    solutions(with_value(grid, row, col, value as nat)),
                );
                lemma_listing_text_append(found, sub, false);
                lemma_saturated_sum(found.len(), sub.len());
                found = found + sub;
            }
            count = count.saturating_add(new_count);
            text.append(new_sols.as_str());
            i += 1;
        }
        proof {
            lemma_options_done(grid, row, col, used, options@, last);
        }
        let ghost mid = *self;
        self.clear(&square);
        self.put_back(square);
        proof {
            lemma_square_returned(*old(self), mid, *self, square, last);
        }
        (count, text)
    }

    /// Find all solutions in parallel and return each solved board in a String.
    ///
    /// Every option of the next square is solved on a copy of the board, on
    /// the thread pool; the answers are put together as they come in, so
    /// the order of the solutions in the text is not fixed.
    pub fn find_all_par(&mut self) -> (r: (usize, String))
        requires
            old(self).search_ready(),
        ensures
            all_found(r.0, r.1@, old(self)@, false),
            final(self).restores(*old(self)),
    {
        if self.fillable_count() == 0 {
            let solved = self.to_string();
            proof {
                lemma_full_board(*self);
                lemma_listing_one(self@, false);
                assert(solved@ == listing_text(seq![self@], false));
            }
            return (1, solved);
        }
        let mut count: usize = 0;
        let mut text = String::new();
        let ghost grid = self@;
        proof {
            lemma_pool_in_range(self.pool(), blanks_of(grid));
        }
        let square = self.next_fillable_square();
        let num_options = self.count_options(&square);
        let options = self.options_iter(&square);
        let ghost row = square.0 as int;
        let ghost col = square.1 as int;
        let ghost used = used_mask(self.words(), row, col, square.2 as int);
        proof {
            lemma_square_taken(*old(self), *self, square);
            lemma_branch_point(*self, square, options@);
            lemma_options_start(grid, row, col, options@);
        }
        let answers = solve_branches(&*self, &square, &options, Search::FindAll, num_options > 1);
        let ghost order = choose|order: Seq<int>|
            is_order(order, options@.len() as int) && answers_in_order(
                answers@,
                order,
                Search::FindAll,
                grid,
                row,
                col,
                options@,
            );
        let ghost mut found: Seq<Seq<nat>> = Seq::empty();
        proof {
            lemma_listing_none(false);
        }
        let mut k: usize = 0;
        while k < answers.len()
            invariant
                k <= answers.len(),
                answers@.len() == options@.len(),
                grid == old(self)@,
                row == square.0,
                col == square.1,
                branch_point(grid, row, col, used, options@),
                is_order(order, options@.len() as int),
                answers_in_order(answers@, order, Search::FindAll, grid, row, col, options@),
                is_listing(
                    found,
                    branch_solutions(grid, row, col, tried_in_order(options@, order, k as int)),
                ),
                text@ == listing_text(found, false),
                count == saturated(found.len()),
            decreases answers.len() - k,
        {
            proof {
                lemma_tried_next_in_order(options@, used, order, k as int);
                lemma_option_step(
                    grid,
                    row,
                    col,
                    used,
                    options@,
                    order[k as int],
                    tried_in_order(options@, order, k as int),
                    0,
                );
                let next = with_value(grid, row, col, options@[order[k as int]] as nat);
                let sub = choose|sub: Seq<Seq<nat>>|
                    is_listing(sub, solutions(next)) && answers@[k as int].1@
                        == #[trigger] listing_text(sub, false) && answers@[k as int].0 == saturated(
                        sub.len(),
                    );
                lemma_listing_append(
                    found,
                    branch_solutions(grid, row, col, tried_in_order(options@, order, k as int)),
                    sub,
                    solutions(next),
                );
                lemma_listing_text_append(found, sub, false);
                lemma_saturated_sum(found.len(), sub.len());
                found = found + sub;
            }
            count = count.saturating_add(answers[k].0);
            text.append(answers[k].1.as_str());
            k += 1;
        }
        proof {
            lemma_options_done(grid, row, col, used, options@, 0);
        }
        let ghost mid = *self;
        self.clear(&square);
        self.put_back(square);
        proof {
            lemma_square_returned(*old(self), mid, *self, square, 0);
        }
        (count, text)
    }

    /// Find all solutions in parallel and return each solved board as a compact string of 81 contiguous digits `(1..=9)`.
    ///
    /// A board that met a conflict when it was filled has no solution, and
    /// is not searched.
    pub fn find_all_compact(&mut self) -> (r: (usize, String))
        requires
            old(self).wf(),
        ensures
            old(self).solvable() ==> all_found(r.0, r.1@, old(self)@, true),
            !old(self).solvable() ==> r.0 == 0 && r.1@ == Seq::<char>::empty(),
            old(self).solvable() == conflict_free(old(self)@) ==> all_found(
                r.0,
                r.1@,
                old(self)@,
                true,
            ),
            final(self).words() == old(self).words(),
            !old(self).solvable() ==> final(self).pool() == old(self).pool(),
            final(self).wf(),
            final(self).solvable() == old(self).solvable(),
    {
        if !self.is_solvable() {
            proof {
                if !conflict_free(self@) {
                    lemma_conflict_no_solution(self@);
                    lemma_listing_none(true);
                    assert(is_listing(Seq::<Seq<nat>>::empty(), solutions(self@)));
                    assert(Seq::<char>::empty() == listing_text(
                        Seq::<Seq<nat>>::empty(),
                        true,
                    ));
                }
            }
            return (0, String::new());
        }
        self.analyze_fillable_squares();
        self.find_all_compact_par()
    }

    /// Find all solutions sequentially and return each solved board as a compact string of 81 contiguous digits `(1..=9)`.
    ///
    /// The board and the pool come back as they were, the pool perhaps in
    /// another order.
    pub fn find_all_compact_seq(&mut self) -> (r: (usize, String))
        requires
            old(self).search_ready(),
        ensures
            all_found(r.0, r.1@, old(self)@, true),
            final(self).restores(*old(self)),
        decreases old(self).pool().len(),
    {
        if self.fillable_count() == 0 {
            let solved = self.to_string_compact();
            proof {
                lemma_full_board(*self);
                lemma_listing_one(self@, true);
                assert(solved@ == listing_text(seq![self@], true));
            }
            return (1, solved);
        }
        let ghost grid = self@;
        let mut count: usize = 0;
        let mut text = String::new();
        proof {
            lemma_pool_in_range(self.pool(), blanks_of(grid));
        }
        let square = self.next_fillable_square();
        let options = self.options_iter(&square);
        let ghost row = square.0 as int;
        let ghost col = square.1 as int;
        let ghost used = used_mask(self.words(), row, col, square.2 as int);
        let ghost mut last: nat = 0;
        let ghost mut found: Seq<Seq<nat>> = Seq::empty();
        proof {
            lemma_square_taken(*old(self), *self, square);
            lemma_branch_point(*self, square, options@);
            lemma_options_start(grid, row, col, options@);
            lemma_listing_none(true);
        }
        let mut i: usize = 0;
        while i < options.len()
            invariant
                i <= options.len(),
                grid == old(self)@,
                row == square.0,
                col == square.1,
                square.valid(),
                branch_point(grid, row, col, used, options@),
                self.in_branch(*old(self), square, last),
                is_listing(found, branch_solutions(grid, row, col, tried_set(options@, i as int))),
                text@ == listing_text(found, true),
                count == saturated(found.len()),
            decreases options.len() - i,
        {
            let value = options[i];
            proof {
                lemma_tried_next(options@, used, i as int);
                lemma_option_step(
                    grid,
                    row,
                    col,
                    used,
                    options@,
                    i as int,
                    tried_set(options@, i as int),
                    last,
                );
                last = value as nat;
            }
            self.fill(&square, value);
            let (new_count, new_sols) = self.find_all_compact_seq();
            proof {
                let sub = choose|sub: Seq<Seq<nat>>|
                    is_listing(sub, solutions(with_value(grid, row, col, value as nat)))
                        && new_sols@ == #[trigger] listing_text(sub, true) && new_count
                        == saturated(sub.len());
                lemma_listing_append(
                    found,
                    branch_solutions(grid, row, col, tried_set(options@, i as int)),
                    sub,
                    solutions(with_value(grid, row, col, value as nat)),
                );
                lemma_listing_text_append(found, sub, true);
                lemma_saturated_sum(found.len(), sub.len());
                found = found + sub;
            }
            count = count.saturating_add(new_count);
            text.append(new_sols.as_str());
            i += 1;
        }
        proof {
            lemma_options_done(grid, row, col, used, options@, last);
        }
        let ghost mid = *self;
        self.clear(&square);
        self.put_back(square);
        proof {
            lemma_square_returned(*old(self), mid, *self, square, last);
        }
        (count, text)
    }

    /// Find all solutions in parallel and return each solved board as a compact string of 81 contiguous digits `(1..=9)`.
    ///
    /// Every option of the next square is solved on a copy of the board, on
    /// the thread pool; the answers are put together as they come in, so
    /// the order of the solutions in the text is not fixed.
    pub fn find_all_compact_par(&mut self) -> (r: (usize, String))
        requires
            old(self).search_ready(),
        ensures
            all_found(r.0, r.1@, old(self)@, true),
            final(self).restores(*old(self)),
    {
        if self.fillable_count() == 0 {
            let solved = self.to_string_compact();
            proof {
                lemma_full_board(*self);
                lemma_listing_one(self@, true);
                assert(solved@ == listing_text(seq![self@], true));
            }
            return (1, solved);
        }
        let mut count: usize = 0;
        let mut text = String::new();
        let ghost grid = self@;
        proof {
            lemma_pool_in_range(self.pool(), blanks_of(grid));
        }
        let square = self.next_fillable_square();
        let num_options = self.count_options(&square);
        let options = self.options_iter(&square);
        let ghost row = square.0 as int;
        let ghost col = square.1 as int;
        let ghost used = used_mask(self.words(), row, col, square.2 as int);
        proof {
            lemma_square_taken(*old(self), *self, square);
            lemma_branch_point(*self, square, options@);
            lemma_options_start(grid, row, col, options@);
        }
        let answers = solve_branches(&*self, &square, &options, Search::FindAllCompact, num_options > 1);
        let ghost order = choose|order: Seq<int>|
            is_order(order, options@.len() as int) && answers_in_order(
                answers@,
                order,
                Search::FindAllCompact,
                grid,
                row,
                col,
                options@,
            );
        let ghost mut found: Seq<Seq<nat>> = Seq::empty();
        proof {
            lemma_listing_none(true);
        }
        let mut k: usize = 0;
        while k < answers.len()
            invariant
                k <= answers.len(),
                answers@.len() == options@.len(),
                grid == old(self)@,
                row == square.0,
                col == square.1,
                branch_point(grid, row, col, used, options@),
                is_order(order, options@.len() as int),
                answers_in_order(answers@, order, Search::FindAllCompact, grid, row, col, options@),
                is_listing(
                    found,
                    branch_solutions(grid, row, col, tried_in_order(options@, order, k as int)),
                ),
                text@ == listing_text(found, true),
                count == saturated(found.len()),
            decreases answers.len() - k,
        {
            proof {
                lemma_tried_next_in_order(options@, used, order, k as int);
                lemma_option_step(
                    grid,
                    row,
                    col,
                    used,
                    options@,
                    order[k as int],
                    tried_in_order(options@, order, k as int),
                    0,
                );
                let next = with_value(grid, row, col, options@[order[k as int]] as nat);
                let sub = choose|sub: Seq<Seq<nat>>|
                    is_listing(sub, solutions(next)) && answers@[k as int].1@
                        == #[trigger] listing_text(sub, true) && answers@[k as int].0 == saturated(
                        sub.len(),
                    );
                lemma_listing_append(
                    found,
                    branch_solutions(grid, row, col, tried_in_order(options@, order, k as int)),
                    sub,
                    solutions(next),
                );
                lemma_listing_text_append(found, sub, true);
                lemma_saturated_sum(found.len(), sub.len());
                found = found + sub;
            }
            count = count.saturating_add(answers[k].0);
            text.append(answers[k].1.as_str());
            k += 1;
        }
        proof {
            lemma_options_done(grid, row, col, used, options@, 0);
        }
        let ghost mid = *self;
        self.clear(&square);
        self.put_back(square);
        proof {
            lemma_square_returned(*old(self), mid, *self, square, 0);
        }
        (count, text)
    }

    /// Find one solution in parallel and return the solved board in a String.
    ///
    /// A board that met a conflict when it was filled has no solution, and
    /// is not searched.
    pub fn find_one(&mut self) -> (r: (usize, String))
        requires
            old(self).wf(),
        ensures
            old(self).solvable() ==> one_found(r.0, r.1@, old(self)@, false),
            !old(self).solvable() ==> r.0 == 0 && r.1@ == Seq::<char>::empty(),
            old(self).solvable() == conflict_free(old(self)@) ==> one_found(
                r.0,
                r.1@,
                old(self)@,
                false,
            ),
            final(self).words() == old(self).words(),
            !old(self).solvable() ==> final(self).pool() == old(self).pool(),
            final(self).wf(),
            final(self).solvable() == old(self).solvable(),
    {
        if !self.is_solvable() {
            proof {
                if !conflict_free(self@) {
                    lemma_conflict_no_solution(self@);
                    lemma_listing_none(false);
                    assert(is_listing(Seq::<Seq<nat>>::empty(), solutions(self@)));
                    assert(Seq::<char>::empty() == listing_text(
                        Seq::<Seq<nat>>::empty(),
                        false,
                    ));
                }
            }
            return (0, String::new());
        }
        self.analyze_fillable_squares();
        self.find_one_par()
    }

    /// Find one solution sequentially and return the solved board in a String.
    ///
    /// The board and the pool come back as they were, the pool perhaps in
    /// another order.
    pub fn find_one_seq(&mut self) -> (r: (usize, String))
        requires
            old(self).search_ready(),
        ensures
            one_found(r.0, r.1@, old(self)@, false),
            final(self).restores(*old(self)),
        decreases old(self).pool().len(),
    {
        if self.fillable_count() == 0 {
            let solved = self.to_string();
            proof {
                lemma_full_board(*self);
                assert(solutions(self@).contains(self@));
                assert(solved@ == board_text(self@, false));
            }
            return (1, solved);
        }
        let ghost grid = self@;
        let mut count: usize = 0;
        let mut text = String::new();
        proof {
            lemma_pool_in_range(self.pool(), blanks_of(grid));
        }
        let square = self.next_fillable_square();
        let options = self.options_iter(&square);
        let ghost row = square.0 as int;
        let ghost col = square.1 as int;
        let ghost used = used_mask(self.words(), row, col, square.2 as int);
        let ghost mut last: nat = 0;
        proof {
            lemma_square_taken(*old(self), *self, square);
            lemma_branch_point(*self, square, options@);
            lemma_options_start(grid, row, col, options@);
        }
        let mut i: usize = 0;
        while i < options.len() && count == 0
            invariant
                i <= options.len(),
                grid == old(self)@,
                row == square.0,
                col == square.1,
                square.valid(),
                branch_point(grid, row, col, used, options@),
                self.in_branch(*old(self), square, last),
                count == 0 ==> text@ == Seq::<char>::empty() && branch_solutions(
                    grid,
                    row,
                    col,
                    tried_set(options@, i as int),
                ) == Set::<Seq<nat>>::empty(),
                count != 0 ==> one_found(count, text@, grid, false) && solutions(grid)
                    != Set::<Seq<nat>>::empty(),
            decreases options.len() - i,
        {
            let value = options[i];
            proof {
                lemma_tried_next(options@, used, i as int);
                lemma_option_step(
                    grid,
                    row,
                    col,
                    used,
                    options@,
                    i as int,
                    tried_set(options@, i as int),
                    last,
                );
                last = value as nat;
            }
            self.fill(&square, value);
            let (new_count, new_sols) = self.find_one_seq();
            proof {
                lemma_one_more(
                    grid,
                    with_value(grid, row, col, value as nat),
                    branch_solutions(grid, row, col, tried_set(options@, i as int)),
                    new_count,
                    new_sols@,
                    false,
                );
            }
            count = count + new_count;
            text.append(new_sols.as_str());
            i += 1;
        }
        proof {
            lemma_options_done(grid, row, col, used, options@, last);
        }
        let ghost mid = *self;
        self.clear(&square);
        self.put_back(square);
        proof {
            lemma_square_returned(*old(self), mid, *self, square, last);
        }
        (count, text)
    }

    /// Find one solution in parallel and return the solved board in a String.
    ///
    /// Every option of the next square is solved on a copy of the board, on
    /// the thread pool; the first answer to come in that holds a solution
    /// is returned, so which solution is found is not fixed.
    pub fn find_one_par(&mut self) -> (r: (usize, String))
        requires
            old(self).search_ready(),
        ensures
            one_found(r.0, r.1@, old(self)@, false),
            final(self).restores(*old(self)),
    {
        if self.fillable_count() == 0 {
            let solved = self.to_string();
            proof {
                lemma_full_board(*self);
                assert(solutions(self@).contains(self@));
                assert(solved@ == board_text(self@, false));
            }
            return (1, solved);
        }
        let mut count: usize = 0;
        let mut text = String::new();
        let ghost grid = self@;
        proof {
            lemma_pool_in_range(self.pool(), blanks_of(grid));
        }
        let square = self.next_fillable_square();
        let num_options = self.count_options(&square);
        let options = self.options_iter(&square);
        let ghost row = square.0 as int;
        let ghost col = square.1 as int;
        let ghost used = used_mask(self.words(), row, col, square.2 as int);
        proof {
            lemma_square_taken(*old(self), *self, square);
            lemma_branch_point(*self, square, options@);
            lemma_options_start(grid, row, col, options@);
        }
        let answers = solve_branches(&*self, &square, &options, Search::FindOne, num_options > 1);
        let ghost order = choose|order: Seq<int>|
            is_order(order, options@.len() as int) && answers_in_order(
                answers@,
                order,
                Search::FindOne,
                grid,
                row,
                col,
                options@,
            );
        let mut k: usize = 0;
        while k < answers.len() && count == 0
            invariant
                k <= answers.len(),
                answers@.len() == options@.len(),
                grid == old(self)@,
                row == square.0,
                col == square.1,
                branch_point(grid, row, col, used, options@),
                is_order(order, options@.len() as int),
                answers_in_order(answers@, order, Search::FindOne, grid, row, col, options@),
                count == 0 ==> text@ == Seq::<char>::empty() && branch_solutions(
                    grid,
                    row,
                    col,
                    tried_in_order(options@, order, k as int),
                ) == Set::<Seq<nat>>::empty(),
                count != 0 ==> one_found(count, text@, grid, false) && solutions(grid)
                    != Set::<Seq<nat>>::empty(),
            decreases answers.len() - k,
        {
            proof {
                lemma_tried_next_in_order(options@, used, order, k as int);
                lemma_option_step(
                    grid,
                    row,
                    col,
                    used,
                    options@,
                    order[k as int],
                    tried_in_order(options@, order, k as int),
                    0,
                );
                lemma_one_more(
                    grid,
                    with_value(grid, row, col, options@[order[k as int]] as nat),
                    branch_solutions(grid, row, col, tried_in_order(options@, order, k as int)),
                    answers@[k as int].0,
                    answers@[k as int].1@,
                    false,
                );
            }
            count = count + answers[k].0;
            text.append(answers[k].1.as_str());
            k += 1;
        }
        proof {
            lemma_options_done(grid, row, col, used, options@, 0);
        }
        let ghost mid = *self;
        self.clear(&square);
        self.put_back(square);
        proof {
            lemma_square_returned(*old(self), mid, *self, square, 0);
        }
        (count, text)
    }

    /// Find one solution in parallel and return the solved board as a compact string of 81 contiguous digits `(1..=9)`.
    ///
    /// A board that met a conflict when it was filled has no solution, and
    /// is not searched.
    pub fn find_one_compact(&mut self) -> (r: (usize, String))
        requires
            old(self).wf(),
        ensures
            old(self).solvable() ==> one_found(r.0, r.1@, old(self)@, true),
            !old(self).solvable() ==> r.0 == 0 && r.1@ == Seq::<char>::empty(),
            old(self).solvable() == conflict_free(old(self)@) ==> one_found(
                r.0,
                r.1@,
                old(self)@,
                true,
            ),
            final(self).words() == old(self).words(),
            !old(self).solvable() ==> final(self).pool() == old(self).pool(),
            final(self).wf(),
            final(self).solvable() == old(self).solvable(),
    {
        if !self.is_solvable() {
            proof {
                if !conflict_free(self@) {
                    lemma_conflict_no_solution(self@);
                    lemma_listing_none(true);
                    assert(is_listing(Seq::<Seq<nat>>::empty(), solutions(self@)));
                    assert(Seq::<char>::empty() == listing_text(
                        Seq::<Seq<nat>>::empty(),
                        true,
                    ));
                }
            }
            return (0, String::new());
        }
        self.analyze_fillable_squares();
        self.find_one_compact_par()
    }

    /// Find one solution sequentially and return the solved board as a compact string of 81 contiguous digits `(1..=9)`.
    ///
    /// The board and the pool come back as they were, the pool perhaps in
    /// another order.
    pub fn find_one_compact_seq(&mut self) -> (r: (usize, String))
        requires
            old(self).search_ready(),
        ensures
            one_found(r.0, r.1@, old(self)@, true),
            final(self).restores(*old(self)),
        decreases old(self).pool().len(),
    {
        if self.fillable_count() == 0 {
            let solved = self.to_string_compact();
            proof {
                lemma_full_board(*self);
                assert(solutions(self@).contains(self@));
                assert(solved@ == board_text(self@, true));
            }
            return (1, solved);
        }
        let ghost grid = self@;
        let mut count: usize = 0;
        let mut text = String::new();
        proof {
            lemma_pool_in_range(self.pool(), blanks_of(grid));
        }
        let square = self.next_fillable_square();
        let options = self.options_iter(&square);
        let ghost row = square.0 as int;
        let ghost col = square.1 as int;
        let ghost used = used_mask(self.words(), row, col, square.2 as int);
        let ghost mut last: nat = 0;
        proof {
            lemma_square_taken(*old(self), *self, square);
            lemma_branch_point(*self, square, options@);
            lemma_options_start(grid, row, col, options@);
        }
        let mut i: usize = 0;
        while i < options.len() && count == 0
            invariant
                i <= options.len(),
                grid == old(self)@,
                row == square.0,
                col == square.1,
                square.valid(),
                branch_point(grid, row, col, used, options@),
                self.in_branch(*old(self), square, last),
                count == 0 ==> text@ == Seq::<char>::empty() && branch_solutions(
                    grid,
                    row,
                    col,
                    tried_set(options@, i as int),
                ) == Set::<Seq<nat>>::empty(),
                count != 0 ==> one_found(count, text@, grid, true) && solutions(grid)
                    != Set::<Seq<nat>>::empty(),
            decreases options.len() - i,
        {
            let value = options[i];
            proof {
                lemma_tried_next(options@, used, i as int);
                lemma_option_step(
                    grid,
                    row,
                    col,
                    used,
                    options@,
                    i as int,
                    tried_set(options@, i as int),
                    last,
                );
                last = value as nat;
            }
            self.fill(&square, value);
            let (new_count, new_sols) = self.find_one_compact_seq();
            proof {
                lemma_one_more(
                    grid,
                    with_value(grid, row, col, value as nat),
                    branch_solutions(grid, row, col, tried_set(options@, i as int)),
                    new_count,
                    new_sols@,
                    true,
                );
            }
            count = count + new_count;
            text.append(new_sols.as_str());
            i += 1;
        }
        proof {
            lemma_options_done(grid, row, col, used, options@, last);
        }
        let ghost mid = *self;
        self.clear(&square);
        self.put_back(square);
        proof {
            lemma_square_returned(*old(self), mid, *self, square, last);
        }
        (count, text)
    }

    /// Find one solution in parallel and return the solved board as a compact string of 81 contiguous digits `(1..=9)`.
    ///
    /// Every option of the next square is solved on a copy of the board, on
    /// the thread pool; the first answer to come in that holds a solution
    /// is returned, so which solution is found is not fixed.
    pub fn find_one_compact_par(&mut self) -> (r: (usize, String))
        requires
            old(self).search_ready(),
        ensures
            one_found(r.0, r.1@, old(self)@, true),
            final(self).restores(*old(self)),
    {
        if self.fillable_count() == 0 {
            let solved = self.to_string_compact();
            proof {
                lemma_full_board(*self);
                assert(solutions(self@).contains(self@));
                assert(solved@ == board_text(self@, true));
            }
            return (1, solved);
        }
        let mut count: usize = 0;
        let mut text = String::new();
        let ghost grid = self@;
        proof {
            lemma_pool_in_range(self.pool(), blanks_of(grid));
        }
        let square = self.next_fillable_square();
        let num_options = self.count_options(&square);
        let options = self.options_iter(&square);
        let ghost row = square.0 as int;
        let ghost col = square.1 as int;
        let ghost used = used_mask(self.words(), row, col, square.2 as int);
        proof {
            lemma_square_taken(*old(self), *self, square);
            lemma_branch_point(*self, square, options@);
            lemma_options_start(grid, row, col, options@);
        }
        let answers = solve_branches(&*self, &square, &options, Search::FindOneCompact, num_options > 1);
        let ghost order = choose|order: Seq<int>|
            is_order(order, options@.len() as int) && answers_in_order(
                answers@,
                order,
                Search::FindOneCompact,
                grid,
                row,
                col,
                options@,
            );
        let mut k: usize = 0;
        while k < answers.len() && count == 0
            invariant
                k <= answers.len(),
                answers@.len() == options@.len(),
                grid == old(self)@,
                row == square.0,
                col == square.1,
                branch_point(grid, row, col, used, options@),
                is_order(order, options@.len() as int),
                answers_in_order(answers@, order, Search::FindOneCompact, grid, row, col, options@),
                count == 0 ==> text@ == Seq::<char>::empty() && branch_solutions(
                    grid,
                    row,
                    col,
                    tried_in_order(options@, order, k as int),
                ) == Set::<Seq<nat>>::empty(),
                count != 0 ==> one_found(count, text@, grid, true) && solutions(grid)
                    != Set::<Seq<nat>>::empty(),
            decreases answers.len() - k,
        {
            proof {
                lemma_tried_next_in_order(options@, used, order, k as int);
                lemma_option_step(
                    grid,
                    row,
                    col,
                    used,
                    options@,
                    order[k as int],
                    tried_in_order(options@, order, k as int),
                    0,
                );
                lemma_one_more(
                    grid,
                    with_value(grid, row, col, options@[order[k as int]] as nat),
                    branch_solutions(grid, row, col, tried_in_order(options@, order, k as int)),
                    answers@[k as int].0,
                    answers@[k as int].1@,
                    true,
                );
            }
            count = count + answers[k].0;
            text.append(answers[k].1.as_str());
            k += 1;
        }
        proof {
            lemma_options_done(grid, row, col, used, options@, 0);
        }
        let ghost mid = *self;
        self.clear(&square);
        self.put_back(square);
        proof {
            lemma_square_returned(*old(self), mid, *self, square, 0);
        }
        (count, text)
    }

    /// Answers `search` for the board with `value` filled in at `square`,
    /// on a copy of the board; with the parallel engine if `parallel` is
    /// set, else with the sequential one.
    pub fn solve_branch(
        &self,
        square: &SudokuSquare,
        value: usize,
        search: Search,
        parallel: bool,
    ) -> (r: (usize, String))
        requires
            self.branch_ready(*square, value),
        ensures
            is_answer(
                search,
                r.0,
                r.1@,
                with_value(self@, square.0 as int, square.1 as int, value as nat),
            ),
    {
        let mut board = self.clone();
        proof {
            lemma_place_conflict(self@, square.0 as int, square.1 as int, value as nat);
            lemma_with_value(self@, square.0 as int, square.1 as int, value as nat, 0);
        }
        board.fill(square, value);
        match search {
            Search::Count => {
                let count = if parallel {
                    board.count_solutions_par()
                } else {
                    board.count_solutions_seq()
                };
                (count, String::new())
            },
            Search::FindAll => {
                if parallel {
                    board.find_all_par()
                } else {
                    board.find_all_seq()
                }
            },
            Search::FindAllCompact => {
                if parallel {
                    board.find_all_compact_par()
                } else {
                    board.find_all_compact_seq()
                }
            },
            Search::FindOne => {
                if parallel {
                    board.find_one_par()
                } else {
                    board.find_one_seq()
                }
            },
            Search::FindOneCompact => {
                if parallel {
                    board.find_one_compact_par()
                } else {
                    board.find_one_compact_seq()
                }
            },
        }
    }
}

/// Answer `i` is an answer for the option at place `order[i]`.
pub open spec fn answers_in_order(
    answers: Seq<(usize, String)>,
    order: Seq<int>,
    search: Search,
    grid: Seq<nat>,
    row: int,
    col: int,
    options: Seq<usize>,
) -> bool {
    forall|i: int|
        0 <= i < answers.len() ==> is_answer(
            search,
            (#[trigger] answers[i]).0,
            answers[i].1@,
            with_value(grid, row, col, options[order[i]] as nat),
        )
}

/// Solves the board once for each option of a square, on the thread pool.
///
/// Calls rayon's `par_bridge` on the options and `try_for_each_with` with a
/// channel's sender: each worker makes one call of
/// [`SudokuBoard::solve_branch`] for an option and sends the answer. The
/// bridge hands every item to exactly one worker and does not keep the
/// order of the items; a send fails only once the receiver is gone, which
/// outlives the workers here. So when the workers are done the channel
/// holds one answer for each option, each what `solve_branch` returns for
/// its option, in the order in which they came in; they are read out into
/// a vector.
#[verifier::external_body]
fn solve_branches(
    board: &SudokuBoard,
    square: &SudokuSquare,
    options: &Vec<usize>,
    search: Search,
    parallel: bool,
) -> (answers: Vec<(usize, String)>)
    requires
        forall|k: int|
            0 <= k < options@.len() ==> board.branch_ready(*square, #[trigger] options@[k]),
    ensures
        answers@.len() == options@.len(),
        exists|order: Seq<int>|
            is_order(order, answers@.len() as int) && answers_in_order(
                answers@,
                order,
                search,
                board@,
                square.0 as int,
                square.1 as int,
                options@,
            ),
{
    let (tx, rx) = channel();
    options
        .iter()
        .copied()
        .par_bridge()
        .try_for_each_with(tx, |tx, value| {
            tx.send(board.solve_branch(square, value, search, parallel))
        })
        .expect("Failed to invoke on multiple threads.");
    rx.iter().collect()
}

/// A board that is ready for a search and has an empty pool is solved: it
/// is its own single solution.
pub proof fn lemma_full_board(board: SudokuBoard)
    requires
        board.search_ready(),
        board.pool().len() == 0,
    ensures
        solutions(board@) == set![board@],
        num_solutions(board@) == 1,
        is_listing(seq![board@], solutions(board@)),
{
    lemma_pool_empty(board.pool(), board@);
    lemma_no_blanks(board@);
    lemma_listing_one(board@, true);
}

/// After the scan took a square out of the pool of a board that was ready
/// for a search, the board is between digits at a blank square.
pub proof fn lemma_square_taken(before: SudokuBoard, after: SudokuBoard, square: SudokuSquare)
    requires
        before.search_ready(),
        after.words() == before.words(),
        after.solvable() == before.solvable(),
        exists|p: int|
            is_scan_choice(before.words(), before.pool(), p) && square == before.pool()[p]
                && after.pool() == pool_without(before.pool(), p),
    ensures
        square.valid(),
        at(before@, square.0 as int, square.1 as int) == 0,
        after.in_branch(before, square, 0),
{
    let p = choose|p: int|
        is_scan_choice(before.words(), before.pool(), p) && square == before.pool()[p]
            && after.pool() == pool_without(before.pool(), p);
    lemma_pool_take(before.pool(), blanks_of(before@), p);
    lemma_with_value(before@, square.0 as int, square.1 as int, 0, 0);
}

/// The options of a blank square of a tidy board make a branch point.
pub proof fn lemma_branch_point(board: SudokuBoard, square: SudokuSquare, options: Seq<usize>)
    requires
        tidy(board.words()),
        square.valid(),
        at(board@, square.0 as int, square.1 as int) == 0,
        is_option_list(
            options,
            used_mask(board.words(), square.0 as int, square.1 as int, square.2 as int),
        ),
    ensures
        branch_point(
            board@,
            square.0 as int,
            square.1 as int,
            used_mask(board.words(), square.0 as int, square.1 as int, square.2 as int),
            options,
        ),
        forall|k: int|
            0 <= k < options.len() ==> 1 <= #[trigger] options[k] <= 9 && !unit_holds(
                board@,
                square.0 as int,
                square.1 as int,
                options[k] as nat,
            ),
{
    let used = used_mask(board.words(), square.0 as int, square.1 as int, square.2 as int);
    assert forall|d: nat| 1 <= d <= 9 implies has_digit(used, d as u64) == #[trigger] unit_holds(
        board@,
        square.0 as int,
        square.1 as int,
        d,
    ) by {
        lemma_used_mask(board.words(), square.0 as int, square.1 as int, d);
    }
    assert forall|k: int| 0 <= k < options.len() implies 1 <= #[trigger] options[k] <= 9
        && !unit_holds(board@, square.0 as int, square.1 as int, options[k] as nat) by {
        assert(options.contains(options[k]));
    }
}

/// Putting the square back after the last digit restores the board.
pub proof fn lemma_square_returned(
    before: SudokuBoard,
    mid: SudokuBoard,
    after: SudokuBoard,
    square: SudokuSquare,
    last: nat,
)
    requires
        before.search_ready(),
        square.valid(),
        at(before@, square.0 as int, square.1 as int) == 0,
        mid.in_branch(before, square, last),
        after@ == with_value(mid@, square.0 as int, square.1 as int, 0),
        tidy(after.words()),
        after.pool() == mid.pool().push(square),
        after.solvable() == mid.solvable(),
    ensures
        after.restores(before),
{
    let row = square.0 as int;
    let col = square.1 as int;
    lemma_with_value(before@, row, col, last, 0);
    lemma_with_value(before@, row, col, 0, 0);
    lemma_pool_put(mid.pool(), blanks_of(before@).remove((row, col)), square);
    assert(blanks_of(before@).remove((row, col)).insert((row, col)) =~= blanks_of(before@));
    lemma_words_by_grid(after.words(), before.words());
}

/// What a search for one solution has after one more branch, when it had
/// found nothing in the branches `before`: the answer of the branch, which
/// is an answer for the grid where it holds a solution.
pub proof fn lemma_one_more(
    grid: Seq<nat>,
    next: Seq<nat>,
    before: Set<Seq<nat>>,
    count: usize,
    text: Seq<char>,
    compact: bool,
)
    requires
        before == Set::<Seq<nat>>::empty(),
        one_found(count, text, next, compact),
        solutions(next).subset_of(solutions(grid)),
    ensures
        count <= 1,
        Seq::<char>::empty() + text == text,
        count == 0 ==> text == Seq::<char>::empty() && before + solutions(next) == Set::<
            Seq<nat>,
        >::empty(),
        count != 0 ==> one_found(count, text, grid, compact) && solutions(grid) != Set::<
            Seq<nat>,
        >::empty(),
{
    assert(Seq::<char>::empty() + text =~= text);
    if solutions(next) == Set::<Seq<nat>>::empty() {
        assert(before + solutions(next) =~= Set::<Seq<nat>>::empty());
    } else {
        let full = choose|full: Seq<nat>|
            solutions(next).contains(full) && text == #[trigger] board_text(full, compact);
        assert(solutions(grid).contains(full));
    }
}

} // verus!
