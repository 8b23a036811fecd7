//! Laws of the solver, each proved from the definitions that the contracts
//! of the board use.
use crate::sudoku::board::SudokuBoard;
use crate::sudoku::packed::{
    clear_words, fill_words, grid_of, lemma_clear_grid, lemma_clear_tidy, lemma_fill_grid,
    lemma_fill_marks, lemma_words_by_grid, sound, tidy,
};
use crate::sudoku::rules::{
    at, box_of, complete, conflict_free, is_solution, lemma_conflict_no_solution,
    lemma_place_conflict, lemma_solutions_finite, lemma_solved_grid, num_solutions, on_grid,
    solutions, unit_holds, well_formed,
};
use crate::sudoku::search::{
    all_found, is_listing, lemma_listing_len, lemma_listing_one, lemma_with_value, one_found,
    saturated,
};
use crate::sudoku::text::{
    board_text, compact_text, digit_of, is_white_space, lemma_board_text_len, listing_text,
    meaningful, parse_grid, square_char,
};
use vstd::prelude::*;

verus! {

/// Where board `k` of a text of boards begins.
pub open spec fn span(compact: bool, k: int) -> int {
    if compact {
        82 * k
    } else {
        762 * k
    }
}

/// Piece `k` of a text that is cut into pieces of the length of one board.
pub open spec fn chunk(text: Seq<char>, k: int, compact: bool) -> Seq<char> {
    text.subrange(span(compact, k), span(compact, k + 1))
}

/// The pieces that a text of `count` boards is cut into, as a set.
pub open spec fn chunks(text: Seq<char>, count: nat, compact: bool) -> Set<Seq<char>> {
    Set::new(|piece: Seq<char>| exists|k: int| 0 <= k < count && piece == chunk(text, k, compact))
}

/// The texts of the solutions of a grid, as a set.
pub open spec fn solution_texts(grid: Seq<nat>, compact: bool) -> Set<Seq<char>> {
    Set::new(
        |piece: Seq<char>|
            exists|full: Seq<nat>|
                solutions(grid).contains(full) && piece == #[trigger] board_text(full, compact),
    )
}

/// The text of a list of boards is as long as its boards together, and cut
/// into pieces of one board's length it gives back the text of each board
/// in its place.
pub proof fn lemma_listing_chunks(found: Seq<Seq<nat>>, compact: bool)
    ensures
        listing_text(found, compact).len() == span(compact, found.len() as int),
        forall|k: int|
            0 <= k < found.len() ==> #[trigger] chunk(listing_text(found, compact), k, compact)
                == board_text(found[k], compact),
    decreases found.len(),
{
    if found.len() > 0 {
        let head = found.drop_last();
        lemma_listing_chunks(head, compact);
        lemma_board_text_len(found.last(), compact);
        let text = listing_text(found, compact);
        let before = listing_text(head, compact);
        assert(text == before + board_text(found.last(), compact));
        assert forall|k: int| 0 <= k < found.len() implies #[trigger] chunk(text, k, compact)
            == board_text(found[k], compact) by {
            if k < head.len() {
                assert(chunk(text, k, compact) =~= chunk(before, k, compact));
                assert(head[k] == found[k]);
            } else {
                assert(chunk(text, k, compact) =~= board_text(found.last(), compact));
            }
        }
    }
}

/// A solved board has one solution, itself: every search finds it, and
/// nothing else.
pub proof fn law_solved_board(grid: Seq<nat>, count: usize, text: Seq<char>, compact: bool)
    requires
        is_solution(grid),
    ensures
        num_solutions(grid) == 1,
        saturated(num_solutions(grid)) == 1,
        all_found(count, text, grid, compact) ==> count == 1 && text == board_text(grid, compact),
        one_found(count, text, grid, compact) ==> count == 1 && text == board_text(grid, compact),
{
    lemma_solved_grid(grid);
    if all_found(count, text, grid, compact) {
        let found = choose|found: Seq<Seq<nat>>|
            is_listing(found, solutions(grid)) && text == #[trigger] listing_text(found, compact)
                && count == saturated(found.len());
        lemma_listing_len(found, solutions(grid));
        assert(found.contains(found[0]));
        assert(found =~= seq![grid]);
        lemma_listing_one(grid, compact);
    }
    if one_found(count, text, grid, compact) {
        assert(solutions(grid).contains(grid));
    }
}

/// A grid with a digit twice in a row, a column or a box has no solution:
/// every search reports zero and an empty text.
pub proof fn law_conflict_finds_nothing(
    grid: Seq<nat>,
    count: usize,
    text: Seq<char>,
    compact: bool,
)
    requires
        !conflict_free(grid),
    ensures
        num_solutions(grid) == 0,
        saturated(num_solutions(grid)) == 0,
        all_found(count, text, grid, compact) ==> count == 0 && text == Seq::<char>::empty(),
        one_found(count, text, grid, compact) ==> count == 0 && text == Seq::<char>::empty(),
{
    lemma_conflict_no_solution(grid);
    if all_found(count, text, grid, compact) {
        let found = choose|found: Seq<Seq<nat>>|
            is_listing(found, solutions(grid)) && text == #[trigger] listing_text(found, compact)
                && count == saturated(found.len());
        lemma_listing_len(found, solutions(grid));
        assert(found =~= Seq::<Seq<nat>>::empty());
    }
}

/// What a search for all solutions returns adds up: the count is the
/// number of solutions, which is what counting alone gives; the text is as
/// long as that many boards; and cut into boards it holds the text of every
/// solution, and nothing else.
pub proof fn law_all_found_adds_up(grid: Seq<nat>, count: usize, text: Seq<char>, compact: bool)
    requires
        all_found(count, text, grid, compact),
    ensures
        solutions(grid).finite(),
        count == saturated(num_solutions(grid)),
        text.len() == span(compact, num_solutions(grid) as int),
        compact ==> text.len() / 82 == num_solutions(grid),
        !compact ==> text.len() / 762 == num_solutions(grid),
        chunks(text, num_solutions(grid), compact) == solution_texts(grid, compact),
{
    let found = choose|found: Seq<Seq<nat>>|
        is_listing(found, solutions(grid)) && text == #[trigger] listing_text(found, compact)
            && count == saturated(found.len());
    lemma_listing_len(found, solutions(grid));
    lemma_listing_chunks(found, compact);
    let pieces = chunks(text, num_solutions(grid), compact);
    let texts = solution_texts(grid, compact);
    assert forall|piece: Seq<char>| pieces.contains(piece) implies texts.contains(piece) by {
        let k = choose|k: int| 0 <= k < num_solutions(grid) && piece == chunk(text, k, compact);
        assert(found.contains(found[k]));
        assert(piece == board_text(found[k], compact));
    }
    assert forall|piece: Seq<char>| texts.contains(piece) implies pieces.contains(piece) by {
        let full = choose|full: Seq<nat>|
            solutions(grid).contains(full) && piece == #[trigger] board_text(full, compact);
        assert(found.contains(full));
        let k = choose|k: int| 0 <= k < found.len() && found[k] == full;
        assert(piece == chunk(text, k, compact));
    }
    assert(pieces =~= texts);
}

/// Two searches for all solutions of one grid agree, whichever engine ran
/// them and in whatever order the solutions came: on the count, on the
/// length of the text, and on the set of boards that the text holds.
pub proof fn law_engines_agree(
    grid: Seq<nat>,
    count_a: usize,
    text_a: Seq<char>,
    count_b: usize,
    text_b: Seq<char>,
    compact: bool,
)
    requires
        all_found(count_a, text_a, grid, compact),
        all_found(count_b, text_b, grid, compact),
    ensures
        count_a == count_b,
        text_a.len() == text_b.len(),
        chunks(text_a, num_solutions(grid), compact) == chunks(
            text_b,
            num_solutions(grid),
            compact,
        ),
{
    law_all_found_adds_up(grid, count_a, text_a, compact);
    law_all_found_adds_up(grid, count_b, text_b, compact);
}

/// Two searches for one solution of one grid agree on whether there is
/// one, and what either returns is the text of a solution.
pub proof fn law_one_found_agrees(
    grid: Seq<nat>,
    count_a: usize,
    text_a: Seq<char>,
    count_b: usize,
    text_b: Seq<char>,
    compact: bool,
)
    requires
        one_found(count_a, text_a, grid, compact),
        one_found(count_b, text_b, grid, compact),
    ensures
        count_a == count_b,
        count_a == (if num_solutions(grid) == 0 {
            0usize
        } else {
            1usize
        }),
        count_a == 1 ==> solution_texts(grid, compact).contains(text_a) && solution_texts(
            grid,
            compact,
        ).contains(text_b),
{
    lemma_solutions_finite(grid);
    if solutions(grid) == Set::<Seq<nat>>::empty() {
    } else {
        if solutions(grid).len() == 0 {
            solutions(grid).lemma_len0_is_empty();
        }
    }
}

/// The solution that a search for one returns is among those that a search
/// for all returns, and there is one exactly when the other finds any.
pub proof fn law_one_is_among_all(
    grid: Seq<nat>,
    count_all: usize,
    text_all: Seq<char>,
    count_one: usize,
    text_one: Seq<char>,
    compact: bool,
)
    requires
        all_found(count_all, text_all, grid, compact),
        one_found(count_one, text_one, grid, compact),
    ensures
        (count_one == 1) == (count_all > 0),
        (count_one == 0) == (count_all == 0),
        count_one == 1 ==> chunks(text_all, num_solutions(grid), compact).contains(text_one),
        count_one == 0 ==> text_one == Seq::<char>::empty() && text_all == Seq::<char>::empty(),
{
    law_all_found_adds_up(grid, count_all, text_all, compact);
    law_one_found_agrees(grid, count_one, text_one, count_one, text_one, compact);
    if count_one == 0 {
        assert(text_all =~= Seq::<char>::empty());
    }
}

/// A text without white space is all meaningful.
proof fn lemma_filter_keeps(text: Seq<char>)
    requires
        forall|i: int| 0 <= i < text.len() ==> !is_white_space(#[trigger] text[i]),
    ensures
        meaningful(text) == text,
    decreases text.len(),
{
    let pred = |c: char| !is_white_space(c);
    reveal(Seq::filter);
    if text.len() > 0 {
        lemma_filter_keeps(text.drop_last());
        assert(text.drop_last().push(text.last()) =~= text);
    }
    assert(text.filter(pred) =~= text);
}

/// The compact text of a full grid reads back as the grid.
pub proof fn law_compact_round_trip(grid: Seq<nat>)
    requires
        well_formed(grid),
        complete(grid),
    ensures
        parse_grid(compact_text(grid)) == grid,
{
    let digits = Seq::new(81, |k: int| square_char(grid[k]));
    let pred = |c: char| !is_white_space(c);
    assert forall|i: int| 0 <= i < digits.len() implies !is_white_space(#[trigger] digits[i])
        && digit_of(digits[i]) == grid[i] by {
        assert(grid[i] != 0);
        assert(grid[i] <= 9);
    }
    lemma_filter_keeps(digits);
    Seq::filter_distributes_over_add(digits, seq!['\n'], pred);
    assert(meaningful(seq!['\n']) =~= Seq::<char>::empty()) by {
        reveal(Seq::filter);
        assert(seq!['\n'].drop_last() =~= Seq::<char>::empty());
    }
    assert(meaningful(compact_text(grid)) =~= digits);
    assert(parse_grid(compact_text(grid)) =~= grid);
}

/// A full board that is read back from its own compact text is the same
/// board: the same nine words and the same flag. This holds of every board
/// without blanks that was read from a text, solved or not.
pub proof fn law_board_round_trip(board: SudokuBoard, again: SudokuBoard)
    requires
        sound(board.words()),
        board.solvable() == conflict_free(board@),
        complete(board@),
        sound(again.words()),
        again@ == parse_grid(compact_text(board@)),
        again.solvable() == conflict_free(again@),
    ensures
        again@ == board@,
        again.solvable() == board.solvable(),
        again.words() == board.words(),
{
    law_compact_round_trip(board@);
    lemma_words_by_grid(again.words(), board.words());
}

/// Clearing a square after filling it with a free digit gives back the
/// words as they were, masks and all.
pub proof fn law_fill_then_clear(words: Seq<u64>, row: int, col: int, value: nat)
    requires
        tidy(words),
        on_grid(row, col),
        at(grid_of(words), row, col) == 0,
        1 <= value <= 9,
        !unit_holds(grid_of(words), row, col, value),
    ensures
        clear_words(
            fill_words(words, row, col, box_of(row, col), value as u64),
            row,
            col,
            box_of(row, col),
        ) == words,
{
    let bx = box_of(row, col);
    let filled = fill_words(words, row, col, bx, value as u64);
    lemma_fill_grid(words, row, col, bx, value as u64);
    lemma_fill_marks(words, row, col, value as u64);
    lemma_place_conflict(grid_of(words), row, col, value);
    lemma_clear_grid(filled, row, col, bx);
    lemma_clear_tidy(filled, row, col);
    lemma_with_value(grid_of(words), row, col, value, 0);
    lemma_words_by_grid(clear_words(filled, row, col, bx), words);
}

} // verus!
