//! The two written forms of a grid: the drawn board and the compact line.
use vstd::prelude::*;

verus! {

/// The character that shows a square: a space for a blank, else the digit.
pub open spec fn square_char(value: nat) -> char {
    if value == 1 {
        '1'
    } else if value == 2 {
        '2'
    } else if value == 3 {
        '3'
    } else if value == 4 {
        '4'
    } else if value == 5 {
        '5'
    } else if value == 6 {
        '6'
    } else if value == 7 {
        '7'
    } else if value == 8 {
        '8'
    } else if value == 9 {
        '9'
    } else {
        ' '
    }
}

/// One square as a one-character text.
pub open spec fn square_text(value: nat) -> Seq<char> {
    seq![square_char(value)]
}

/// The nine squares of a row between the bars of the drawn board, without
/// indent or line end.
pub open spec fn framed_row(cells: Seq<nat>) -> Seq<char> {
    "║ "@ + square_text(cells[0]) + " │ "@ + square_text(cells[1]) + " │ "@
        + square_text(cells[2]) + " ║ "@ + square_text(cells[3]) + " │ "@
        + square_text(cells[4]) + " │ "@ + square_text(cells[5]) + " ║ "@
        + square_text(cells[6]) + " │ "@ + square_text(cells[7]) + " │ "@
        + square_text(cells[8]) + " ║"@
}

/// A row as one line of the drawn board.
pub open spec fn row_text(cells: Seq<nat>) -> Seq<char> {
    "  "@ + framed_row(cells) + "\n"@
}

/// A row written without decoration: nine characters.
pub open spec fn compact_row_text(cells: Seq<nat>) -> Seq<char> {
    Seq::new(9, |c: int| square_char(cells[c]))
}

/// Row `row` of a grid.
pub open spec fn row_of(grid: Seq<nat>, row: int) -> Seq<nat> {
    grid.subrange(9 * row, 9 * row + 9)
}

/// The top edge of the drawn board.
pub const TOP_EDGE: &'static str = "  ╔═══════════╦═══════════╦═══════════╗";

/// The line between two rows of one band of boxes.
pub const THIN_RULE: &'static str = "  ║───┼───┼───║───┼───┼───║───┼───┼───║";

/// The line between two bands of boxes.
pub const THICK_RULE: &'static str = "  ╠═══════════╬═══════════╬═══════════╣";

/// The bottom edge of the drawn board.
pub const BOTTOM_EDGE: &'static str = "  ╚═══════════╩═══════════╩═══════════╝";

/// The drawn board from its top edge to its bottom edge, each line ended by
/// a newline but the last.
#[verifier::opaque]
pub open spec fn framed_text(grid: Seq<nat>) -> Seq<char> {
    TOP_EDGE@ + "\n"@ + row_text(row_of(grid, 0)) + THIN_RULE@ + "\n"@ + row_text(
        row_of(grid, 1),
    ) + THIN_RULE@ + "\n"@ + row_text(row_of(grid, 2)) + THICK_RULE@ + "\n"@ + row_text(
        row_of(grid, 3),
    ) + THIN_RULE@ + "\n"@ + row_text(row_of(grid, 4)) + THIN_RULE@ + "\n"@ + row_text(
        row_of(grid, 5),
    ) + THICK_RULE@ + "\n"@ + row_text(row_of(grid, 6)) + THIN_RULE@ + "\n"@ + row_text(
        row_of(grid, 7),
    ) + THIN_RULE@ + "\n"@ + row_text(row_of(grid, 8)) + BOTTOM_EDGE@
}

/// The drawn board as the search engines write it: an empty line, the
/// board, and an empty line again.
pub open spec fn pretty_text(grid: Seq<nat>) -> Seq<char> {
    "\n"@ + framed_text(grid) + "\n"@ + "\n"@
}

/// The compact form: one character for each of the 81 squares in row-major
/// order, then a newline.
pub open spec fn compact_text(grid: Seq<nat>) -> Seq<char> {
    Seq::new(81, |k: int| square_char(grid[k])) + seq!['\n']
}

/// A grid in the form that `compact` chooses.
pub open spec fn board_text(grid: Seq<nat>, compact: bool) -> Seq<char> {
    if compact {
        compact_text(grid)
    } else {
        pretty_text(grid)
    }
}

/// The texts of a list of grids, one after the other.
pub open spec fn listing_text(grids: Seq<Seq<nat>>, compact: bool) -> Seq<char>
    decreases grids.len(),
{
    if grids.len() == 0 {
        Seq::empty()
    } else {
        listing_text(grids.drop_last(), compact) + board_text(grids.last(), compact)
    }
}

/// Whether a character is white space: the characters with the Unicode
/// property `White_Space`.
pub open spec fn is_white_space(c: char) -> bool {
    let n = c as u32;
    ||| 0x09 <= n <= 0x0D
    ||| n == 0x20
    ||| n == 0x85
    ||| n == 0xA0
    ||| n == 0x1680
    ||| 0x2000 <= n <= 0x200A
    ||| n == 0x2028
    ||| n == 0x2029
    ||| n == 0x202F
    ||| n == 0x205F
    ||| n == 0x3000
}

/// The value that a character gives a square: a decimal digit gives itself,
/// anything else a blank.
pub open spec fn digit_of(c: char) -> nat {
    if '0' <= c <= '9' {
        (c as u32 - 0x30) as nat
    } else {
        0
    }
}

/// The characters of a text that are not white space, in their order.
pub open spec fn meaningful(text: Seq<char>) -> Seq<char> {
    text.filter(|c: char| !is_white_space(c))
}

/// The grid that a text describes: its first 81 meaningful characters fill
/// the squares in row-major order, and squares that the text does not reach
/// stay blank.
pub open spec fn parse_grid(text: Seq<char>) -> Seq<nat> {
    Seq::new(
        81,
        |k: int|
            if k < meaningful(text).len() {
                digit_of(meaningful(text)[k])
            } else {
                0
            },
    )
}

/// The length in characters of one board in the form that `compact`
/// chooses.
pub open spec fn board_text_len(compact: bool) -> nat {
    if compact {
        82
    } else {
        762
    }
}

/// Every board has the same length in each of the two forms.
pub proof fn lemma_board_text_len(grid: Seq<nat>, compact: bool)
    ensures
        board_text(grid, compact).len() == board_text_len(compact),
{
    if !compact {
        reveal(framed_text);
        reveal_strlit("\n");
        reveal_strlit("  ");
        reveal_strlit("║ ");
        reveal_strlit(" │ ");
        reveal_strlit(" ║ ");
        reveal_strlit(" ║");
        reveal_strlit("  ╔═══════════╦═══════════╦═══════════╗");
        reveal_strlit("  ║───┼───┼───║───┼───┼───║───┼───┼───║");
        reveal_strlit("  ╠═══════════╬═══════════╬═══════════╣");
        reveal_strlit("  ╚═══════════╩═══════════╩═══════════╝");
        lemma_row_text_len(row_of(grid, 0));
        lemma_row_text_len(row_of(grid, 1));
        lemma_row_text_len(row_of(grid, 2));
        lemma_row_text_len(row_of(grid, 3));
        lemma_row_text_len(row_of(grid, 4));
        lemma_row_text_len(row_of(grid, 5));
        lemma_row_text_len(row_of(grid, 6));
        lemma_row_text_len(row_of(grid, 7));
        lemma_row_text_len(row_of(grid, 8));
    }
}

/// A row of the drawn board has 40 characters.
proof fn lemma_row_text_len(cells: Seq<nat>)
    ensures
        row_text(cells).len() == 40,
{
    reveal_strlit("\n");
    reveal_strlit("  ");
    reveal_strlit("║ ");
    reveal_strlit(" │ ");
    reveal_strlit(" ║ ");
    reveal_strlit(" ║");
}

/// Tells whether a character is white space.
///
/// Calls `char::is_whitespace`, which is true of the characters with the
/// Unicode property `White_Space`: the contract lists them.
#[verifier::external_body]
pub(crate) fn is_whitespace(c: char) -> (r: bool)
    ensures
        r == is_white_space(c),
{
    c.is_whitespace()
}

/// Reads a character as a decimal digit.
///
/// Calls `char::to_digit` with radix 10, which gives the value of `0` to
/// `9` and nothing for any other character.
#[verifier::external_body]
pub(crate) fn decimal_digit(c: char) -> (r: Option<u32>)
    ensures
        r == (if '0' <= c <= '9' {
            Some((c as u32 - 0x30) as u32)
        } else {
            None
        }),
{
    c.to_digit(10)
}

} // verus!
