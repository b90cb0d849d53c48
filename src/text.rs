use vstd::prelude::*;

use crate::board::{color_of_round, grid, Board, Stone, BOARD_SIZE};
use crate::game::GameContext;

verus! {

/// The glyph of a stone on a drawn board.
pub open spec fn stone_glyph(s: Stone) -> char {
    match s {
        Stone::Black => '●',
        Stone::White => '○',
    }
}

/// A row of glyphs, one space between two neighbors.
pub open spec fn spaced(row: Seq<char>) -> Seq<char>
    decreases row.len(),
{
    if row.len() <= 1 {
        row
    } else {
        spaced(row.drop_last()) + seq![' ', row.last()]
    }
}

/// Rows of glyphs as text: spaced rows, one line each.
pub open spec fn lines(rows: Seq<Seq<char>>) -> Seq<char>
    decreases rows.len(),
{
    if rows.len() == 0 {
        Seq::empty()
    } else if rows.len() == 1 {
        spaced(rows[0])
    } else {
        lines(rows.drop_last()) + seq!['\n'] + spaced(rows.last())
    }
}

/// Column and row glyphs of a plain drawing of the board: 0 to 7.
pub open spec fn zero_based_glyphs() -> Seq<char> {
    seq!['0', '1', '2', '3', '4', '5', '6', '7']
}

/// Column and row glyphs of a board drawn for a person: 1 to 8.
pub open spec fn index_glyphs() -> Seq<char> {
    seq!['1', '2', '3', '4', '5', '6', '7', '8']
}

/// The rows of characters that a vector of vectors holds.
pub open spec fn rows_of(v: Seq<Vec<char>>) -> Seq<Seq<char>> {
    Seq::new(v.len(), |i: int| v[i]@)
}

/// Relies on String::push: appends one char to the end of the string.
#[verifier::external_body]
fn push_char(s: &mut String, c: char)
    ensures
        final(s)@ == old(s)@.push(c),
{
    s.push(c)
}

impl Stone {
    /// The glyph with which this stone is drawn.
    pub fn glyph(&self) -> (r: char)
        ensures
            r == stone_glyph(*self),
    {
        match self {
            Stone::Black => '●',
            Stone::White => '○',
        }
    }
}

/// Rows of glyphs joined into text.
pub fn join_lines(rows: &Vec<Vec<char>>) -> (r: String)
    ensures
        r@ == lines(rows_of(rows@)),
{
    let ghost g = rows_of(rows@);
    let mut out = String::new();
    let mut i: usize = 0;
    while i < rows.len()
        invariant
            i <= rows@.len(),
            g == rows_of(rows@),
            out@ == lines(g.subrange(0, i as int)),
        decreases rows@.len() - i,
    {
        let row = &rows[i];
        assert(row@ == g[i as int]);
        let ghost before = out@;
        if i > 0 {
            push_char(&mut out, '\n');
        }
        let ghost lead = out@;
        let mut j: usize = 0;
        while j < row.len()
            invariant
                j <= row@.len(),
                out@ == lead + spaced(row@.subrange(0, j as int)),
            decreases row@.len() - j,
        {
            if j > 0 {
                push_char(&mut out, ' ');
            }
            push_char(&mut out, row[j]);
            assert(row@.subrange(0, j + 1).drop_last() =~= row@.subrange(0, j as int));
            assert(out@ =~= lead + spaced(row@.subrange(0, j + 1)));
            j += 1;
        }
        assert(row@.subrange(0, row@.len() as int) =~= row@);
        assert(g.subrange(0, i + 1).drop_last() =~= g.subrange(0, i as int));
        assert(out@ =~= lines(g.subrange(0, i + 1)));
        i += 1;
    }
    assert(g.subrange(0, g.len() as int) =~= g);
    out
}

/// The board of `ctx` as a person sees it: stones as glyphs, empty cells as
/// `+`, the legal moves of the side on turn as `@`, and rows and columns
/// numbered 1 to 8.
pub fn format_board(ctx: &GameContext) -> (r: String)
    ensures
        exists|index: [char; 8]|
            index@ == index_glyphs() && r@ == lines(
                #[trigger] grid(
                    ctx.board@,
                    '+',
                    stone_glyph(Stone::Black),
                    stone_glyph(Stone::White),
                    '@',
                    Some(color_of_round(ctx.round as int)),
                    Some(index),
                    Some(index),
                ),
            ),
{
    let index: [char; BOARD_SIZE] = ['1', '2', '3', '4', '5', '6', '7', '8'];
    assert(index@ =~= index_glyphs());
    let rows = ctx.board.format(
        '+',
        Stone::Black.glyph(),
        Stone::White.glyph(),
        '@',
        Some(Stone::from_round(ctx.round)),
        Some(index),
        Some(index),
    );
    assert(rows_of(rows@) =~= grid(
        ctx.board@,
        '+',
        stone_glyph(Stone::Black),
        stone_glyph(Stone::White),
        '@',
        Some(color_of_round(ctx.round as int)),
        Some(index),
        Some(index),
    ));
    join_lines(&rows)
}

/// A plain drawing of `board`: stones as glyphs, empty cells as `+`, rows
/// and columns numbered 0 to 7, and no hints.
pub fn board_text(board: &Board) -> (r: String)
    ensures
        exists|index: [char; 8]|
            index@ == zero_based_glyphs() && r@ == lines(
                #[trigger] grid(
                    board@,
                    '+',
                    stone_glyph(Stone::Black),
                    stone_glyph(Stone::White),
                    '@',
                    None,
                    Some(index),
                    Some(index),
                ),
            ),
{
    let index: [char; BOARD_SIZE] = ['0', '1', '2', '3', '4', '5', '6', '7'];
    assert(index@ =~= zero_based_glyphs());
    let rows = board.format('+', Stone::Black.glyph(), Stone::White.glyph(), '@', None, Some(index), Some(index));
    assert(rows_of(rows@) =~= grid(
        board@,
        '+',
        stone_glyph(Stone::Black),
        stone_glyph(Stone::White),
        '@',
        None,
        Some(index),
        Some(index),
    ));
    join_lines(&rows)
}

} // verus!
