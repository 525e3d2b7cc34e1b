//! The board as text: one line per row, each cell right-justified.

use super::board::Board;
use super::model::at;
use crate::text::{justified, push_justified};
use vstd::prelude::*;
use vstd::string::StringExecFns;

verus! {

/// The width of the field that holds a cell's number.
pub const FIELD_WIDTH: usize = 3;

/// The first `c` cells of row `r`: each number right-justified in its
/// field and followed by a space.
pub open spec fn row_text(g: Seq<Seq<int>>, r: int, c: int) -> Seq<char>
    decreases c,
{
    if c <= 0 {
        Seq::empty()
    } else {
        row_text(g, r, c - 1) + justified(at(g, r, c - 1), FIELD_WIDTH as int) + seq![' ']
    }
}

/// The first `r` rows, each ended by a line feed.
pub open spec fn grid_text(g: Seq<Seq<int>>, r: int) -> Seq<char>
    decreases r,
{
    if r <= 0 {
        Seq::empty()
    } else {
        grid_text(g, r - 1) + row_text(g, r - 1, g.len() as int) + seq!['\n']
    }
}

/// The board as text: rows ended by line feeds, cells separated by spaces,
/// each number right-justified in a field of three characters.
pub fn dump_board(board: &Board) -> (text: String)
    requires
        board.wf(),
    ensures
        text@ == grid_text(board@, board@.len() as int),
{
    proof {
        reveal_strlit(" ");
        reveal_strlit("\n");
    }
    let n: usize = board.size();
    let mut text = String::new();
    let mut r: usize = 0;
    assert(text@ =~= grid_text(board@, 0));
    while r < n
        invariant
            r <= n == board@.len(),
            board.wf(),
            " "@ == seq![' '],
            "\n"@ == seq!['\n'],
            text@ == grid_text(board@, r as int),
        decreases n - r,
    {
        let ghost done = text@;
        let mut c: usize = 0;
        assert(text@ =~= done + row_text(board@, r as int, 0));
        while c < n
            invariant
                c <= n == board@.len(),
                r < n,
                board.wf(),
                " "@ == seq![' '],
                text@ == done + row_text(board@, r as int, c as int),
            decreases n - c,
        {
            let ghost before = text@;
            push_justified(&mut text, board.get(r, c) as i64, FIELD_WIDTH);
            text.append(" ");
            c += 1;
            assert(text@ =~= done + row_text(board@, r as int, c as int));
        }
        text.append("\n");
        r += 1;
        assert(text@ =~= grid_text(board@, r as int));
    }
    text
}

} // verus!
