//! Single moves: the offset table and the test of one offset on the board.

use super::board::Board;
use super::model::{at, in_bounds, UNVISITED};
use vstd::prelude::*;

verus! {

/// The offset table as a sequence of `(row, column)` deltas.
pub open spec fn table(offsets: &[[i32; 2]; 8]) -> Seq<(int, int)> {
    Seq::new(8, |i: int| (offsets@[i]@[0] as int, offsets@[i]@[1] as int))
}

/// The eight moves of a knight, in the order the search enumerates them.
pub open spec fn knight_table() -> Seq<(int, int)> {
    seq![
        (-2int, -1int),
        (-1int, -2int),
        (2int, -1int),
        (1int, -2int),
        (-2int, 1int),
        (-1int, 2int),
        (2int, 1int),
        (1int, 2int),
    ]
}

/// The knight's offset table.
pub fn knight_offsets() -> (t: [[i32; 2]; 8])
    ensures
        table(&t) == knight_table(),
{
    let t: [[i32; 2]; 8] = [
        [-2, -1],
        [-1, -2],
        [2, -1],
        [1, -2],
        [-2, 1],
        [-1, 2],
        [2, 1],
        [1, 2],
    ];
    assert(table(&t) =~= knight_table());
    t
}

/// The cell that `offset` leads to from `(row, col)`, if it lies on the board
/// and holds `target_value`.
pub fn find_fields(
    board: &Board,
    row: &i32,
    col: &i32,
    offset: &[i32; 2],
    target_value: &i32,
) -> (res: Option<(usize, usize)>)
    requires
        board.wf(),
    ensures
        ({
            let r = *row + offset@[0];
            let c = *col + offset@[1];
            if in_bounds(board@, r, c) && at(board@, r, c) == *target_value {
                res == Some((r as usize, c as usize))
            } else {
                res.is_none()
            }
        }),
{
    proof {
        board.lemma_wf();
    }
    let n: i64 = board.size() as i64;
    let new_row: i64 = *row as i64 + offset[0] as i64;
    let new_col: i64 = *col as i64 + offset[1] as i64;
    if 0 <= new_row && new_row < n && 0 <= new_col && new_col < n && board.get(
        new_row as usize,
        new_col as usize,
    ) == *target_value {
        return Some((new_row as usize, new_col as usize));
    }
    None
}

/// The cell that `offset` leads to from `(row, col)`, if it lies on the board
/// and has not been visited.
pub fn find_possible_moves(board: &Board, row: &i32, col: &i32, offset: &[i32; 2]) -> (res: Option<
    (usize, usize),
>)
    requires
        board.wf(),
    ensures
        ({
            let r = *row + offset@[0];
            let c = *col + offset@[1];
            if in_bounds(board@, r, c) && at(board@, r, c) == UNVISITED {
                res == Some((r as usize, c as usize))
            } else {
                res.is_none()
            }
        }),
{
    find_fields(board, row, col, offset, &UNVISITED)
}

/// Whether `offset` leads from `(row, col)` back to the start cell.
pub fn is_end_of_cyclic_tour(board: &Board, row: &i32, col: &i32, offset: &[i32; 2]) -> (res: bool)
    requires
        board.wf(),
    ensures
        res == (in_bounds(board@, *row + offset@[0], *col + offset@[1]) && at(
            board@,
            *row + offset@[0],
            *col + offset@[1],
        ) == 0),
{
    find_fields(board, row, col, offset, &0).is_some()
}

} // verus!
