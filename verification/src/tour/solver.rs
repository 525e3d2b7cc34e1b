//! The solver's entry point: from a configuration to an outcome.

use super::board::{config_check, fresh_grid, Board, ConfigError};
use super::model::{at, cell_count, in_bounds, search};
use super::moves::{knight_offsets, knight_table, table};
use super::search::find_tour;
use super::walk::{
    extends, holds_value, is_filled, is_step, is_tour, is_walk, returns_to_start, steps_linked,
    steps_unique, values_below,
};
use vstd::prelude::*;

verus! {

/// How a search ended.
#[derive(Debug)]
pub enum TourOutcome {
    /// The board holds a tour that meets the open or closed constraint.
    Solved(Board),
    /// No tour starts at the given cell under the given constraint.
    NoSolution,
}

/// A knight can move from cell `a` to cell `b`.
pub open spec fn is_knight_move(a: (int, int), b: (int, int)) -> bool {
    let dr = b.0 - a.0;
    let dc = b.1 - a.1;
    ((dr == 1 || dr == -1) && (dc == 2 || dc == -2)) || ((dr == 2 || dr == -2) && (dc == 1 || dc
        == -1))
}

/// The steps of the knight's table are the knight's moves.
pub proof fn lemma_knight_steps(a: (int, int), b: (int, int))
    ensures
        is_step(knight_table(), a, b) <==> is_knight_move(a, b),
{
    let t = knight_table();
    let d = (b.0 - a.0, b.1 - a.1);
    if is_knight_move(a, b) {
        assert(t[0] == (-2int, -1int));
        assert(t[1] == (-1int, -2int));
        assert(t[2] == (2int, -1int));
        assert(t[3] == (1int, -2int));
        assert(t[4] == (-2int, 1int));
        assert(t[5] == (-1int, 2int));
        assert(t[6] == (2int, 1int));
        assert(t[7] == (1int, 2int));
    }
}

/// In a tour every cell holds a step, and every step from 0 to the last
/// stands in exactly one cell.
pub proof fn lemma_tour_is_permutation(g: Seq<Seq<int>>, offs: Seq<(int, int)>, closed: bool)
    requires
        is_tour(g, offs, closed),
    ensures
        forall|r: int, c: int| in_bounds(g, r, c) ==> 0 <= #[trigger] at(g, r, c) < cell_count(g),
        forall|v: int| 0 <= v < cell_count(g) ==> #[trigger] holds_value(g, v),
        steps_unique(g),
{
    assert(values_below(g, cell_count(g)));
    assert forall|r: int, c: int| in_bounds(g, r, c) implies 0 <= #[trigger] at(g, r, c)
        < cell_count(g) by {
        assert(values_below(g, cell_count(g)));
    }
}

/// In a knight's tour the cells of consecutive steps are a knight's move
/// apart.
pub proof fn lemma_knight_tour_steps(
    g: Seq<Seq<int>>,
    closed: bool,
    r1: int,
    c1: int,
    r2: int,
    c2: int,
)
    requires
        is_tour(g, knight_table(), closed),
        in_bounds(g, r1, c1),
        in_bounds(g, r2, c2),
        at(g, r2, c2) == at(g, r1, c1) + 1,
    ensures
        is_knight_move((r1, c1), (r2, c2)),
{
    assert(is_filled(g));
    assert(at(g, r1, c1) >= 0);
    assert(steps_linked(g, knight_table()));
    lemma_knight_steps((r1, c1), (r2, c2));
}

/// In a closed knight's tour the cell of the last step is a knight's move
/// away from the start cell.
pub proof fn lemma_closed_knight_tour_returns(g: Seq<Seq<int>>, r1: int, c1: int, r2: int, c2: int)
    requires
        is_tour(g, knight_table(), true),
        in_bounds(g, r1, c1),
        in_bounds(g, r2, c2),
        at(g, r1, c1) == cell_count(g) - 1,
        at(g, r2, c2) == 0,
    ensures
        is_knight_move((r1, c1), (r2, c2)),
{
    assert(returns_to_start(g, knight_table()));
    lemma_knight_steps((r1, c1), (r2, c2));
}

/// A board with only its start cell visited records a walk of one cell.
pub proof fn lemma_fresh_grid_is_walk(n: int, row: int, col: int, offs: Seq<(int, int)>)
    requires
        0 <= row < n,
        0 <= col < n,
    ensures
        is_walk(fresh_grid(n, row, col), offs, 1),
        in_bounds(fresh_grid(n, row, col), row, col),
        at(fresh_grid(n, row, col), row, col) == 0,
        fresh_grid(n, row, col).len() == n,
{
    let g = fresh_grid(n, row, col);
    assert(in_bounds(g, row, col) && at(g, row, col) == 0);
    assert(holds_value(g, 0));
    assert(values_below(g, 1));
    assert(steps_unique(g));
    assert(steps_linked(g, offs));
}

/// Searches a knight's tour of the board of side `size` that starts at
/// `(start_row, start_col)`; a closed tour, if `closed` is set. An invalid
/// configuration is refused before any search.
pub fn solve(size: i32, start_row: i32, start_col: i32, closed: bool) -> (res: Result<
    TourOutcome,
    ConfigError,
>)
    ensures
        match res {
            Err(e) => config_check(size as int, start_row as int, start_col as int) == Some(e),
            Ok(outcome) => {
                let start = fresh_grid(size as int, start_row as int, start_col as int);
                &&& config_check(size as int, start_row as int, start_col as int).is_none()
                &&& match outcome {
                    TourOutcome::Solved(b) => {
                        &&& b.wf()
                        &&& is_tour(b@, knight_table(), closed)
                        &&& extends(start, b@)
                        &&& search(
                            start,
                            knight_table(),
                            start_row as int,
                            start_col as int,
                            1,
                            cell_count(start),
                            closed,
                        ) == Some(b@)
                    },
                    TourOutcome::NoSolution => forall|t: Seq<Seq<int>>|
                        is_tour(t, knight_table(), closed) ==> !#[trigger] extends(start, t),
                }
            },
        },
{
    let mut board = match Board::new(size, start_row, start_col) {
        Ok(b) => b,
        Err(e) => {
            return Err(e);
        },
    };
    let offsets = knight_offsets();
    proof {
        lemma_fresh_grid_is_walk(size as int, start_row as int, start_col as int, table(&offsets));
        board.lemma_wf();
    }
    if find_tour(&mut board, &offsets, start_row, start_col, 1, closed) {
        Ok(TourOutcome::Solved(board))
    } else {
        Ok(TourOutcome::NoSolution)
    }
}

} // verus!
