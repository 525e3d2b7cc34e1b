//! The mathematical model of a board and of the search that runs on it.
//!
//! A grid is a sequence of rows of integers. A cell holds `UNVISITED` or the
//! step at which the walk reached it, counted from 0 at the start cell.

use vstd::prelude::*;

verus! {

/// The value of a cell that the walk has not reached.
pub const UNVISITED: i32 = -1;

/// Every row is as long as the grid has rows.
pub open spec fn is_square(g: Seq<Seq<int>>) -> bool {
    forall|r: int| 0 <= r < g.len() ==> (#[trigger] g[r]).len() == g.len()
}

/// `(r, c)` names a cell of the grid.
pub open spec fn in_bounds(g: Seq<Seq<int>>, r: int, c: int) -> bool {
    0 <= r < g.len() && 0 <= c < g.len()
}

/// The value of cell `(r, c)`.
pub open spec fn at(g: Seq<Seq<int>>, r: int, c: int) -> int {
    g[r][c]
}

/// The grid with cell `(r, c)` set to `v` and every other cell as it was.
pub open spec fn mark(g: Seq<Seq<int>>, r: int, c: int, v: int) -> Seq<Seq<int>> {
    Seq::new(
        g.len(),
        |i: int|
            Seq::new(
                g[i].len(),
                |j: int|
                    if i == r && j == c {
                        v
                    } else {
                        g[i][j]
                    },
            ),
    )
}

/// The number of cells of the grid.
pub open spec fn cell_count(g: Seq<Seq<int>>) -> int {
    (g.len() * g.len()) as int
}

/// The cell that offset `i` of the table leads to from `(r, c)`.
pub open spec fn target(offs: Seq<(int, int)>, r: int, c: int, i: int) -> (int, int) {
    (r + offs[i].0, c + offs[i].1)
}

/// Offset `i` leads from `(r, c)` to a cell of the grid that holds `value`.
pub open spec fn lands_on(
    g: Seq<Seq<int>>,
    offs: Seq<(int, int)>,
    r: int,
    c: int,
    i: int,
    value: int,
) -> bool {
    let t = target(offs, r, c, i);
    in_bounds(g, t.0, t.1) && at(g, t.0, t.1) == value
}

/// The unvisited cells that the first `i` offsets lead to from `(r, c)`, in
/// table order.
pub open spec fn moves_upto(g: Seq<Seq<int>>, offs: Seq<(int, int)>, r: int, c: int, i: int) -> Seq<
    (int, int),
>
    decreases i,
{
    if i <= 0 {
        Seq::empty()
    } else if lands_on(g, offs, r, c, i - 1, UNVISITED as int) {
        moves_upto(g, offs, r, c, i - 1).push(target(offs, r, c, i - 1))
    } else {
        moves_upto(g, offs, r, c, i - 1)
    }
}

/// All unvisited cells one move away from `(r, c)`, in table order.
pub open spec fn moves(g: Seq<Seq<int>>, offs: Seq<(int, int)>, r: int, c: int) -> Seq<(int, int)> {
    moves_upto(g, offs, r, c, offs.len() as int)
}

/// The number of onward moves from `(r, c)`.
pub open spec fn onward_degree(g: Seq<Seq<int>>, offs: Seq<(int, int)>, p: (int, int)) -> nat {
    moves(g, offs, p.0, p.1).len()
}

/// `x` put into a sequence ordered by onward degree, behind every cell whose
/// degree is not larger.
pub open spec fn insert_by_degree(
    g: Seq<Seq<int>>,
    offs: Seq<(int, int)>,
    sorted: Seq<(int, int)>,
    x: (int, int),
) -> Seq<(int, int)>
    decreases sorted.len(),
{
    if sorted.len() == 0 || onward_degree(g, offs, sorted.last()) <= onward_degree(g, offs, x) {
        sorted.push(x)
    } else {
        insert_by_degree(g, offs, sorted.drop_last(), x).push(sorted.last())
    }
}

/// The cells of `s` in ascending order of onward degree; cells of equal
/// degree keep the order they have in `s`.
pub open spec fn order_by_degree(g: Seq<Seq<int>>, offs: Seq<(int, int)>, s: Seq<(int, int)>) -> Seq<
    (int, int),
>
    decreases s.len(),
{
    if s.len() == 0 {
        s
    } else {
        insert_by_degree(g, offs, order_by_degree(g, offs, s.drop_last()), s.last())
    }
}

/// The moves from `(r, c)` in the order the search tries them: fewest onward
/// moves first, ties in table order.
pub open spec fn warnsdorff_moves(g: Seq<Seq<int>>, offs: Seq<(int, int)>, r: int, c: int) -> Seq<
    (int, int),
> {
    order_by_degree(g, offs, moves(g, offs, r, c))
}

/// Some offset leads from `(r, c)` to the start cell, the one that holds 0.
pub open spec fn closes(g: Seq<Seq<int>>, offs: Seq<(int, int)>, r: int, c: int) -> bool {
    exists|i: int| 0 <= i < offs.len() && #[trigger] lands_on(g, offs, r, c, i, 0)
}

/// What the search returns when it stands on `(r, c)` with `k` of `goal`
/// cells visited: the finished grid, or `None` when every branch fails.
pub open spec fn search(
    g: Seq<Seq<int>>,
    offs: Seq<(int, int)>,
    r: int,
    c: int,
    k: int,
    goal: int,
    closed: bool,
) -> Option<Seq<Seq<int>>>
    decreases goal - k, 1int, 0int,
{
    if k >= goal {
        if !closed || closes(g, offs, r, c) {
            Some(g)
        } else {
            None
        }
    } else {
        try_moves(g, offs, warnsdorff_moves(g, offs, r, c), 0, k, goal, closed)
    }
}

/// The search over the candidates `cands[j..]`, each marked with `k` in turn.
pub open spec fn try_moves(
    g: Seq<Seq<int>>,
    offs: Seq<(int, int)>,
    cands: Seq<(int, int)>,
    j: int,
    k: int,
    goal: int,
    closed: bool,
) -> Option<Seq<Seq<int>>>
    decreases goal - k, 0int, cands.len() - j,
{
    if j < 0 || j >= cands.len() || k >= goal {
        None
    } else {
        let p = cands[j];
        match search(mark(g, p.0, p.1, k), offs, p.0, p.1, k + 1, goal, closed) {
            Some(t) => Some(t),
            None => try_moves(g, offs, cands, j + 1, k, goal, closed),
        }
    }
}

} // verus!
