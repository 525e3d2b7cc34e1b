//! What it means for a grid to record a walk, and a finished tour.

use super::model::{at, cell_count, in_bounds, is_square, mark, UNVISITED};
use vstd::prelude::*;

verus! {

/// One offset of the table leads from cell `a` to cell `b`.
pub open spec fn is_step(offs: Seq<(int, int)>, a: (int, int), b: (int, int)) -> bool {
    exists|i: int| 0 <= i < offs.len() && #[trigger] offs[i] == (b.0 - a.0, b.1 - a.1)
}

/// Some cell of the grid holds `v`.
pub open spec fn holds_value(g: Seq<Seq<int>>, v: int) -> bool {
    exists|r: int, c: int| in_bounds(g, r, c) && #[trigger] at(g, r, c) == v
}

/// Every cell holds `UNVISITED` or a step below `k`.
pub open spec fn values_below(g: Seq<Seq<int>>, k: int) -> bool {
    forall|r: int, c: int| in_bounds(g, r, c) ==> UNVISITED <= #[trigger] at(g, r, c) < k
}

/// No step number stands in two cells.
pub open spec fn steps_unique(g: Seq<Seq<int>>) -> bool {
    forall|r1: int, c1: int, r2: int, c2: int|
        in_bounds(g, r1, c1) && in_bounds(g, r2, c2) && #[trigger] at(g, r1, c1) == #[trigger] at(
            g,
            r2,
            c2,
        ) && at(g, r1, c1) >= 0 ==> r1 == r2 && c1 == c2
}

/// The cells of consecutive steps are one move apart.
pub open spec fn steps_linked(g: Seq<Seq<int>>, offs: Seq<(int, int)>) -> bool {
    forall|r1: int, c1: int, r2: int, c2: int|
        in_bounds(g, r1, c1) && in_bounds(g, r2, c2) && #[trigger] at(g, r1, c1) >= 0
            && #[trigger] at(g, r2, c2) == at(g, r1, c1) + 1 ==> is_step(offs, (r1, c1), (r2, c2))
}

/// The grid records a walk of `k` cells: each step `0..k` stands in exactly
/// one cell, every other cell is unvisited, and consecutive steps are one
/// move apart.
pub open spec fn is_walk(g: Seq<Seq<int>>, offs: Seq<(int, int)>, k: int) -> bool {
    &&& is_square(g)
    &&& values_below(g, k)
    &&& forall|v: int| 0 <= v < k ==> #[trigger] holds_value(g, v)
    &&& steps_unique(g)
    &&& steps_linked(g, offs)
}

/// No cell is left unvisited.
pub open spec fn is_filled(g: Seq<Seq<int>>) -> bool {
    forall|r: int, c: int| in_bounds(g, r, c) ==> 0 <= #[trigger] at(g, r, c)
}

/// The cell of the last step is one move away from the start cell.
pub open spec fn returns_to_start(g: Seq<Seq<int>>, offs: Seq<(int, int)>) -> bool {
    forall|r1: int, c1: int, r2: int, c2: int|
        in_bounds(g, r1, c1) && in_bounds(g, r2, c2) && #[trigger] at(g, r1, c1) == cell_count(g)
            - 1 && #[trigger] at(g, r2, c2) == 0 ==> is_step(offs, (r1, c1), (r2, c2))
}

/// The grid is a finished tour: a walk over all of its cells, which in a
/// closed tour ends one move away from where it began.
pub open spec fn is_tour(g: Seq<Seq<int>>, offs: Seq<(int, int)>, closed: bool) -> bool {
    &&& is_walk(g, offs, cell_count(g))
    &&& is_filled(g)
    &&& closed ==> returns_to_start(g, offs)
}

/// `t` has the size of `g` and keeps every step that `g` records.
pub open spec fn extends(g: Seq<Seq<int>>, t: Seq<Seq<int>>) -> bool {
    &&& t.len() == g.len()
    &&& forall|r: int, c: int|
        in_bounds(g, r, c) && #[trigger] at(g, r, c) >= 0 ==> at(t, r, c) == at(g, r, c)
}

/// Marking a cell of a square grid changes that cell and no other.
pub proof fn lemma_mark(g: Seq<Seq<int>>, r: int, c: int, v: int)
    requires
        is_square(g),
    ensures
        is_square(mark(g, r, c, v)),
        mark(g, r, c, v).len() == g.len(),
        forall|i: int, j: int|
            in_bounds(g, i, j) ==> #[trigger] at(mark(g, r, c, v), i, j) == (if i == r && j == c {
                v
            } else {
                at(g, i, j)
            }),
{
    let m = mark(g, r, c, v);
    assert forall|i: int| 0 <= i < m.len() implies (#[trigger] m[i]).len() == m.len() by {
        assert(g[i].len() == g.len());
    }
    assert forall|i: int, j: int| in_bounds(g, i, j) implies #[trigger] at(m, i, j) == (if i == r
        && j == c {
        v
    } else {
        at(g, i, j)
    }) by {
        assert(g[i].len() == g.len());
    }
}

/// A walk of `k` cells that stands on `(r, c)` and moves to an unvisited cell
/// `p` becomes a walk of `k + 1` cells.
pub proof fn lemma_walk_grows(
    g: Seq<Seq<int>>,
    offs: Seq<(int, int)>,
    r: int,
    c: int,
    k: int,
    p: (int, int),
)
    requires
        is_walk(g, offs, k),
        k >= 1,
        in_bounds(g, r, c),
        at(g, r, c) == k - 1,
        in_bounds(g, p.0, p.1),
        at(g, p.0, p.1) == UNVISITED,
        is_step(offs, (r, c), p),
    ensures
        is_walk(mark(g, p.0, p.1, k), offs, k + 1),
        at(mark(g, p.0, p.1, k), p.0, p.1) == k,
        extends(g, mark(g, p.0, p.1, k)),
{
    let m = mark(g, p.0, p.1, k);
    lemma_mark(g, p.0, p.1, k);
    assert(values_below(m, k + 1)) by {
        assert forall|i: int, j: int| in_bounds(m, i, j) implies UNVISITED <= #[trigger] at(
            m,
            i,
            j,
        ) < k + 1 by {
            assert(UNVISITED <= at(g, i, j) < k);
        }
    }
    assert forall|v: int| 0 <= v < k + 1 implies #[trigger] holds_value(m, v) by {
        if v == k {
            assert(in_bounds(m, p.0, p.1) && at(m, p.0, p.1) == v);
        } else {
            assert(holds_value(g, v));
            let (i, j) = choose|i: int, j: int| in_bounds(g, i, j) && #[trigger] at(g, i, j) == v;
            assert(in_bounds(m, i, j) && at(m, i, j) == v);
        }
    }
    assert(steps_unique(m)) by {
        assert forall|r1: int, c1: int, r2: int, c2: int|
            in_bounds(m, r1, c1) && in_bounds(m, r2, c2) && #[trigger] at(m, r1, c1)
                == #[trigger] at(m, r2, c2) && at(m, r1, c1) >= 0 implies r1 == r2 && c1 == c2 by {
            assert(UNVISITED <= at(g, r1, c1) < k);
            assert(UNVISITED <= at(g, r2, c2) < k);
            if (r1 == p.0 && c1 == p.1) || (r2 == p.0 && c2 == p.1) {
            } else {
                assert(at(g, r1, c1) == at(g, r2, c2));
            }
        }
    }
    assert(steps_linked(m, offs)) by {
        assert forall|r1: int, c1: int, r2: int, c2: int|
            in_bounds(m, r1, c1) && in_bounds(m, r2, c2) && #[trigger] at(m, r1, c1) >= 0
                && #[trigger] at(m, r2, c2) == at(m, r1, c1) + 1 implies is_step(
            offs,
            (r1, c1),
            (r2, c2),
        ) by {
            assert(UNVISITED <= at(g, r1, c1) < k);
            assert(UNVISITED <= at(g, r2, c2) < k);
            if r2 == p.0 && c2 == p.1 {
                assert(at(g, r1, c1) == at(g, r, c));
            } else if r1 == p.0 && c1 == p.1 {
            } else {
                assert(at(g, r2, c2) == at(g, r1, c1) + 1);
            }
        }
    }
}

} // verus!
