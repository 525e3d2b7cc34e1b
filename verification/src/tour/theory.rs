//! What the search finds: whatever it returns is a tour that keeps the walk
//! so far, and it returns one whenever one exists.

use super::model::{
    at, cell_count, in_bounds, insert_by_degree, is_square, lands_on, mark, moves, moves_upto,
    onward_degree, order_by_degree, search, target, try_moves, warnsdorff_moves, UNVISITED,
};
use super::walk::{
    extends, holds_value, is_filled, is_step, is_tour, is_walk, lemma_mark, lemma_walk_grows,
};
use vstd::arithmetic::div_mod::lemma_fundamental_div_mod_converse;
use vstd::prelude::*;
use vstd::seq_lib::group_to_multiset_ensures;

verus! {

/// `p` is an unvisited cell of the grid one move away from `(r, c)`.
pub open spec fn is_move(g: Seq<Seq<int>>, offs: Seq<(int, int)>, r: int, c: int, p: (int, int)) -> bool {
    exists|i: int|
        0 <= i < offs.len() && #[trigger] lands_on(g, offs, r, c, i, UNVISITED as int) && p
            == target(offs, r, c, i)
}

/// A sequence of length `m` in which each of `0..m` occurs holds nothing else.
proof fn lemma_covering_is_exact(s: Seq<int>)
    requires
        forall|v: int| 0 <= v < s.len() ==> #[trigger] s.contains(v),
    ensures
        forall|i: int| 0 <= i < s.len() ==> 0 <= #[trigger] s[i] < s.len(),
    decreases s.len(),
{
    if s.len() > 0 {
        let m = s.len() - 1;
        assert(s.contains(m));
        let j = choose|j: int| 0 <= j < s.len() && s[j] == m;
        let rest = s.update(j, s.last()).drop_last();
        assert forall|v: int| 0 <= v < rest.len() implies #[trigger] rest.contains(v) by {
            assert(s.contains(v));
            let i = choose|i: int| 0 <= i < s.len() && s[i] == v;
            if i == m {
                assert(rest[j] == v);
            } else {
                assert(rest[i] == v);
            }
        }
        lemma_covering_is_exact(rest);
        assert forall|i: int| 0 <= i < s.len() implies 0 <= #[trigger] s[i] < s.len() by {
            if i == j {
            } else if i == m {
                assert(rest[j] == s[i]);
            } else {
                assert(rest[i] == s[i]);
            }
        }
    }
}

/// A walk over as many cells as the grid has leaves none unvisited.
pub proof fn lemma_full_walk_is_filled(g: Seq<Seq<int>>, offs: Seq<(int, int)>)
    requires
        is_walk(g, offs, cell_count(g)),
    ensures
        is_filled(g),
{
    let n = g.len() as int;
    let flat = Seq::new((n * n) as nat, |i: int| at(g, i / n, i % n));
    assert forall|v: int| 0 <= v < flat.len() implies #[trigger] flat.contains(v) by {
        assert(holds_value(g, v));
        let (r, c) = choose|r: int, c: int| in_bounds(g, r, c) && #[trigger] at(g, r, c) == v;
        let i = r * n + c;
        assert(0 <= i < n * n) by (nonlinear_arith)
            requires
                0 <= r < n,
                0 <= c < n,
                i == r * n + c,
        ;
        lemma_fundamental_div_mod_converse(i, n, r, c);
        assert(flat[i] == v);
    }
    lemma_covering_is_exact(flat);
    assert forall|r: int, c: int| in_bounds(g, r, c) implies 0 <= #[trigger] at(g, r, c) by {
        let i = r * n + c;
        assert(0 <= i < n * n) by (nonlinear_arith)
            requires
                0 <= r < n,
                0 <= c < n,
                i == r * n + c,
        ;
        lemma_fundamental_div_mod_converse(i, n, r, c);
        assert(flat[i] == at(g, r, c));
    }
}

/// The moves collected from the first `i` offsets are the targets of those
/// among them that land on an unvisited cell.
proof fn lemma_moves_upto_contains(
    g: Seq<Seq<int>>,
    offs: Seq<(int, int)>,
    r: int,
    c: int,
    i: int,
    p: (int, int),
)
    requires
        0 <= i <= offs.len(),
    ensures
        moves_upto(g, offs, r, c, i).contains(p) <==> exists|t: int|
            0 <= t < i && #[trigger] lands_on(g, offs, r, c, t, UNVISITED as int) && p == target(
                offs,
                r,
                c,
                t,
            ),
    decreases i,
{
    if i > 0 {
        lemma_moves_upto_contains(g, offs, r, c, i - 1, p);
        let prev = moves_upto(g, offs, r, c, i - 1);
        let now = moves_upto(g, offs, r, c, i);
        if lands_on(g, offs, r, c, i - 1, UNVISITED as int) {
            let x = target(offs, r, c, i - 1);
            assert(now == prev.push(x));
            if now.contains(p) {
                let idx = choose|idx: int| 0 <= idx < now.len() && now[idx] == p;
                if idx < prev.len() {
                    assert(prev[idx] == p);
                    assert(prev.contains(p));
                } else {
                    assert(p == x);
                }
            }
            if prev.contains(p) {
                let idx = choose|idx: int| 0 <= idx < prev.len() && prev[idx] == p;
                assert(now[idx] == p);
            }
            if p == x {
                assert(now[prev.len() as int] == p);
            }
        }
    }
}

/// The moves from a cell are exactly the unvisited cells one move away.
pub proof fn lemma_moves_are_the_moves(
    g: Seq<Seq<int>>,
    offs: Seq<(int, int)>,
    r: int,
    c: int,
    p: (int, int),
)
    ensures
        moves(g, offs, r, c).contains(p) <==> is_move(g, offs, r, c, p),
{
    lemma_moves_upto_contains(g, offs, r, c, offs.len() as int, p);
}

/// Inserting by degree adds the new cell and keeps the others.
proof fn lemma_insert_is_permutation(
    g: Seq<Seq<int>>,
    offs: Seq<(int, int)>,
    sorted: Seq<(int, int)>,
    x: (int, int),
)
    ensures
        insert_by_degree(g, offs, sorted, x).to_multiset() == sorted.to_multiset().insert(x),
    decreases sorted.len(),
{
    broadcast use group_to_multiset_ensures;

    if sorted.len() == 0 || onward_degree(g, offs, sorted.last()) <= onward_degree(g, offs, x) {
    } else {
        let front = sorted.drop_last();
        lemma_insert_is_permutation(g, offs, front, x);
        assert(sorted == front.push(sorted.last()));
        assert(insert_by_degree(g, offs, sorted, x).to_multiset() =~= sorted.to_multiset().insert(
            x,
        ));
    }
}

/// Ordering by degree rearranges the cells: none is lost, none is added.
pub proof fn lemma_order_is_permutation(g: Seq<Seq<int>>, offs: Seq<(int, int)>, s: Seq<(int, int)>)
    ensures
        order_by_degree(g, offs, s).to_multiset() == s.to_multiset(),
    decreases s.len(),
{
    broadcast use group_to_multiset_ensures;

    if s.len() > 0 {
        lemma_order_is_permutation(g, offs, s.drop_last());
        lemma_insert_is_permutation(g, offs, order_by_degree(g, offs, s.drop_last()), s.last());
        assert(s == s.drop_last().push(s.last()));
    }
}

/// The onward degrees of the cells of `s` do not fall.
pub open spec fn ascends_by_degree(g: Seq<Seq<int>>, offs: Seq<(int, int)>, s: Seq<(int, int)>) -> bool {
    forall|i: int, j: int|
        0 <= i <= j < s.len() ==> onward_degree(g, offs, s[i]) <= onward_degree(g, offs, s[j])
}

/// The cells of `s` whose onward degree is `d`, in their order.
pub open spec fn with_degree(
    g: Seq<Seq<int>>,
    offs: Seq<(int, int)>,
    s: Seq<(int, int)>,
    d: nat,
) -> Seq<(int, int)>
    decreases s.len(),
{
    if s.len() == 0 {
        s
    } else if onward_degree(g, offs, s.last()) == d {
        with_degree(g, offs, s.drop_last(), d).push(s.last())
    } else {
        with_degree(g, offs, s.drop_last(), d)
    }
}

/// Inserting by degree into an ascending sequence leaves it ascending.
proof fn lemma_insert_ascends(
    g: Seq<Seq<int>>,
    offs: Seq<(int, int)>,
    sorted: Seq<(int, int)>,
    x: (int, int),
)
    requires
        ascends_by_degree(g, offs, sorted),
    ensures
        ascends_by_degree(g, offs, insert_by_degree(g, offs, sorted, x)),
    decreases sorted.len(),
{
    let res = insert_by_degree(g, offs, sorted, x);
    if sorted.len() == 0 || onward_degree(g, offs, sorted.last()) <= onward_degree(g, offs, x) {
        assert forall|i: int, j: int| 0 <= i <= j < res.len() implies onward_degree(
            g,
            offs,
            res[i],
        ) <= onward_degree(g, offs, res[j]) by {
            if j == sorted.len() && i < j {
                assert(onward_degree(g, offs, sorted[i]) <= onward_degree(
                    g,
                    offs,
                    sorted[sorted.len() - 1],
                ));
            }
        }
    } else {
        let front = sorted.drop_last();
        let last = sorted.last();
        assert forall|i: int, j: int| 0 <= i <= j < front.len() implies onward_degree(
            g,
            offs,
            front[i],
        ) <= onward_degree(g, offs, front[j]) by {
            assert(front[i] == sorted[i] && front[j] == sorted[j]);
        }
        lemma_insert_ascends(g, offs, front, x);
        lemma_insert_is_permutation(g, offs, front, x);
        let mid = insert_by_degree(g, offs, front, x);
        mid.to_multiset_ensures();
        front.to_multiset_ensures();
        assert forall|i: int, j: int| 0 <= i <= j < res.len() implies onward_degree(
            g,
            offs,
            res[i],
        ) <= onward_degree(g, offs, res[j]) by {
            if j == mid.len() && i < j {
                assert(mid.contains(mid[i]));
                assert(mid.to_multiset().count(mid[i]) > 0);
                if mid[i] != x {
                    assert(front.to_multiset().count(mid[i]) > 0);
                    assert(front.contains(mid[i]));
                    let t = choose|t: int| 0 <= t < front.len() && front[t] == mid[i];
                    assert(onward_degree(g, offs, sorted[t]) <= onward_degree(
                        g,
                        offs,
                        sorted[sorted.len() - 1],
                    ));
                }
            } else if j < mid.len() {
                assert(res[i] == mid[i] && res[j] == mid[j]);
            }
        }
    }
}

/// Ordering by degree puts the cells in ascending order of onward degree.
pub proof fn lemma_order_ascends(g: Seq<Seq<int>>, offs: Seq<(int, int)>, s: Seq<(int, int)>)
    ensures
        ascends_by_degree(g, offs, order_by_degree(g, offs, s)),
    decreases s.len(),
{
    if s.len() > 0 {
        lemma_order_ascends(g, offs, s.drop_last());
        lemma_insert_ascends(g, offs, order_by_degree(g, offs, s.drop_last()), s.last());
    }
}

/// Inserting by degree puts the new cell behind the cells of its degree and
/// leaves the cells of every other degree as they are.
proof fn lemma_insert_is_stable(
    g: Seq<Seq<int>>,
    offs: Seq<(int, int)>,
    sorted: Seq<(int, int)>,
    x: (int, int),
    d: nat,
)
    ensures
        with_degree(g, offs, insert_by_degree(g, offs, sorted, x), d) == (if onward_degree(
            g,
            offs,
            x,
        ) == d {
            with_degree(g, offs, sorted, d).push(x)
        } else {
            with_degree(g, offs, sorted, d)
        }),
    decreases sorted.len(),
{
    if sorted.len() == 0 || onward_degree(g, offs, sorted.last()) <= onward_degree(g, offs, x) {
        assert(sorted.push(x).drop_last() =~= sorted);
    } else {
        let front = sorted.drop_last();
        lemma_insert_is_stable(g, offs, front, x, d);
        let mid = insert_by_degree(g, offs, front, x);
        assert(mid.push(sorted.last()).drop_last() =~= mid);
    }
}

/// Ordering by degree is stable: the cells of one degree keep the order they
/// had.
pub proof fn lemma_order_is_stable(
    g: Seq<Seq<int>>,
    offs: Seq<(int, int)>,
    s: Seq<(int, int)>,
    d: nat,
)
    ensures
        with_degree(g, offs, order_by_degree(g, offs, s), d) == with_degree(g, offs, s, d),
    decreases s.len(),
{
    if s.len() > 0 {
        lemma_order_is_stable(g, offs, s.drop_last(), d);
        lemma_insert_is_stable(g, offs, order_by_degree(g, offs, s.drop_last()), s.last(), d);
    }
}

/// The Warnsdorff order holds exactly the unvisited cells one move away.
pub proof fn lemma_warnsdorff_moves_are_the_moves(
    g: Seq<Seq<int>>,
    offs: Seq<(int, int)>,
    r: int,
    c: int,
    p: (int, int),
)
    ensures
        warnsdorff_moves(g, offs, r, c).contains(p) <==> is_move(g, offs, r, c, p),
{
    let m = moves(g, offs, r, c);
    let w = warnsdorff_moves(g, offs, r, c);
    lemma_order_is_permutation(g, offs, m);
    m.to_multiset_ensures();
    w.to_multiset_ensures();
    assert(m.contains(p) <==> m.to_multiset().count(p) > 0);
    assert(w.contains(p) <==> w.to_multiset().count(p) > 0);
    lemma_moves_are_the_moves(g, offs, r, c, p);
}

/// What being a move gives: the cell lies on the grid, is unvisited and is
/// one step away.
pub proof fn lemma_move_facts(g: Seq<Seq<int>>, offs: Seq<(int, int)>, r: int, c: int, p: (int, int))
    requires
        is_move(g, offs, r, c, p),
    ensures
        in_bounds(g, p.0, p.1),
        at(g, p.0, p.1) == UNVISITED,
        is_step(offs, (r, c), p),
{
    let i = choose|i: int|
        0 <= i < offs.len() && #[trigger] lands_on(g, offs, r, c, i, UNVISITED as int) && p
            == target(offs, r, c, i);
    assert(offs[i] == (p.0 - r, p.1 - c));
}

/// A tour that keeps a walk of `k` cells keeps the walk with its next cell
/// added, when that cell holds `k` in the tour.
proof fn lemma_extends_marked(g: Seq<Seq<int>>, t: Seq<Seq<int>>, p: (int, int), k: int)
    requires
        is_square(g),
        extends(g, t),
        in_bounds(g, p.0, p.1),
        at(t, p.0, p.1) == k,
    ensures
        extends(mark(g, p.0, p.1, k), t),
{
    lemma_mark(g, p.0, p.1, k);
    let m = mark(g, p.0, p.1, k);
    assert forall|i: int, j: int| in_bounds(m, i, j) && #[trigger] at(m, i, j) >= 0 implies at(
        t,
        i,
        j,
    ) == at(m, i, j) by {
        if !(i == p.0 && j == p.1) {
            assert(at(g, i, j) == at(m, i, j));
        }
    }
}

/// Keeping the steps carries over: what extends the marked grid extends the
/// grid before the mark, if the marked cell was unvisited.
proof fn lemma_extends_unmarked(g: Seq<Seq<int>>, t: Seq<Seq<int>>, p: (int, int), k: int)
    requires
        is_square(g),
        in_bounds(g, p.0, p.1),
        at(g, p.0, p.1) == UNVISITED,
        extends(mark(g, p.0, p.1, k), t),
    ensures
        extends(g, t),
{
    lemma_mark(g, p.0, p.1, k);
    let m = mark(g, p.0, p.1, k);
    assert forall|i: int, j: int| in_bounds(g, i, j) && #[trigger] at(g, i, j) >= 0 implies at(
        t,
        i,
        j,
    ) == at(g, i, j) by {
        assert(at(m, i, j) == at(g, i, j));
    }
}

/// Whatever the search returns from a walk is a tour that keeps the walk.
pub proof fn lemma_search_finds_tours(
    g: Seq<Seq<int>>,
    offs: Seq<(int, int)>,
    r: int,
    c: int,
    k: int,
    goal: int,
    closed: bool,
)
    requires
        is_walk(g, offs, k),
        in_bounds(g, r, c),
        at(g, r, c) == k - 1,
        1 <= k <= goal,
        goal == cell_count(g),
        search(g, offs, r, c, k, goal, closed) is Some,
    ensures
        is_tour(search(g, offs, r, c, k, goal, closed).unwrap(), offs, closed),
        extends(g, search(g, offs, r, c, k, goal, closed).unwrap()),
    decreases goal - k, 1int, 0int,
{
    if k >= goal {
        lemma_full_walk_is_filled(g, offs);
        if closed {
            let i = choose|i: int| 0 <= i < offs.len() && #[trigger] lands_on(g, offs, r, c, i, 0);
            let s = target(offs, r, c, i);
            assert forall|r1: int, c1: int, r2: int, c2: int|
                in_bounds(g, r1, c1) && in_bounds(g, r2, c2) && #[trigger] at(g, r1, c1)
                    == cell_count(g) - 1 && #[trigger] at(g, r2, c2) == 0 implies is_step(
                offs,
                (r1, c1),
                (r2, c2),
            ) by {
                assert(at(g, r1, c1) == at(g, r, c));
                assert(at(g, r2, c2) == at(g, s.0, s.1));
                assert(offs[i] == (r2 - r1, c2 - c1));
            }
        }
    } else {
        let w = warnsdorff_moves(g, offs, r, c);
        assert forall|i: int| 0 <= i < w.len() implies is_move(g, offs, r, c, #[trigger] w[i]) by {
            assert(w.contains(w[i]));
            lemma_warnsdorff_moves_are_the_moves(g, offs, r, c, w[i]);
        }
        lemma_try_finds_tours(g, offs, r, c, w, 0, k, goal, closed);
    }
}

/// Whatever the search over the remaining candidates returns is a tour that
/// keeps the walk.
proof fn lemma_try_finds_tours(
    g: Seq<Seq<int>>,
    offs: Seq<(int, int)>,
    r: int,
    c: int,
    cands: Seq<(int, int)>,
    j: int,
    k: int,
    goal: int,
    closed: bool,
)
    requires
        is_walk(g, offs, k),
        in_bounds(g, r, c),
        at(g, r, c) == k - 1,
        1 <= k < goal,
        goal == cell_count(g),
        0 <= j,
        forall|i: int| 0 <= i < cands.len() ==> is_move(g, offs, r, c, #[trigger] cands[i]),
        try_moves(g, offs, cands, j, k, goal, closed) is Some,
    ensures
        is_tour(try_moves(g, offs, cands, j, k, goal, closed).unwrap(), offs, closed),
        extends(g, try_moves(g, offs, cands, j, k, goal, closed).unwrap()),
    decreases goal - k, 0int, cands.len() - j,
{
    if j < cands.len() {
        let p = cands[j];
        let m = mark(g, p.0, p.1, k);
        lemma_move_facts(g, offs, r, c, p);
        lemma_mark(g, p.0, p.1, k);
        if search(m, offs, p.0, p.1, k + 1, goal, closed) is Some {
            lemma_walk_grows(g, offs, r, c, k, p);
            lemma_search_finds_tours(m, offs, p.0, p.1, k + 1, goal, closed);
            lemma_extends_unmarked(
                g,
                search(m, offs, p.0, p.1, k + 1, goal, closed).unwrap(),
                p,
                k,
            );
        } else {
            lemma_try_finds_tours(g, offs, r, c, cands, j + 1, k, goal, closed);
        }
    }
}

/// Where a tour `t` keeps the walk, the search from the walk succeeds.
pub proof fn lemma_search_misses_none(
    g: Seq<Seq<int>>,
    offs: Seq<(int, int)>,
    r: int,
    c: int,
    k: int,
    goal: int,
    closed: bool,
    t: Seq<Seq<int>>,
)
    requires
        is_walk(g, offs, k),
        in_bounds(g, r, c),
        at(g, r, c) == k - 1,
        1 <= k <= goal,
        goal == cell_count(g),
        is_tour(t, offs, closed),
        extends(g, t),
    ensures
        search(g, offs, r, c, k, goal, closed) is Some,
    decreases goal - k, 1int, 0int,
{
    assert(cell_count(t) == goal);
    assert(at(t, r, c) == k - 1);
    if k >= goal {
        if closed {
            assert(holds_value(g, 0));
            let (sr, sc) = choose|sr: int, sc: int|
                in_bounds(g, sr, sc) && #[trigger] at(g, sr, sc) == 0;
            assert(at(t, sr, sc) == 0);
            assert(in_bounds(t, r, c) && in_bounds(t, sr, sc));
            assert(is_step(offs, (r, c), (sr, sc)));
            let i = choose|i: int| 0 <= i < offs.len() && #[trigger] offs[i] == (sr - r, sc - c);
            assert(lands_on(g, offs, r, c, i, 0));
        }
    } else {
        assert(holds_value(t, k));
        let (pr, pc) = choose|pr: int, pc: int|
            in_bounds(t, pr, pc) && #[trigger] at(t, pr, pc) == k;
        let p = (pr, pc);
        assert(in_bounds(t, r, c));
        assert(is_step(offs, (r, c), p));
        assert(UNVISITED <= at(g, pr, pc) < k);
        assert(at(g, pr, pc) == UNVISITED);
        let i = choose|i: int| 0 <= i < offs.len() && #[trigger] offs[i] == (pr - r, pc - c);
        assert(lands_on(g, offs, r, c, i, UNVISITED as int));
        assert(is_move(g, offs, r, c, p));
        let w = warnsdorff_moves(g, offs, r, c);
        lemma_warnsdorff_moves_are_the_moves(g, offs, r, c, p);
        let j0 = choose|j0: int| 0 <= j0 < w.len() && w[j0] == p;
        lemma_try_misses_none(g, offs, r, c, w, 0, j0, k, goal, closed, t);
    }
}

/// Where a tour `t` keeps the walk and goes on to candidate `j0`, the search
/// over the candidates from `j <= j0` on succeeds.
proof fn lemma_try_misses_none(
    g: Seq<Seq<int>>,
    offs: Seq<(int, int)>,
    r: int,
    c: int,
    cands: Seq<(int, int)>,
    j: int,
    j0: int,
    k: int,
    goal: int,
    closed: bool,
    t: Seq<Seq<int>>,
)
    requires
        is_walk(g, offs, k),
        in_bounds(g, r, c),
        at(g, r, c) == k - 1,
        1 <= k < goal,
        goal == cell_count(g),
        is_tour(t, offs, closed),
        extends(g, t),
        0 <= j <= j0 < cands.len(),
        is_move(g, offs, r, c, cands[j0]),
        at(t, cands[j0].0, cands[j0].1) == k,
    ensures
        try_moves(g, offs, cands, j, k, goal, closed) is Some,
    decreases goal - k, 0int, cands.len() - j,
{
    let p = cands[j];
    let m = mark(g, p.0, p.1, k);
    if search(m, offs, p.0, p.1, k + 1, goal, closed) is Some {
    } else if j == j0 {
        lemma_move_facts(g, offs, r, c, p);
        lemma_mark(g, p.0, p.1, k);
        lemma_walk_grows(g, offs, r, c, k, p);
        lemma_extends_marked(g, t, p, k);
        lemma_search_misses_none(m, offs, p.0, p.1, k + 1, goal, closed, t);
    } else {
        lemma_try_misses_none(g, offs, r, c, cands, j + 1, j0, k, goal, closed, t);
    }
}

} // verus!
