//! Quicksort with a partition that exchanges items in place.

use super::order::{
    lemma_sorted_sides, lemma_swapped_keeps_items, sorted, swap_items, swapped,
};
use vstd::prelude::*;

verus! {

/// The items of `s` up to `pivot`, in their order.
pub open spec fn up_to(s: Seq<i32>, pivot: i32) -> Seq<i32>
    decreases s.len(),
{
    if s.len() == 0 {
        s
    } else if s.last() <= pivot {
        up_to(s.drop_last(), pivot).push(s.last())
    } else {
        up_to(s.drop_last(), pivot)
    }
}

/// `g` with its first item moved to the end.
pub open spec fn rotated(g: Seq<i32>) -> Seq<i32> {
    if g.len() == 0 {
        g
    } else {
        g.drop_first().push(g.first())
    }
}

/// The items of `s` above `pivot` as the scan leaves them: each is added at
/// the end, and each item up to `pivot` that the scan meets sends the first
/// of them to the end.
pub open spec fn above(s: Seq<i32>, pivot: i32) -> Seq<i32>
    decreases s.len(),
{
    if s.len() == 0 {
        s
    } else if s.last() <= pivot {
        rotated(above(s.drop_last(), pivot))
    } else {
        above(s.drop_last(), pivot).push(s.last())
    }
}

/// A non-empty sequence partitioned in place around its last item: the
/// items up to it, the pivot, the larger items.
pub open spec fn partitioned(s: Seq<i32>) -> Seq<i32> {
    up_to(s.drop_last(), s.last()).push(s.last()) + rotated(above(s.drop_last(), s.last()))
}

/// Where the pivot of a non-empty sequence comes to stand.
pub open spec fn pivot_position(s: Seq<i32>) -> int {
    up_to(s.drop_last(), s.last()).len() as int
}

/// The two sides of a pivot hold all items between them, each on its side.
pub proof fn lemma_sides(s: Seq<i32>, pivot: i32)
    ensures
        up_to(s, pivot).len() + above(s, pivot).len() == s.len(),
        forall|i: int| 0 <= i < up_to(s, pivot).len() ==> #[trigger] up_to(s, pivot)[i] <= pivot,
        forall|i: int| 0 <= i < above(s, pivot).len() ==> #[trigger] above(s, pivot)[i] > pivot,
    decreases s.len(),
{
    if s.len() > 0 {
        lemma_sides(s.drop_last(), pivot);
        let g = above(s.drop_last(), pivot);
        if s.last() <= pivot && g.len() > 0 {
            let r = rotated(g);
            assert forall|i: int| 0 <= i < r.len() implies #[trigger] r[i] > pivot by {
                if i < r.len() - 1 {
                    assert(r[i] == g[i + 1]);
                } else {
                    assert(r[i] == g[0]);
                }
            }
        }
    }
}

/// In a partitioned sequence the pivot stands at its position, with no
/// larger item before it and only larger items behind it.
pub proof fn lemma_partitioned_sides(s: Seq<i32>)
    requires
        s.len() >= 1,
    ensures
        0 <= pivot_position(s) < s.len(),
        partitioned(s).len() == s.len(),
        partitioned(s)[pivot_position(s)] == s.last(),
        forall|i: int| 0 <= i < pivot_position(s) ==> #[trigger] partitioned(s)[i] <= s.last(),
        forall|i: int| pivot_position(s) < i < s.len() ==> #[trigger] partitioned(s)[i] > s.last(),
{
    let pivot = s.last();
    let l = up_to(s.drop_last(), pivot);
    let g = above(s.drop_last(), pivot);
    let h = rotated(g);
    lemma_sides(s.drop_last(), pivot);
    let pp = partitioned(s);
    assert forall|i: int| 0 <= i < pivot_position(s) implies #[trigger] pp[i] <= pivot by {
        assert(pp[i] == l[i]);
    }
    assert forall|i: int| pivot_position(s) < i < s.len() implies #[trigger] pp[i] > pivot by {
        let t = i - l.len() - 1;
        assert(pp[i] == h[t]);
        if t < h.len() - 1 {
            assert(h[t] == g[t + 1]);
        } else {
            assert(h[t] == g[0]);
        }
    }
}

/// Partitions `vec[lo..hi]` in place around its last item and returns where
/// that item comes to stand; the slice outside the range stays as it is.
pub fn partition_range(vec: &mut [i32], lo: usize, hi: usize) -> (pos: usize)
    requires
        lo < hi <= old(vec)@.len(),
    ensures
        final(vec)@.len() == old(vec)@.len(),
        final(vec)@.subrange(lo as int, hi as int) == partitioned(
            old(vec)@.subrange(lo as int, hi as int),
        ),
        final(vec)@.subrange(lo as int, hi as int).to_multiset() == old(vec)@.subrange(
            lo as int,
            hi as int,
        ).to_multiset(),
        pos == lo + pivot_position(old(vec)@.subrange(lo as int, hi as int)),
        lo <= pos < hi,
        forall|i: int| 0 <= i < lo || hi <= i < old(vec)@.len() ==> final(vec)@[i] == old(vec)@[i],
{
    let ghost whole = vec@;
    let ghost part = vec@.subrange(lo as int, hi as int);
    let ghost front = part.drop_last();
    let last: usize = hi - 1;
    let pivot: i32 = vec[last];
    let mut i: usize = lo;
    let mut j: usize = lo;
    assert(front.take(0) =~= Seq::<i32>::empty());
    assert(vec@.subrange(lo as int, lo as int) =~= Seq::<i32>::empty());
    while j < last
        invariant
            lo <= i <= j <= last < hi <= whole.len(),
            vec@.len() == whole.len(),
            part == whole.subrange(lo as int, hi as int),
            front == part.drop_last(),
            pivot == part.last(),
            vec@.subrange(lo as int, hi as int).to_multiset() == part.to_multiset(),
            forall|t: int| 0 <= t < lo || j <= t < whole.len() ==> vec@[t] == whole[t],
            vec@.subrange(lo as int, i as int) == up_to(front.take(j - lo), pivot),
            vec@.subrange(i as int, j as int) == above(front.take(j - lo), pivot),
        decreases last - j,
    {
        let ghost v = vec@;
        let ghost seen = front.take(j - lo);
        proof {
            let next = front.take(j - lo + 1);
            assert(next.drop_last() =~= seen);
            assert(next.last() == vec@[j as int]);
        }
        if pivot >= vec[j] {
            if j != i {
                swap_items(vec, i, j);
                proof {
                    let local = v.subrange(lo as int, hi as int);
                    lemma_swapped_keeps_items(local, i - lo, j - lo);
                    assert(vec@.subrange(lo as int, hi as int) =~= swapped(local, i - lo, j - lo));
                }
            }
            i += 1;
            proof {
                assert(vec@.subrange(lo as int, i as int) =~= v.subrange(
                    lo as int,
                    i as int - 1,
                ).push(v[j as int]));
                assert(vec@.subrange(i as int, j as int + 1) =~= rotated(
                    v.subrange(i as int - 1, j as int),
                ));
            }
        } else {
            assert(vec@.subrange(i as int, j as int + 1) =~= v.subrange(i as int, j as int).push(
                v[j as int],
            ));
        }
        j += 1;
    }
    let ghost v = vec@;
    swap_items(vec, i, last);
    proof {
        assert(front.take(last - lo) =~= front);
        lemma_sides(front, pivot);
        let local = v.subrange(lo as int, hi as int);
        lemma_swapped_keeps_items(local, i - lo, last - lo);
        assert(vec@.subrange(lo as int, hi as int) =~= swapped(local, i - lo, last - lo));
        assert(vec@.subrange(lo as int, hi as int) =~= v.subrange(lo as int, i as int).push(pivot)
            + rotated(v.subrange(i as int, last as int)));
    }
    i
}

/// Partitions a non-empty slice in place around its last item: the items up
/// to it come before it, in their old order, and the larger ones behind it.
/// Returns where the pivot comes to stand.
pub fn partition(vec: &mut [i32]) -> (pos: usize)
    requires
        old(vec)@.len() >= 1,
    ensures
        final(vec)@ == partitioned(old(vec)@),
        final(vec)@.to_multiset() == old(vec)@.to_multiset(),
        pos == pivot_position(old(vec)@),
{
    let n: usize = vec.len();
    assert(vec@.subrange(0, n as int) =~= vec@);
    let pos = partition_range(vec, 0, n);
    assert(vec@.subrange(0, n as int) =~= vec@);
    pos
}

/// Sorts `vec[lo..hi]` and leaves the slice outside the range as it is.
pub fn quick_sort_range(vec: &mut [i32], lo: usize, hi: usize)
    requires
        lo <= hi <= old(vec)@.len(),
    ensures
        final(vec)@.len() == old(vec)@.len(),
        sorted(final(vec)@.subrange(lo as int, hi as int)),
        final(vec)@.subrange(lo as int, hi as int).to_multiset() == old(vec)@.subrange(
            lo as int,
            hi as int,
        ).to_multiset(),
        forall|i: int| 0 <= i < lo || hi <= i < old(vec)@.len() ==> final(vec)@[i] == old(vec)@[i],
    decreases hi - lo,
{
    let ghost v0 = vec@;
    match hi - lo {
        0 => (),
        1 => (),
        2 => {
            if vec[lo] > vec[lo + 1] {
                swap_items(vec, lo, lo + 1);
                proof {
                    let part = v0.subrange(lo as int, hi as int);
                    lemma_swapped_keeps_items(part, 0, 1);
                    assert(vec@.subrange(lo as int, hi as int) =~= swapped(part, 0, 1));
                }
            }
        },
        _ => {
            let p: usize = partition_range(vec, lo, hi);
            let ghost v1 = vec@;
            let upper_partition: usize = if p == hi - 1 {
                p
            } else {
                p + 1
            };
            quick_sort_range(vec, lo, p);
            let ghost v2 = vec@;
            quick_sort_range(vec, upper_partition, hi);
            proof {
                let (a, b, c) = (lo as int, p as int, hi as int);
                let u = upper_partition as int;
                let part = v0.subrange(a, c);
                let before = v1.subrange(a, c);
                let after = vec@.subrange(a, c);
                lemma_partitioned_sides(part);
                assert(after.subrange(0, b - a) =~= v2.subrange(a, b));
                assert(before.subrange(0, b - a) =~= v1.subrange(a, b));
                assert(after.subrange(u - a, c - a) =~= vec@.subrange(u, c));
                assert(before.subrange(u - a, c - a) =~= v2.subrange(u, c));
                lemma_sorted_sides(before, after, b - a, u - a);
            }
        },
    }
}

/// Sorts the slice.
pub fn quick_sort(vec: &mut [i32])
    ensures
        sorted(final(vec)@),
        final(vec)@.to_multiset() == old(vec)@.to_multiset(),
{
    let n: usize = vec.len();
    assert(vec@.subrange(0, n as int) =~= vec@);
    quick_sort_range(vec, 0, n);
    assert(vec@.subrange(0, n as int) =~= vec@);
}

} // verus!
