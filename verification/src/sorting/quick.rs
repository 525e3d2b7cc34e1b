//! Quicksort with a partition that keeps the order of the items on each
//! side of the pivot.

use super::order::{lemma_sorted_sides, lemma_swapped_keeps_items, sorted, swap_items};
use vstd::prelude::*;
use vstd::seq_lib::lemma_multiset_commutative;

verus! {

/// The items of `s` below `pivot`, in their order.
pub open spec fn below(s: Seq<i32>, pivot: i32) -> Seq<i32>
    decreases s.len(),
{
    if s.len() == 0 {
        s
    } else if s.last() < pivot {
        below(s.drop_last(), pivot).push(s.last())
    } else {
        below(s.drop_last(), pivot)
    }
}

/// The items of `s` not below `pivot`, in their order.
pub open spec fn not_below(s: Seq<i32>, pivot: i32) -> Seq<i32>
    decreases s.len(),
{
    if s.len() == 0 {
        s
    } else if s.last() < pivot {
        not_below(s.drop_last(), pivot)
    } else {
        not_below(s.drop_last(), pivot).push(s.last())
    }
}

/// A non-empty sequence partitioned around its last item: the items below
/// it, the pivot, the other items.
pub open spec fn partitioned(s: Seq<i32>) -> Seq<i32> {
    below(s.drop_last(), s.last()).push(s.last()) + not_below(s.drop_last(), s.last())
}

/// Where the pivot of a non-empty sequence comes to stand.
pub open spec fn pivot_position(s: Seq<i32>) -> int {
    below(s.drop_last(), s.last()).len() as int
}

/// The two sides of a pivot hold all items between them, each on its side.
pub proof fn lemma_sides(s: Seq<i32>, pivot: i32)
    ensures
        below(s, pivot).len() + not_below(s, pivot).len() == s.len(),
        forall|i: int| 0 <= i < below(s, pivot).len() ==> #[trigger] below(s, pivot)[i] < pivot,
        forall|i: int|
            0 <= i < not_below(s, pivot).len() ==> #[trigger] not_below(s, pivot)[i] >= pivot,
        (below(s, pivot) + not_below(s, pivot)).to_multiset() == s.to_multiset(),
    decreases s.len(),
{
    let lo = below(s, pivot);
    let hi = not_below(s, pivot);
    if s.len() == 0 {
        assert(lo + hi =~= s);
    } else {
        let front = s.drop_last();
        let x = s.last();
        lemma_sides(front, pivot);
        let lo0 = below(front, pivot);
        let hi0 = not_below(front, pivot);
        lemma_multiset_commutative(lo0, hi0);
        lemma_multiset_commutative(lo, hi);
        lo0.to_multiset_ensures();
        hi0.to_multiset_ensures();
        front.to_multiset_ensures();
        assert(s =~= front.push(x));
        assert((lo + hi).to_multiset() =~= s.to_multiset());
    }
}

/// Partitioning keeps the items.
pub proof fn lemma_partitioned_keeps_items(s: Seq<i32>)
    requires
        s.len() >= 1,
    ensures
        partitioned(s).to_multiset() == s.to_multiset(),
        partitioned(s).len() == s.len(),
{
    let pivot = s.last();
    let front = s.drop_last();
    let lo = below(front, pivot);
    let hi = not_below(front, pivot);
    lemma_sides(front, pivot);
    lemma_multiset_commutative(lo, hi);
    lemma_multiset_commutative(lo.push(pivot), hi);
    lo.to_multiset_ensures();
    front.to_multiset_ensures();
    assert(s =~= front.push(pivot));
    assert(partitioned(s).to_multiset() =~= s.to_multiset());
}

/// In a partitioned sequence the pivot stands at its position, with only
/// smaller items before it and none smaller behind it.
pub proof fn lemma_partitioned_sides(s: Seq<i32>)
    requires
        s.len() >= 1,
    ensures
        0 <= pivot_position(s) < s.len(),
        partitioned(s).len() == s.len(),
        partitioned(s)[pivot_position(s)] == s.last(),
        forall|i: int| 0 <= i < pivot_position(s) ==> #[trigger] partitioned(s)[i] < s.last(),
        forall|i: int|
            pivot_position(s) < i < s.len() ==> #[trigger] partitioned(s)[i] >= s.last(),
{
    let pivot = s.last();
    let l = below(s.drop_last(), pivot);
    let h = not_below(s.drop_last(), pivot);
    lemma_sides(s.drop_last(), pivot);
    let pp = partitioned(s);
    assert forall|i: int| 0 <= i < pivot_position(s) implies #[trigger] pp[i] < pivot by {
        assert(pp[i] == l[i]);
    }
    assert forall|i: int| pivot_position(s) < i < s.len() implies #[trigger] pp[i] >= pivot by {
        assert(pp[i] == h[i - l.len() - 1]);
    }
}

/// Partitions `vec[lo..hi]` around its last item and returns where that
/// item comes to stand; the slice outside the range stays as it is.
pub fn partition_range(vec: &mut [i32], lo: usize, hi: usize) -> (pos: usize)
    requires
        lo < hi <= old(vec)@.len(),
    ensures
        final(vec)@.len() == old(vec)@.len(),
        final(vec)@.subrange(lo as int, hi as int) == partitioned(
            old(vec)@.subrange(lo as int, hi as int),
        ),
        pos == lo + pivot_position(old(vec)@.subrange(lo as int, hi as int)),
        lo <= pos < hi,
        forall|i: int| 0 <= i < lo || hi <= i < old(vec)@.len() ==> final(vec)@[i] == old(vec)@[i],
{
    let ghost whole = vec@;
    let ghost part = vec@.subrange(lo as int, hi as int);
    let ghost front = part.drop_last();
    let last: usize = hi - 1;
    let pivot: i32 = vec[last];
    let mut lower: Vec<i32> = Vec::new();
    let mut higher: Vec<i32> = Vec::new();
    let mut j: usize = lo;
    assert(front.take(0) =~= Seq::<i32>::empty());
    while j < last
        invariant
            lo <= j <= last < hi <= vec@.len(),
            vec@ == whole,
            part == whole.subrange(lo as int, hi as int),
            front == part.drop_last(),
            pivot == part.last(),
            lower@ == below(front.take(j - lo), pivot),
            higher@ == not_below(front.take(j - lo), pivot),
        decreases last - j,
    {
        let x: i32 = vec[j];
        proof {
            let next = front.take(j - lo + 1);
            assert(next.drop_last() =~= front.take(j - lo));
            assert(next.last() == x);
        }
        if x < pivot {
            lower.push(x);
        } else {
            higher.push(x);
        }
        j += 1;
    }
    proof {
        assert(front.take(last - lo) =~= front);
        lemma_sides(front, pivot);
    }
    let pos: usize = lo + lower.len();
    lower.push(pivot);
    lower.append(&mut higher);
    assert(lower@ =~= partitioned(part));
    let mut t: usize = 0;
    while t < lower.len()
        invariant
            lo < hi <= whole.len(),
            vec@.len() == whole.len(),
            lower@.len() == hi - lo,
            t <= lower@.len(),
            forall|i: int| 0 <= i < lo || hi <= i < whole.len() ==> vec@[i] == whole[i],
            forall|i: int| 0 <= i < t ==> vec@[lo + i] == lower@[i],
        decreases lower@.len() - t,
    {
        vec[lo + t] = lower[t];
        t += 1;
    }
    assert(vec@.subrange(lo as int, hi as int) =~= lower@);
    pos
}

/// Partitions a non-empty slice around its last item: the smaller items come
/// before it and the others behind it, each side in its old order. Returns
/// where the pivot comes to stand.
pub fn partition(vec: &mut [i32]) -> (pos: usize)
    requires
        old(vec)@.len() >= 1,
    ensures
        final(vec)@ == partitioned(old(vec)@),
        pos == pivot_position(old(vec)@),
{
    let n: usize = vec.len();
    assert(vec@.subrange(0, n as int) =~= vec@);
    let pos = partition_range(vec, 0, n);
    assert(vec@.subrange(0, n as int) =~= vec@);
    pos
}

/// Sorts `vec[lo..hi]` and leaves the slice outside the range as it is.
pub fn quick_sort_range(vec: &mut [i32], lo: usize, hi: usize)
    requires
        lo <= hi <= old(vec)@.len(),
    ensures
        final(vec)@.len() == old(vec)@.len(),
        sorted(final(vec)@.subrange(lo as int, hi as int)),
        final(vec)@.subrange(lo as int, hi as int).to_multiset() == old(vec)@.subrange(
            lo as int,
            hi as int,
        ).to_multiset(),
        forall|i: int| 0 <= i < lo || hi <= i < old(vec)@.len() ==> final(vec)@[i] == old(vec)@[i],
    decreases hi - lo,
{
    let ghost v0 = vec@;
    match hi - lo {
        0 => (),
        1 => (),
        2 => {
            if vec[lo] > vec[lo + 1] {
                swap_items(vec, lo, lo + 1);
                proof {
                    let part = v0.subrange(lo as int, hi as int);
                    lemma_swapped_keeps_items(part, 0, 1);
                    assert(vec@.subrange(lo as int, hi as int) =~= part.update(0, part[1]).update(
                        1,
                        part[0],
                    ));
                }
            }
        },
        _ => {
            let p: usize = partition_range(vec, lo, hi);
            let ghost v1 = vec@;
            let upper_partition: usize = if p == hi - 1 {
                p
            } else {
                p + 1
            };
            quick_sort_range(vec, lo, p);
            let ghost v2 = vec@;
            quick_sort_range(vec, upper_partition, hi);
            proof {
                let (a, b, c) = (lo as int, p as int, hi as int);
                let u = upper_partition as int;
                let part = v0.subrange(a, c);
                let before = v1.subrange(a, c);
                let after = vec@.subrange(a, c);
                lemma_partitioned_sides(part);
                lemma_partitioned_keeps_items(part);
                assert(after.subrange(0, b - a) =~= v2.subrange(a, b));
                assert(before.subrange(0, b - a) =~= v1.subrange(a, b));
                assert(after.subrange(u - a, c - a) =~= vec@.subrange(u, c));
                assert(before.subrange(u - a, c - a) =~= v2.subrange(u, c));
                lemma_sorted_sides(before, after, b - a, u - a);
            }
        },
    }
}

/// Sorts the slice.
pub fn quick_sort(vec: &mut [i32])
    ensures
        sorted(final(vec)@),
        final(vec)@.to_multiset() == old(vec)@.to_multiset(),
{
    let n: usize = vec.len();
    assert(vec@.subrange(0, n as int) =~= vec@);
    quick_sort_range(vec, 0, n);
    assert(vec@.subrange(0, n as int) =~= vec@);
}

} // verus!
