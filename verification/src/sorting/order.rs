//! What sorting means: the items ascend, and none is lost or added.

use vstd::multiset::group_multiset_axioms;
use vstd::prelude::*;
use vstd::seq_lib::{lemma_multiset_commutative, to_multiset_update};

verus! {

/// The items ascend.
pub open spec fn sorted(s: Seq<i32>) -> bool {
    forall|i: int, j: int| 0 <= i <= j < s.len() ==> s[i] <= s[j]
}

/// `s` with the items at `a` and `b` exchanged.
pub open spec fn swapped(s: Seq<i32>, a: int, b: int) -> Seq<i32> {
    s.update(a, s[b]).update(b, s[a])
}

/// Exchanging two items keeps the items.
pub proof fn lemma_swapped_keeps_items(s: Seq<i32>, a: int, b: int)
    requires
        0 <= a < s.len(),
        0 <= b < s.len(),
    ensures
        swapped(s, a, b).to_multiset() == s.to_multiset(),
{
    broadcast use group_multiset_axioms;

    let s1 = s.update(a, s[b]);
    to_multiset_update(s, a, s[b]);
    to_multiset_update(s1, b, s[a]);
    s.to_multiset_ensures();
    assert(s.contains(s[a]));
    assert(s.contains(s[b]));
    assert(s.to_multiset().count(s[a]) > 0);
    assert(s.to_multiset().count(s[b]) > 0);
    assert(swapped(s, a, b).to_multiset() =~= s.to_multiset());
}

/// A rearranged sequence holds an item exactly when the other does.
pub proof fn lemma_same_items_contains(s: Seq<i32>, t: Seq<i32>, x: i32)
    requires
        s.to_multiset() == t.to_multiset(),
    ensures
        s.contains(x) <==> t.contains(x),
{
    s.to_multiset_ensures();
    t.to_multiset_ensures();
    assert(s.contains(x) <==> s.to_multiset().count(x) > 0);
    assert(t.contains(x) <==> t.to_multiset().count(x) > 0);
}

/// Three parts rearranged each for itself are the whole rearranged.
pub proof fn lemma_parts_keep_items(
    a1: Seq<i32>,
    b1: Seq<i32>,
    c1: Seq<i32>,
    a2: Seq<i32>,
    b2: Seq<i32>,
    c2: Seq<i32>,
)
    requires
        a1.to_multiset() == a2.to_multiset(),
        b1.to_multiset() == b2.to_multiset(),
        c1.to_multiset() == c2.to_multiset(),
    ensures
        (a1 + b1 + c1).to_multiset() == (a2 + b2 + c2).to_multiset(),
{
    lemma_multiset_commutative(a1, b1);
    lemma_multiset_commutative(a1 + b1, c1);
    lemma_multiset_commutative(a2, b2);
    lemma_multiset_commutative(a2 + b2, c2);
}

/// A sequence split around a pivot, whose two sides were then sorted each
/// for itself, is sorted and holds the items it held before.
pub proof fn lemma_sorted_sides(before: Seq<i32>, after: Seq<i32>, k: int, u: int)
    requires
        before.len() == after.len(),
        0 <= k < before.len(),
        u == k + 1 || (u == k && k == before.len() - 1),
        forall|i: int| 0 <= i < k ==> before[i] <= before[k],
        forall|i: int| k < i < before.len() ==> before[i] >= before[k],
        sorted(after.subrange(0, k)),
        after.subrange(0, k).to_multiset() == before.subrange(0, k).to_multiset(),
        sorted(after.subrange(u, after.len() as int)),
        after.subrange(u, after.len() as int).to_multiset() == before.subrange(
            u,
            before.len() as int,
        ).to_multiset(),
        u == k + 1 ==> after[k] == before[k],
    ensures
        sorted(after),
        after.to_multiset() == before.to_multiset(),
{
    let n = before.len() as int;
    let pivot = before[k];
    let (a1, a3) = (after.subrange(0, k), after.subrange(u, n));
    let (b1, b3) = (before.subrange(0, k), before.subrange(u, n));
    assert(after[k] == pivot) by {
        if u == k {
            assert(a3.contains(a3[0]));
            lemma_same_items_contains(a3, b3, a3[0]);
        }
    }
    assert forall|i: int| 0 <= i < k implies after[i] <= pivot by {
        assert(a1.contains(a1[i]));
        lemma_same_items_contains(a1, b1, a1[i]);
        let t = choose|t: int| 0 <= t < b1.len() && b1[t] == a1[i];
        assert(before[t] == b1[t]);
    }
    assert forall|i: int| k < i < n implies after[i] >= pivot by {
        assert(a3.contains(a3[i - u]));
        lemma_same_items_contains(a3, b3, a3[i - u]);
        let t = choose|t: int| 0 <= t < b3.len() && b3[t] == a3[i - u];
        assert(before[u + t] == b3[t]);
    }
    assert forall|i: int, j: int| 0 <= i <= j < n implies after[i] <= after[j] by {
        if j < k {
            assert(a1[i] <= a1[j]);
        } else if i > k {
            assert(a3[i - u] <= a3[j - u]);
        }
    }
    assert(after =~= a1 + after.subrange(k, u) + a3);
    assert(before =~= b1 + before.subrange(k, u) + b3);
    assert(after.subrange(k, u) =~= before.subrange(k, u));
    lemma_parts_keep_items(a1, after.subrange(k, u), a3, b1, before.subrange(k, u), b3);
}

/// Exchanges the items at `a` and `b`.
pub fn swap_items(vec: &mut [i32], a: usize, b: usize)
    requires
        a < old(vec)@.len(),
        b < old(vec)@.len(),
    ensures
        final(vec)@ == swapped(old(vec)@, a as int, b as int),
        final(vec)@.to_multiset() == old(vec)@.to_multiset(),
{
    let x: i32 = vec[a];
    let y: i32 = vec[b];
    vec[a] = y;
    vec[b] = x;
    proof {
        lemma_swapped_keeps_items(old(vec)@, a as int, b as int);
    }
}

/// Whether the items ascend.
pub fn check_sorted(vec: &[i32]) -> (res: bool)
    ensures
        res == sorted(vec@),
{
    let mut i: usize = 0;
    if vec.len() == 0 {
        return true;
    }
    while i < vec.len() - 1
        invariant
            vec@.len() >= 1,
            i <= vec@.len() - 1,
            forall|a: int, b: int| 0 <= a <= b <= i ==> vec@[a] <= vec@[b],
        decreases vec@.len() - i,
    {
        if vec[i] > vec[i + 1] {
            return false;
        }
        i += 1;
    }
    true
}

} // verus!
