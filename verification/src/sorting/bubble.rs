//! Bubble sort.

use super::order::{sorted, swap_items};
use vstd::prelude::*;

verus! {

/// Sorts the slice: in each pass the largest item not yet in place rises to
/// its place.
pub fn bubble_sort(vec: &mut [i32])
    ensures
        sorted(final(vec)@),
        final(vec)@.to_multiset() == old(vec)@.to_multiset(),
{
    let n: usize = vec.len();
    let mut i: usize = 1;
    while i < n
        invariant
            vec@.len() == n,
            1 <= i,
            i <= n || n == 0,
            vec@.to_multiset() == old(vec)@.to_multiset(),
            forall|a: int, b: int| n - i + 1 <= a <= b < n ==> vec@[a] <= vec@[b],
            forall|a: int, b: int| 0 <= a < n - i + 1 <= b < n ==> vec@[a] <= vec@[b],
        decreases n - i,
    {
        let mut j: usize = 0;
        while j < n - i
            invariant
                vec@.len() == n,
                1 <= i < n,
                j <= n - i,
                vec@.to_multiset() == old(vec)@.to_multiset(),
                forall|a: int, b: int| n - i + 1 <= a <= b < n ==> vec@[a] <= vec@[b],
                forall|a: int, b: int| 0 <= a < n - i + 1 <= b < n ==> vec@[a] <= vec@[b],
                forall|a: int| 0 <= a <= j ==> vec@[a] <= vec@[j as int],
            decreases n - i - j,
        {
            if vec[j] > vec[j + 1] {
                swap_items(vec, j + 1, j);
            }
            j += 1;
        }
        i += 1;
    }
}

} // verus!
