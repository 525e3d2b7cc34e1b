//! Linear search for the first occurrence.

use vstd::prelude::*;

verus! {

/// `i` is the first index of `s` that holds `target`.
pub open spec fn is_first_index(s: Seq<i32>, target: i32, i: int) -> bool {
    &&& 0 <= i < s.len()
    &&& s[i] == target
    &&& forall|j: int| 0 <= j < i ==> s[j] != target
}

/// The first position of `target` and the number of items looked at to find
/// it; `-1` and the length when `target` does not occur.
pub fn linear_search(vec: &[i32], target: i32) -> (res: (i32, i32))
    requires
        vec@.len() <= i32::MAX,
    ensures
        vec@.contains(target) ==> is_first_index(vec@, target, res.0 as int) && res.1 == res.0 + 1,
        !vec@.contains(target) ==> res.0 == -1 && res.1 == vec@.len(),
{
    let mut pos: usize = 0;
    while pos < vec.len()
        invariant
            pos <= vec@.len() <= i32::MAX,
            forall|j: int| 0 <= j < pos ==> vec@[j] != target,
        decreases vec@.len() - pos,
    {
        if vec[pos] == target {
            return (pos as i32, (pos + 1) as i32);
        }
        pos += 1;
    }
    (-1, vec.len() as i32)
}

} // verus!
