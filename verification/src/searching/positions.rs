//! Linear search for every occurrence.

use vstd::prelude::*;

verus! {

/// `found` lists, in ascending order, exactly the indices of `s` that hold
/// `item`.
pub open spec fn are_the_positions(s: Seq<i32>, item: i32, found: Seq<i32>) -> bool {
    &&& forall|k: int| 0 <= k < found.len() ==> 0 <= #[trigger] found[k] < s.len() && s[found[k] as int] == item
    &&& forall|k: int, l: int| 0 <= k < l < found.len() ==> found[k] < found[l]
    &&& forall|i: int| 0 <= i < s.len() && s[i] == item ==> found.contains(i as i32)
}

/// All positions of `item_to_search`, in ascending order.
pub fn linear_search(vec: &[i32], item_to_search: i32) -> (result: Vec<i32>)
    requires
        vec@.len() <= i32::MAX,
    ensures
        are_the_positions(vec@, item_to_search, result@),
{
    let mut result: Vec<i32> = Vec::new();
    let mut i: usize = 0;
    while i < vec.len()
        invariant
            i <= vec@.len() <= i32::MAX,
            are_the_positions(vec@.take(i as int), item_to_search, result@),
        decreases vec@.len() - i,
    {
        let ghost before = result@;
        if vec[i] == item_to_search {
            result.push(i as i32);
            assert(result@[before.len() as int] == i);
        }
        proof {
            let s = vec@.take(i as int + 1);
            assert forall|t: int| 0 <= t < s.len() && s[t] == item_to_search implies result@.contains(
                t as i32,
            ) by {
                if t < i {
                    assert(vec@.take(i as int)[t] == item_to_search);
                    assert(before.contains(t as i32));
                    let k = choose|k: int| 0 <= k < before.len() && before[k] == t as i32;
                    assert(result@[k] == t as i32);
                } else {
                    assert(result@[before.len() as int] == t as i32);
                }
            }
            assert forall|k: int, l: int| 0 <= k < l < result@.len() implies result@[k]
                < result@[l] by {
                if l < before.len() {
                    assert(before[k] < before[l]);
                } else {
                    assert(0 <= before[k] < vec@.take(i as int).len());
                }
            }
        }
        i += 1;
    }
    assert(vec@.take(vec@.len() as int) =~= vec@);
    result
}

} // verus!
