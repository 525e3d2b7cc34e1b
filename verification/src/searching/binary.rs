//! Binary search by halving an interval that keeps both of its ends.

use vstd::prelude::*;

verus! {

/// The items ascend.
pub open spec fn sorted(s: Seq<i32>) -> bool {
    forall|i: int, j: int| 0 <= i <= j < s.len() ==> s[i] <= s[j]
}

/// The position found and the number of tests made by halving `low..=high`,
/// after `tests` tests. The middle item is tested and becomes the new lower
/// or upper end; once the ends touch, both are tested.
pub open spec fn halve(s: Seq<i32>, target: i32, low: int, high: int, tests: int) -> (int, int)
    decreases high - low,
{
    let i = low + (high - low) / 2;
    if s[i] == target {
        (i, tests + 1)
    } else {
        let lo = if s[i] < target {
            i
        } else {
            low
        };
        let hi = if s[i] < target {
            high
        } else {
            i
        };
        if hi - lo <= 1 {
            if s[lo] == target {
                (lo, tests + 2)
            } else if s[hi] == target {
                (hi, tests + 2)
            } else {
                (-1, tests + 1)
            }
        } else {
            halve(s, target, lo, hi, tests + 1)
        }
    }
}

/// What the search answers on a non-empty sequence: nothing, untested, when
/// `target` lies outside the first and last item; else the result of halving
/// the whole sequence.
pub open spec fn outcome(s: Seq<i32>, target: i32) -> (int, int) {
    if target < s[0] || target > s[s.len() - 1] {
        (-1, 0)
    } else {
        halve(s, target, 0, s.len() - 1, 0)
    }
}

/// Halving answers with a position of `target` inside the interval or with
/// `-1`; in a sorted sequence whose occurrences of `target` all lie inside
/// the interval, `-1` means that there is none.
pub proof fn lemma_halve_finds(s: Seq<i32>, target: i32, low: int, high: int, tests: int)
    requires
        0 <= low <= high < s.len(),
    ensures
        ({
            let pos = halve(s, target, low, high, tests).0;
            &&& pos == -1 || (low <= pos <= high && s[pos] == target)
            &&& sorted(s) && (forall|x: int|
                0 <= x < s.len() && s[x] == target ==> low <= x <= high) && pos == -1
                ==> !s.contains(target)
        }),
    decreases high - low,
{
    let i = low + (high - low) / 2;
    if s[i] != target {
        let lo = if s[i] < target {
            i
        } else {
            low
        };
        let hi = if s[i] < target {
            high
        } else {
            i
        };
        if hi - lo > 1 {
            lemma_halve_finds(s, target, lo, hi, tests + 1);
        }
    }
}

/// What the search answers is a position of `target` or `-1`, and in a sorted
/// sequence `-1` only when `target` does not occur.
pub proof fn lemma_outcome_finds(s: Seq<i32>, target: i32)
    requires
        s.len() >= 1,
    ensures
        outcome(s, target).0 == -1 || (0 <= outcome(s, target).0 < s.len() && s[outcome(
            s,
            target,
        ).0] == target),
        sorted(s) ==> (outcome(s, target).0 == -1 <==> !s.contains(target)),
{
    if target < s[0] || target > s[s.len() - 1] {
    } else {
        lemma_halve_finds(s, target, 0, s.len() - 1, 0);
    }
}

/// Searches `target` by halving. Returns its position and the number of
/// tests made, or `-1` in place of the position when it was not found; in a
/// sorted slice it is found whenever it occurs.
pub fn binary_search(vec: &[i32], target: i32) -> (res: (i32, i32))
    requires
        1 <= vec@.len() <= i32::MAX,
    ensures
        (res.0 as int, res.1 as int) == outcome(vec@, target),
        res.0 == -1 || (0 <= res.0 < vec@.len() && vec@[res.0 as int] == target),
        sorted(vec@) ==> (res.0 == -1 <==> !vec@.contains(target)),
{
    proof {
        lemma_outcome_finds(vec@, target);
    }
    if target < vec[0] || target > vec[vec.len() - 1] {
        return (-1, 0);
    }
    let mut high: usize = vec.len() - 1;
    let mut low: usize = 0;
    let mut test_count: i32 = 0;
    loop
        invariant
            1 <= vec@.len() <= i32::MAX,
            low <= high < vec@.len(),
            0 <= test_count,
            test_count + (high - low) <= vec@.len() - 1,
            test_count == 0 || high - low >= 2,
            outcome(vec@, target) == halve(
                vec@,
                target,
                low as int,
                high as int,
                test_count as int,
            ),
        decreases high - low,
    {
        proof {
            lemma_outcome_finds(vec@, target);
        }
        test_count += 1;
        let i: usize = low + (high - low) / 2;

        if vec[i] == target {
            return (i as i32, test_count);
        }
        if vec[i] < target {
            low = i;
        } else {
            high = i;
        }

        if (high - low) <= 1 {
            if vec[low] == target {
                return (low as i32, test_count + 1);
            }
            if vec[high] == target {
                return (high as i32, test_count + 1);
            }
            return (-1, test_count);
        }
    }
}

} // verus!
