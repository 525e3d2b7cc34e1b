//! Counting sort of customers by their number of purchases.

use super::customer::Customer;
use crate::random::{scaled, state_after, Prng};
use crate::text::{decimal, push_decimal};
use vstd::prelude::*;
use vstd::string::StringExecFns;

verus! {

/// The number of customers in `s` with fewer than `k` purchases.
pub open spec fn count_less(s: Seq<Customer>, k: int) -> nat
    decreases s.len(),
{
    if s.len() == 0 {
        0
    } else {
        count_less(s.drop_last(), k) + if s.last().num_purchases < k {
            1nat
        } else {
            0nat
        }
    }
}

/// The number of customers in `s` with exactly `k` purchases.
pub open spec fn count_same(s: Seq<Customer>, k: int) -> nat
    decreases s.len(),
{
    if s.len() == 0 {
        0
    } else {
        count_same(s.drop_last(), k) + if s.last().num_purchases == k {
            1nat
        } else {
            0nat
        }
    }
}

/// Where customer `i` of `s` stands once `s` is sorted: behind all customers
/// with fewer purchases and behind those with as many that come before it.
pub open spec fn place(s: Seq<Customer>, i: int) -> int {
    (count_less(s, s[i].num_purchases as int) + count_same(
        s.take(i),
        s[i].num_purchases as int,
    )) as int
}

/// `res` is `s` sorted by purchases, customers with equally many in the order
/// they have in `s`.
pub open spec fn is_stable_sort(s: Seq<Customer>, res: Seq<Customer>) -> bool {
    &&& res.len() == s.len()
    &&& forall|i: int| 0 <= i < s.len() ==> res[#[trigger] place(s, i)] == s[i]
}

/// The numbers of purchases ascend.
pub open spec fn ascending(s: Seq<Customer>) -> bool {
    forall|a: int, b: int| 0 <= a <= b < s.len() ==> s[a].num_purchases <= s[b].num_purchases
}

/// Fewer than `k + 1` purchases means fewer than `k` or exactly `k`.
pub proof fn lemma_count_less_step(s: Seq<Customer>, k: int)
    ensures
        count_less(s, k + 1) == count_less(s, k) + count_same(s, k),
        count_less(s, k + 1) <= s.len(),
    decreases s.len(),
{
    if s.len() > 0 {
        lemma_count_less_step(s.drop_last(), k);
    }
}

/// More customers lie below a larger bound.
pub proof fn lemma_count_less_grows(s: Seq<Customer>, k1: int, k2: int)
    requires
        k1 <= k2,
    ensures
        count_less(s, k1) <= count_less(s, k2),
    decreases s.len(),
{
    if s.len() > 0 {
        lemma_count_less_grows(s.drop_last(), k1, k2);
    }
}

/// Taking one more customer counts it, if it has `k` purchases.
pub proof fn lemma_count_same_step(s: Seq<Customer>, i: int, k: int)
    requires
        0 <= i < s.len(),
    ensures
        count_same(s.take(i + 1), k) == count_same(s.take(i), k) + if s[i].num_purchases == k {
            1nat
        } else {
            0nat
        },
{
    assert(s.take(i + 1).drop_last() =~= s.take(i));
}

/// A longer prefix holds no fewer customers with `k` purchases.
pub proof fn lemma_count_same_grows(s: Seq<Customer>, i: int, j: int, k: int)
    requires
        0 <= i <= j <= s.len(),
    ensures
        count_same(s.take(i), k) <= count_same(s.take(j), k),
    decreases j - i,
{
    if i < j {
        lemma_count_same_step(s, j - 1, k);
        lemma_count_same_grows(s, i, j - 1, k);
    }
}

/// Every customer has a place of its own in `0..s.len()`; one with fewer
/// purchases, or with as many and an earlier position, has an earlier place.
pub proof fn lemma_place_order(s: Seq<Customer>, i: int, j: int)
    requires
        0 <= i < s.len(),
        0 <= j < s.len(),
    ensures
        0 <= place(s, i) < s.len(),
        s[i].num_purchases < s[j].num_purchases ==> place(s, i) < place(s, j),
        s[i].num_purchases == s[j].num_purchases && i < j ==> place(s, i) < place(s, j),
{
    let ki = s[i].num_purchases as int;
    let kj = s[j].num_purchases as int;
    lemma_count_same_step(s, i, ki);
    lemma_count_same_grows(s, i + 1, s.len() as int, ki);
    assert(s.take(s.len() as int) =~= s);
    lemma_count_less_step(s, ki);
    if ki < kj {
        lemma_count_less_grows(s, ki + 1, kj);
    }
    if ki == kj && i < j {
        lemma_count_same_grows(s, i + 1, j, ki);
    }
}

/// A sequence of `n` distinct values in `0..n` holds each of them.
pub proof fn lemma_distinct_is_onto(f: Seq<int>, a: int)
    requires
        forall|i: int| 0 <= i < f.len() ==> 0 <= #[trigger] f[i] < f.len(),
        forall|i: int, j: int| 0 <= i < j < f.len() ==> f[i] != f[j],
        0 <= a < f.len(),
    ensures
        f.contains(a),
    decreases f.len(),
{
    let n = f.len() as int;
    if f.contains(n - 1) {
        let j = choose|j: int| 0 <= j < f.len() && f[j] == n - 1;
        if a != n - 1 {
            let g = f.remove(j);
            assert forall|i: int| 0 <= i < g.len() implies 0 <= #[trigger] g[i] < g.len() by {
                if i < j {
                    assert(g[i] == f[i]);
                } else {
                    assert(g[i] == f[i + 1]);
                }
            }
            lemma_distinct_is_onto(g, a);
            let t = choose|t: int| 0 <= t < g.len() && g[t] == a;
            if t < j {
                assert(f[t] == a);
            } else {
                assert(f[t + 1] == a);
            }
        }
    } else {
        let g = f.drop_last();
        assert forall|i: int| 0 <= i < g.len() implies 0 <= #[trigger] g[i] < g.len() by {
            assert(g[i] == f[i]);
            assert(f.contains(f[i]));
        }
        assert(f.contains(f[n - 1]));
        lemma_distinct_is_onto(g, f[n - 1]);
        let t = choose|t: int| 0 <= t < g.len() && g[t] == f[n - 1];
        assert(f[t] == f[n - 1]);
    }
}

/// Every position of the sorted sequence is the place of some customer.
pub proof fn lemma_place_is_onto(s: Seq<Customer>, a: int)
    requires
        0 <= a < s.len(),
    ensures
        exists|i: int| 0 <= i < s.len() && #[trigger] place(s, i) == a,
{
    let f = Seq::new(s.len(), |i: int| place(s, i));
    assert forall|i: int| 0 <= i < f.len() implies 0 <= #[trigger] f[i] < f.len() by {
        lemma_place_order(s, i, i);
    }
    assert forall|i: int, j: int| 0 <= i < j < f.len() implies f[i] != f[j] by {
        lemma_place_order(s, i, j);
        lemma_place_order(s, j, i);
    }
    lemma_distinct_is_onto(f, a);
    let i = choose|i: int| 0 <= i < f.len() && f[i] == a;
    assert(place(s, i) == a);
}

/// A stable sort is sorted.
pub proof fn lemma_stable_sort_ascends(s: Seq<Customer>, res: Seq<Customer>)
    requires
        is_stable_sort(s, res),
    ensures
        ascending(res),
{
    assert forall|a: int, b: int| 0 <= a <= b < res.len() implies res[a].num_purchases
        <= res[b].num_purchases by {
        lemma_place_is_onto(s, a);
        lemma_place_is_onto(s, b);
        let i = choose|i: int| 0 <= i < s.len() && #[trigger] place(s, i) == a;
        let j = choose|j: int| 0 <= j < s.len() && #[trigger] place(s, j) == b;
        lemma_place_order(s, j, i);
    }
}

/// Sorts customers by their number of purchases, which lie in `0..=max`;
/// customers with equally many purchases keep their order.
pub fn counting_sort(v: &[Customer], max: i32) -> (sorted: Vec<Customer>)
    requires
        -1 <= max < i32::MAX,
        forall|i: int| 0 <= i < v@.len() ==> 0 <= (#[trigger] v@[i]).num_purchases <= max,
    ensures
        is_stable_sort(v@, sorted@),
        ascending(sorted@),
{
    let ghost s = v@;
    let n: usize = v.len();
    let keys: usize = (max + 1) as usize;
    let mut counts: Vec<usize> = vec![0; keys];
    let mut sorted: Vec<Customer> = vec![Customer::default(); n];

    // Count the number of occurrences of each value.
    let mut i: usize = 0;
    assert(s.take(0) =~= Seq::<Customer>::empty());
    while i < n
        invariant
            i <= n == s.len(),
            s == v@,
            keys == max + 1,
            counts@.len() == keys,
            forall|t: int| 0 <= t < s.len() ==> 0 <= (#[trigger] s[t]).num_purchases <= max,
            forall|k: int| 0 <= k < keys ==> #[trigger] counts@[k] == count_same(s.take(i as int), k),
        decreases n - i,
    {
        let k: usize = v[i].num_purchases as usize;
        proof {
            assert forall|k2: int| 0 <= k2 < keys implies count_same(s.take(i + 1), k2)
                == count_same(s.take(i as int), k2) + if s[i as int].num_purchases == k2 {
                1nat
            } else {
                0nat
            } by {
                lemma_count_same_step(s, i as int, k2);
            }
            lemma_count_same_grows(s, i + 1, n as int, k as int);
            assert(s.take(n as int) =~= s);
            lemma_count_less_step(s, k as int);
        }
        counts[k] = counts[k] + 1;
        i += 1;
    }
    assert(s.take(n as int) =~= s);

    // Modify counts to contain the number of elements <= i.
    let mut i: usize = 1;
    proof {
        if keys > 0 {
            lemma_count_less_step(s, 0);
            assert(count_less(s, 0) == 0) by {
                lemma_no_negative(s);
            }
        }
    }
    while i < keys
        invariant
            1 <= i,
            i <= keys || keys == 0,
            counts@.len() == keys,
            n == s.len(),
            forall|k: int| 0 <= k < i && k < keys ==> #[trigger] counts@[k] == count_less(s, k + 1),
            forall|k: int| i <= k < keys ==> #[trigger] counts@[k] == count_same(s, k),
        decreases keys - i,
    {
        proof {
            lemma_count_less_step(s, i as int);
        }
        counts[i] = counts[i] + counts[i - 1];
        i += 1;
    }

    // Build the sorted array.
    let mut i: usize = n;
    proof {
        assert forall|k: int| 0 <= k < keys implies #[trigger] counts@[k] == count_less(s, k)
            + count_same(s.take(n as int), k) by {
            lemma_count_less_step(s, k);
        }
    }
    while i > 0
        invariant
            i <= n == s.len(),
            s == v@,
            keys == max + 1,
            counts@.len() == keys,
            sorted@.len() == n,
            forall|t: int| 0 <= t < s.len() ==> 0 <= (#[trigger] s[t]).num_purchases <= max,
            forall|k: int|
                0 <= k < keys ==> #[trigger] counts@[k] == count_less(s, k) + count_same(
                    s.take(i as int),
                    k,
                ),
            forall|t: int| i <= t < n ==> sorted@[#[trigger] place(s, t)] == s[t],
        decreases i,
    {
        i -= 1;
        let k: usize = v[i].num_purchases as usize;
        proof {
            lemma_count_same_step(s, i as int, k as int);
            lemma_place_order(s, i as int, i as int);
            assert forall|k2: int| 0 <= k2 < keys implies count_same(s.take(i + 1), k2)
                == count_same(s.take(i as int), k2) + if s[i as int].num_purchases == k2 {
                1nat
            } else {
                0nat
            } by {
                lemma_count_same_step(s, i as int, k2);
            }
            assert forall|t: int| i < t < n implies place(s, t) != place(s, i as int) && 0
                <= #[trigger] place(s, t) < n by {
                lemma_place_order(s, i as int, t);
                lemma_place_order(s, t, i as int);
            }
        }
        let ghost filled = sorted@;
        let index: usize = counts[k] - 1;
        assert(index == place(s, i as int));
        sorted[index] = v[i].clone();
        counts[k] = counts[k] - 1;
        proof {
            assert forall|t: int| i <= t < n implies sorted@[#[trigger] place(s, t)] == s[t] by {
                if t > i {
                    assert(sorted@[place(s, t)] == filled[place(s, t)]);
                }
            }
        }
    }
    proof {
        lemma_stable_sort_ascends(s, sorted@);
    }
    sorted
}

/// Purchases are never negative, so none lie below 0.
proof fn lemma_no_negative(s: Seq<Customer>)
    requires
        forall|t: int| 0 <= t < s.len() ==> 0 <= (#[trigger] s[t]).num_purchases,
    ensures
        count_less(s, 0) == 0,
    decreases s.len(),
{
    if s.len() > 0 {
        assert forall|t: int| 0 <= t < s.drop_last().len() implies 0 <= (
        #[trigger] s.drop_last()[t]).num_purchases by {
            assert(s.drop_last()[t] == s[t]);
        }
        lemma_no_negative(s.drop_last());
    }
}

/// The identifier of the `i`-th customer made: `C` and the number.
pub open spec fn customer_id(i: int) -> Seq<char> {
    seq!['C'] + decimal(i)
}

/// `items` are the first customers that a generator in `state` makes, with
/// purchases from `0..max`.
pub open spec fn are_random_customers(items: Seq<Customer>, state: int, max: int) -> bool {
    forall|i: int|
        0 <= i < items.len() ==> (#[trigger] items[i]).id@ == customer_id(i) && items[i].num_purchases
            == scaled(state_after(state, (i + 1) as nat), 0, max)
}

/// The purchases lie in `0..max`, are 0 where `max` is 0, and lie above
/// `max` up to 0 where `max` is negative.
pub open spec fn purchases_within(s: Seq<Customer>, max: int) -> bool {
    forall|i: int|
        0 <= i < s.len() ==> {
            &&& 0 <= max ==> 0 <= (#[trigger] s[i]).num_purchases <= max
            &&& 0 < max ==> s[i].num_purchases < max
            &&& max < 0 ==> max < s[i].num_purchases <= 0
        }
}

/// `num_items` customers `C0`, `C1`, ... with purchases drawn from `0..max`
/// by the generator.
pub fn draw_customers(prng: &mut Prng, num_items: i32, max: i32) -> (vec: Vec<Customer>)
    requires
        0 <= num_items,
    ensures
        vec@.len() == num_items,
        are_random_customers(vec@, old(prng).state(), max as int),
        final(prng).state() == state_after(old(prng).state(), num_items as nat),
        purchases_within(vec@, max as int),
{
    proof {
        reveal_strlit("C");
    }
    let ghost start = prng.state();
    let mut vec: Vec<Customer> = Vec::with_capacity(num_items as usize);
    let mut i: i32 = 0;
    while i < num_items
        invariant
            0 <= i <= num_items,
            "C"@ == seq!['C'],
            vec@.len() == i,
            prng.state() == state_after(start, i as nat),
            are_random_customers(vec@, start, max as int),
            purchases_within(vec@, max as int),
        decreases num_items - i,
    {
        let mut id = String::new();
        id.append("C");
        push_decimal(&mut id, i as i64);
        assert(id@ =~= customer_id(i as int));
        let num_purchases: i32 = prng.next_i32(0, max);
        vec.push(Customer { id, num_purchases });
        i += 1;
    }
    vec
}

/// `num_items` customers `C0`, `C1`, ... with random purchases from
/// `0..max`, from a generator seeded by the clock.
pub fn make_random_vec(num_items: i32, max: i32) -> (vec: Vec<Customer>)
    requires
        0 <= num_items,
    ensures
        vec@.len() == num_items,
        forall|i: int| 0 <= i < vec@.len() ==> (#[trigger] vec@[i]).id@ == customer_id(i),
        purchases_within(vec@, max as int),
{
    let mut prng = Prng::new();
    draw_customers(&mut prng, num_items, max)
}

} // verus!
