//! The Fibonacci numbers, computed three ways.

use vstd::prelude::*;

verus! {

/// The index of the largest Fibonacci number that fits an `i64`.
pub const MAX_INDEX: i64 = 92;

/// The `n`-th Fibonacci number: 0, 1, 1, 2, 3, 5, ...
pub open spec fn fib(n: nat) -> nat
    decreases n,
{
    if n == 0 {
        0
    } else if n == 1 {
        1
    } else {
        fib((n - 1) as nat) + fib((n - 2) as nat)
    }
}

/// The Fibonacci numbers do not fall.
pub proof fn lemma_fib_grows(a: nat, b: nat)
    requires
        a <= b,
    ensures
        fib(a) <= fib(b),
    decreases b,
{
    if a < b {
        if b >= 2 {
            lemma_fib_grows(a, (b - 1) as nat);
        }
    }
}

/// The addition rule: `fib(m + n + 1) = fib(m + 1) fib(n + 1) + fib(m) fib(n)`.
pub proof fn lemma_fib_add(m: nat, n: nat)
    ensures
        fib(m + n + 1) == fib(m + 1) * fib(n + 1) + fib(m) * fib(n),
    decreases n,
{
    if n == 0 {
        assert(fib(1) == 1 && fib(0) == 0);
        assert(fib(m + 1) * 1 + fib(m) * 0 == fib(m + 1)) by (nonlinear_arith);
    } else if n == 1 {
        assert(fib(2) == 1 && fib(1) == 1) by {
            reveal_with_fuel(fib, 3);
        }
        assert(fib(m + 2) == fib(m + 1) + fib(m));
        assert(fib(m + 1) * 1 + fib(m) * 1 == fib(m + 1) + fib(m)) by (nonlinear_arith);
    } else {
        lemma_fib_add(m, (n - 1) as nat);
        lemma_fib_add(m, (n - 2) as nat);
        let a = fib(m + 1);
        let b = fib(m);
        let x = fib(n as nat);
        let y = fib((n - 1) as nat);
        let z = fib((n - 2) as nat);
        assert(fib(n + 1) == x + y);
        assert(x == y + z);
        assert(fib(m + n + 1) == fib(m + n) + fib((m + n - 1) as nat));
        assert(a * (x + y) + b * x == (a * x + b * y) + (a * y + b * z)) by (nonlinear_arith)
            requires
                x == y + z,
        ;
    }
}

/// The addition rule on known values.
proof fn lemma_fib_add_values(m: nat, n: nat, a: nat, b: nat, c: nat, d: nat)
    requires
        fib(m) == a,
        fib(m + 1) == b,
        fib(n) == c,
        fib(n + 1) == d,
    ensures
        fib(m + n + 1) == b * d + a * c,
{
    lemma_fib_add(m, n);
}

/// `fib(92)`, the largest Fibonacci number that fits an `i64`.
pub proof fn lemma_fib_of_92()
    ensures
        fib(92) == 7540113804746346429,
{
    assert(fib(10) == 55 && fib(11) == 89 && fib(12) == 144) by {
        reveal_with_fuel(fib, 3);
        assert(fib(2) == 1);
        assert(fib(4) == 3);
        assert(fib(6) == 8);
        assert(fib(8) == 21);
        assert(fib(10) == 55);
    }
    lemma_fib_add_values(10, 11, 55, 89, 89, 144);
    lemma_fib_add_values(11, 11, 89, 144, 89, 144);
    assert(fib(22) == 17711);
    assert(fib(23) == 28657);
    assert(fib(24) == 46368);
    lemma_fib_add_values(22, 23, 17711, 28657, 28657, 46368);
    lemma_fib_add_values(23, 23, 28657, 46368, 28657, 46368);
    assert(fib(46) == 1836311903);
    assert(fib(47) == 2971215073);
    assert(fib(45) == 1134903170);
    lemma_fib_add_values(45, 46, 1134903170, 1836311903, 1836311903, 2971215073);
}

/// Every Fibonacci number up to index 92 fits an `i64`.
pub proof fn lemma_fib_fits(n: nat)
    requires
        n <= 92,
    ensures
        fib(n) <= 7540113804746346429 <= i64::MAX,
{
    lemma_fib_grows(n, 92);
    lemma_fib_of_92();
}

/// `s` holds the Fibonacci numbers from index 0 on.
pub open spec fn is_fib_table(s: Seq<i64>) -> bool {
    forall|i: int| 0 <= i < s.len() ==> #[trigger] s[i] == fib(i as nat)
}

/// The `n`-th Fibonacci number, by the recursion that defines it.
pub fn fibonacci(n: i64) -> (r: i64)
    requires
        0 <= n <= MAX_INDEX,
    ensures
        r == fib(n as nat),
    decreases n,
{
    match n {
        0 => 0,
        1 => 1,
        _ => {
            proof {
                lemma_fib_fits(n as nat);
            }
            fibonacci(n - 1) + fibonacci(n - 2)
        },
    }
}

/// The `n`-th Fibonacci number, read from the table or computed and added to
/// it: afterwards the table reaches at least to index `n`.
pub fn fibonacci_on_the_fly(values: &mut Vec<i64>, n: i64) -> (r: i64)
    requires
        old(values)@.len() >= 2,
        is_fib_table(old(values)@),
        0 <= n <= MAX_INDEX,
    ensures
        r == fib(n as nat),
        is_fib_table(final(values)@),
        final(values)@.len() == (if old(values)@.len() > n {
            old(values)@.len() as int
        } else {
            n + 1
        }),
    decreases n,
{
    if values.len() > n as usize {
        return values[n as usize];
    }
    let a: i64 = fibonacci_on_the_fly(values, n - 1);
    let b: i64 = fibonacci_on_the_fly(values, n - 2);
    proof {
        lemma_fib_fits(n as nat);
    }
    let fibonacci_of_n: i64 = a + b;
    values.push(fibonacci_of_n);
    values[n as usize]
}

/// The table of all Fibonacci numbers that fit an `i64`: indices 0 to 92.
pub fn prefill_vector() -> (values: Vec<i64>)
    ensures
        values@.len() == MAX_INDEX + 1,
        is_fib_table(values@),
{
    let mut values: Vec<i64> = Vec::new();
    values.push(0);
    values.push(1);
    let mut i: usize = 2;
    while i < 93
        invariant
            2 <= i <= 93,
            values@.len() == i,
            is_fib_table(values@),
        decreases 93 - i,
    {
        proof {
            lemma_fib_fits(i as nat);
        }
        let next: i64 = values[i - 1] + values[i - 2];
        values.push(next);
        i += 1;
    }
    values
}

/// The `n`-th Fibonacci number, by building up from the first two; 1 for a
/// negative `n`, for which nothing is added up.
pub fn fibonacci_bottom_up(n: i64) -> (r: i64)
    requires
        n <= MAX_INDEX,
    ensures
        r == (if n < 0 {
            1
        } else {
            fib(n as nat) as int
        }),
{
    proof {
        reveal_with_fuel(fib, 2);
    }
    match n {
        0 => 0,
        1 => 1,
        _ => {
            let mut a: i64 = 0;
            let mut b: i64 = 1;
            let mut i: i64 = 2;
            while i <= n
                invariant
                    n <= MAX_INDEX,
                    2 <= i,
                    i <= n + 1 || i == 2,
                    a == fib((i - 2) as nat),
                    b == fib((i - 1) as nat),
                decreases n + 1 - i,
            {
                proof {
                    lemma_fib_fits(i as nat);
                }
                let c: i64 = a + b;
                a = b;
                b = c;
                i += 1;
            }
            b
        },
    }
}

} // verus!
