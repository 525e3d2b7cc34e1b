//! The factorial.

use vstd::prelude::*;

verus! {

/// `n!`, the product of `1..=n`.
pub open spec fn factorial_of(n: nat) -> nat
    decreases n,
{
    if n == 0 {
        1
    } else {
        n * factorial_of((n - 1) as nat)
    }
}

/// The factorial grows with its argument.
pub proof fn lemma_factorial_grows(a: nat, b: nat)
    requires
        a <= b,
    ensures
        1 <= factorial_of(a) <= factorial_of(b),
    decreases b,
{
    if a < b {
        lemma_factorial_grows(a, (b - 1) as nat);
        assert(factorial_of((b - 1) as nat) <= b * factorial_of((b - 1) as nat))
            by (nonlinear_arith)
            requires
                b >= 1,
        ;
    } else if a > 0 {
        lemma_factorial_grows((a - 1) as nat, (a - 1) as nat);
        assert(1 <= a * factorial_of((a - 1) as nat)) by (nonlinear_arith)
            requires
                a >= 1,
                factorial_of((a - 1) as nat) >= 1,
        ;
    }
}

/// `20!`, the largest factorial that fits an `i64`.
pub proof fn lemma_factorial_of_20()
    ensures
        factorial_of(20) == 2432902008176640000,
{
    reveal_with_fuel(factorial_of, 3);
    assert(factorial_of(2) == 2);
    assert(factorial_of(4) == 24);
    assert(factorial_of(6) == 720);
    assert(factorial_of(8) == 40320);
    assert(factorial_of(10) == 3628800);
    assert(factorial_of(12) == 479001600);
    assert(factorial_of(14) == 87178291200);
    assert(factorial_of(16) == 20922789888000);
    assert(factorial_of(18) == 6402373705728000);
    assert(factorial_of(20) == 2432902008176640000);
}

/// `n!` for `n` up to 20, where the product still fits.
pub fn factorial(n: &i64) -> (r: i64)
    requires
        0 <= *n <= 20,
    ensures
        r == factorial_of(*n as nat),
    decreases *n,
{
    if *n == 0 || *n == 1 {
        proof {
            reveal_with_fuel(factorial_of, 2);
        }
        return 1;
    }
    let rest: i64 = factorial(&(*n - 1));
    proof {
        lemma_factorial_grows(*n as nat, 20);
        lemma_factorial_of_20();
    }
    *n * rest
}

} // verus!
