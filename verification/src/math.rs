//! Powers and products of natural numbers.
use vstd::prelude::*;

verus! {

/// `base` to the power `e`.
pub open spec fn pow(base: nat, e: nat) -> nat
    decreases e,
{
    if e == 0 {
        1
    } else {
        base * pow(base, (e - 1) as nat)
    }
}

/// A power of a positive base is positive.
pub proof fn lemma_pow_positive(base: nat, e: nat)
    requires
        base > 0,
    ensures
        pow(base, e) > 0,
    decreases e,
{
    if e > 0 {
        lemma_pow_positive(base, (e - 1) as nat);
        let p = pow(base, (e - 1) as nat);
        assert(base * p > 0) by (nonlinear_arith)
            requires
                base > 0,
                p > 0,
        ;
    }
}

/// Exponents add under multiplication.
pub proof fn lemma_pow_add(base: nat, a: nat, b: nat)
    ensures
        pow(base, a + b) == pow(base, a) * pow(base, b),
    decreases a,
{
    if a == 0 {
        assert(1 * pow(base, b) == pow(base, b));
    } else {
        lemma_pow_add(base, (a - 1) as nat, b);
        let x = pow(base, (a - 1) as nat);
        let y = pow(base, b);
        assert((a + b - 1) as nat == (a - 1) as nat + b);
        assert(base * (x * y) == (base * x) * y) by (nonlinear_arith);
    }
}

/// Powers of a positive base grow with the exponent.
pub proof fn lemma_pow_monotone(base: nat, a: nat, b: nat)
    requires
        base > 0,
        a <= b,
    ensures
        pow(base, a) <= pow(base, b),
    decreases b - a,
{
    if a < b {
        lemma_pow_monotone(base, a, (b - 1) as nat);
        let p = pow(base, (b - 1) as nat);
        assert(p <= base * p) by (nonlinear_arith)
            requires
                base > 0,
        ;
    }
}

/// A power of ten is at least the same power of eight.
pub proof fn lemma_pow10_beyond_pow2(e: nat)
    ensures
        pow(10, e) >= pow(2, 3 * e),
    decreases e,
{
    if e > 0 {
        lemma_pow10_beyond_pow2((e - 1) as nat);
        assert((3 * e) as nat == 3 + 3 * (e - 1) as nat);
        lemma_pow_add(2, 3, (3 * (e - 1)) as nat);
        assert(pow(2, 3) == 8) by {
            reveal_with_fuel(pow, 4);
        }
    }
}

/// A natural number is below two to its power.
pub proof fn lemma_below_pow2(n: nat)
    ensures
        n < pow(2, n),
    decreases n,
{
    if n > 0 {
        lemma_below_pow2((n - 1) as nat);
    }
}

/// A power is as many factors.
pub proof fn powers_are_products(base: nat, e: nat)
    ensures
        pow(base, 0) == 1,
        pow(base, 1) == base,
        pow(base, e + 1) == base * pow(base, e),
{
    assert(pow(base, 0) == 1);
    assert(pow(base, 1) == base * pow(base, 0));
    assert(base * 1 == base);
}

} // verus!
