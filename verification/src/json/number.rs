//! Numbers of a JSON text: decimal literals and the binary64 values they denote.
//!
//! A literal denotes a rational number, and its value here is the binary64
//! number nearest to it, a tie going to the even mantissa. The value is held as
//! integers: a sign, a mantissa and a power of two.
use crate::json::digits::{compare_half, multiply, quotient_below, Half};
use vstd::prelude::*;

verus! {

/// A binary64 number other than NaN.
#[derive(Clone, Copy, Debug)]
pub enum Number {
    /// `mantissa * 2^exponent`, negated where `negative` is set.
    Finite { negative: bool, mantissa: u64, exponent: i32 },
    /// Beyond the largest finite number.
    Infinite { negative: bool },
}

impl PartialEq for Number {
    /// Are the numbers equal? The two zeros are.
    fn eq(&self, other: &Number) -> (r: bool) {
        match (*self, *other) {
            (
                Number::Finite { negative, mantissa, exponent },
                Number::Finite { negative: n, mantissa: m, exponent: e },
            ) => (mantissa == 0 && m == 0) || (negative == n && mantissa == m && exponent == e),
            (Number::Infinite { negative }, Number::Infinite { negative: n }) => negative == n,
            _ => false,
        }
    }
}

impl vstd::std_specs::cmp::PartialEqSpecImpl for Number {
    open spec fn obeys_eq_spec() -> bool {
        true
    }

    open spec fn eq_spec(&self, other: &Number) -> bool {
        crate::json::grammar::same_number(*self, *other)
    }
}

/// The smallest power of two that a binary64 number is a multiple of.
pub const MIN_EXPONENT: i32 = -1074;

/// The largest exponent of a finite binary64 number with a 53-bit mantissa.
pub const MAX_EXPONENT: i32 = 971;

/// Two to the power 52, the least mantissa of a normal number.
pub const MANTISSA_LOW: u64 = 0x10_0000_0000_0000;

/// Two to the power 53, above every mantissa.
pub const MANTISSA_HIGH: u64 = 0x20_0000_0000_0000;

/// Numerator of `num / den / 2^q`.
pub open spec fn scaled_num(num: nat, q: int) -> nat {
    if q >= 0 {
        num
    } else {
        num * crate::math::pow(2, (-q) as nat)
    }
}

/// Denominator of `num / den / 2^q`.
pub open spec fn scaled_den(den: nat, q: int) -> nat {
    if q >= 0 {
        den * crate::math::pow(2, q as nat)
    } else {
        den
    }
}

/// `2^q` is the unit in which a mantissa of `num / den` is counted: the quotient
/// by it takes at most 53 bits, and takes all 53 unless `q` is the least
/// exponent there is.
pub open spec fn is_unit(num: nat, den: nat, q: int) -> bool {
    &&& q >= MIN_EXPONENT
    &&& scaled_num(num, q) < scaled_den(den, q) * MANTISSA_HIGH
    &&& q == MIN_EXPONENT || scaled_num(num, q) >= scaled_den(den, q) * MANTISSA_LOW
}

/// The unit exponent of `num / den`.
pub open spec fn unit(num: nat, den: nat) -> int {
    choose|q: int| is_unit(num, den, q)
}

/// `a / b` rounded to the nearest integer, a tie to the even one.
pub open spec fn round_half_even(a: nat, b: nat) -> nat {
    let floor = a / b;
    let rest = a % b;
    if 2 * rest < b || (2 * rest == b && floor % 2 == 0) {
        floor
    } else {
        floor + 1
    }
}

/// The number with mantissa `m` in units of `2^q`, where `m` may have been
/// rounded up to 54 bits.
pub open spec fn packed(negative: bool, m: nat, q: int) -> Number {
    let carried = m == MANTISSA_HIGH;
    let mantissa = if carried { MANTISSA_LOW } else { m as u64 };
    let exponent = if carried { q + 1 } else { q };
    if exponent > MAX_EXPONENT {
        Number::Infinite { negative }
    } else {
        Number::Finite { negative, mantissa, exponent: exponent as i32 }
    }
}

/// The binary64 number nearest to `num / den`, with the given sign.
pub open spec fn nearest(negative: bool, num: nat, den: nat) -> Number {
    let q = unit(num, den);
    packed(negative, round_half_even(scaled_num(num, q), scaled_den(den, q)), q)
}

/// The bounds of a mantissa are powers of two.
pub proof fn lemma_constants()
    ensures
        MANTISSA_LOW == crate::math::pow(2, 52),
        MANTISSA_HIGH == crate::math::pow(2, 53),
        MANTISSA_HIGH == 2 * MANTISSA_LOW,
{
    reveal_with_fuel(crate::math::pow, 14);
    assert(crate::math::pow(2, 13) == 8192);
    crate::math::lemma_pow_add(2, 13, 13);
    assert(8192nat * 8192 == 0x400_0000) by (nonlinear_arith);
    crate::math::lemma_pow_add(2, 26, 26);
    assert(0x400_0000nat * 0x400_0000 == 0x10_0000_0000_0000) by (nonlinear_arith);
    assert(crate::math::pow(2, 53) == 2 * crate::math::pow(2, 52));
}

/// A denominator stays positive.
pub proof fn lemma_scaled_positive(den: nat, q: int)
    requires
        den > 0,
    ensures
        scaled_den(den, q) > 0,
{
    if q >= 0 {
        crate::math::lemma_pow_positive(2, q as nat);
        let p = crate::math::pow(2, q as nat);
        assert(den * p > 0) by (nonlinear_arith)
            requires
                den > 0,
                p > 0,
        ;
    }
}

/// One more on the exponent halves the scaled quotient.
proof fn lemma_scaled_step(num: nat, den: nat, q: int)
    ensures
        scaled_num(num, q) * scaled_den(den, q + 1) == 2 * scaled_num(num, q + 1) * scaled_den(
            den,
            q,
        ),
{
    if q >= 0 {
        let p = crate::math::pow(2, q as nat);
        assert(crate::math::pow(2, (q + 1) as nat) == 2 * p);
        assert(num * (den * (2 * p)) == 2 * num * (den * p)) by (nonlinear_arith);
    } else {
        let p = crate::math::pow(2, (-q - 1) as nat);
        assert(crate::math::pow(2, (-q) as nat) == 2 * p);
        assert((num * (2 * p)) * den == 2 * (num * p) * den) by (nonlinear_arith);
        if q == -1 {
            assert(p == 1);
            assert(crate::math::pow(2, 0) == 1);
            assert(den * 1 == den);
            assert(num * 1 == num);
        }
    }
}

/// A quotient below `bound` at one exponent is below half of it at the next.
proof fn lemma_scaled_halves(num: nat, den: nat, q: int, half: nat)
    requires
        den > 0,
    ensures
        scaled_num(num, q) < scaled_den(den, q) * (2 * half) <==> scaled_num(num, q + 1)
            < scaled_den(den, q + 1) * half,
{
    lemma_scaled_positive(den, q);
    lemma_scaled_positive(den, q + 1);
    lemma_scaled_step(num, den, q);
    let a = scaled_num(num, q);
    let b = scaled_den(den, q);
    let c = scaled_num(num, q + 1);
    let d = scaled_den(den, q + 1);
    assert(a < b * (2 * half) <==> c < d * half) by (nonlinear_arith)
        requires
            b > 0,
            d > 0,
            a * d == 2 * c * b,
    {
        if a < b * (2 * half) {
            assert(a * d < b * (2 * half) * d);
            assert(2 * b * c < 2 * b * (d * half));
        }
        if c < d * half {
            assert(2 * b * c < 2 * b * (d * half));
            assert(a * d < d * (b * (2 * half)));
        }
    }
}

/// A quotient that fits 53 bits at one exponent fits 52 at every larger one.
pub proof fn lemma_scaled_fits(num: nat, den: nat, q: int, p: int)
    requires
        den > 0,
        q < p,
        scaled_num(num, q) < scaled_den(den, q) * MANTISSA_HIGH,
    ensures
        scaled_num(num, p) < scaled_den(den, p) * MANTISSA_LOW,
    decreases p - q,
{
    lemma_constants();
    lemma_scaled_halves(num, den, q, MANTISSA_LOW as nat);
    if q + 1 < p {
        lemma_scaled_positive(den, q + 1);
        let d = scaled_den(den, q + 1);
        assert(d * MANTISSA_LOW <= d * MANTISSA_HIGH) by (nonlinear_arith)
            requires
                MANTISSA_LOW <= MANTISSA_HIGH,
        ;
        lemma_scaled_fits(num, den, q + 1, p);
    }
}

/// No two exponents are units of one quotient.
proof fn lemma_unit_unique(num: nat, den: nat, q: int, p: int)
    requires
        den > 0,
        is_unit(num, den, q),
        is_unit(num, den, p),
    ensures
        q == p,
{
    if q < p {
        lemma_scaled_fits(num, den, q, p);
    } else if p < q {
        lemma_scaled_fits(num, den, p, q);
    }
}

/// Every quotient has a unit.
proof fn lemma_unit_exists_from(num: nat, den: nat, q: int) -> (r: int)
    requires
        den > 0,
        q >= MIN_EXPONENT,
        q == MIN_EXPONENT || scaled_num(num, q) >= scaled_den(den, q) * MANTISSA_LOW,
    ensures
        is_unit(num, den, r),
    decreases num - q,
{
    lemma_constants();
    if scaled_num(num, q) < scaled_den(den, q) * MANTISSA_HIGH {
        q
    } else {
        if q >= num {
            crate::math::lemma_below_pow2(num);
            crate::math::lemma_pow_monotone(2, num, q as nat);
            let p = crate::math::pow(2, q as nat);
            assert(num < den * p * MANTISSA_HIGH) by (nonlinear_arith)
                requires
                    num < p,
                    den > 0,
                    MANTISSA_HIGH > 1,
            ;
        }
        lemma_scaled_halves(num, den, q, MANTISSA_LOW as nat);
        lemma_unit_exists_from(num, den, q + 1)
    }
}

/// The unit of a quotient is the only exponent that is one.
pub proof fn lemma_unit_is(num: nat, den: nat, q: int)
    requires
        den > 0,
        is_unit(num, den, q),
    ensures
        unit(num, den) == q,
{
    lemma_unit_unique(num, den, unit(num, den), q);
}

/// The unit of a quotient is one.
pub proof fn lemma_unit_exists(num: nat, den: nat)
    requires
        den > 0,
    ensures
        is_unit(num, den, unit(num, den)),
{
    let q = lemma_unit_exists_from(num, den, MIN_EXPONENT as int);
    assert(is_unit(num, den, q));
}

/// A quotient that does not fit 53 bits at an exponent has a larger unit.
pub proof fn lemma_unit_above(num: nat, den: nat, q: int)
    requires
        den > 0,
        scaled_num(num, q) >= scaled_den(den, q) * MANTISSA_HIGH,
    ensures
        unit(num, den) > q,
{
    lemma_unit_exists(num, den);
    lemma_constants();
    let u = unit(num, den);
    if u < q {
        lemma_scaled_fits(num, den, u, q);
        lemma_scaled_positive(den, q);
        let d = scaled_den(den, q);
        assert(d * MANTISSA_LOW <= d * MANTISSA_HIGH) by (nonlinear_arith)
            requires
                MANTISSA_LOW <= MANTISSA_HIGH,
        ;
    }
}

/// Rounding looks at the ratio only.
proof fn lemma_round_ratio(a: nat, b: nat, c: nat, d: nat)
    requires
        b > 0,
        d > 0,
        a * d == c * b,
    ensures
        round_half_even(a, b) == round_half_even(c, d),
{
    let q = a / b;
    let r = a % b;
    assert(a == q * b + r && 0 <= r < b) by {
        vstd::arithmetic::div_mod::lemma_fundamental_div_mod(a as int, b as int);
        vstd::arithmetic::mul::lemma_mul_is_commutative(b as int, q as int);
    }
    let s = c - q * d;
    assert(s * b == r * d) by (nonlinear_arith)
        requires
            a * d == c * b,
            a == q * b + r,
            s == c - q * d,
    ;
    assert(0 <= s < d) by (nonlinear_arith)
        requires
            s * b == r * d,
            0 <= r < b,
            d > 0,
    ;
    vstd::arithmetic::div_mod::lemma_fundamental_div_mod_converse(
        c as int,
        d as int,
        q as int,
        s,
    );
    assert((2 * r < b <==> 2 * s < d) && (2 * r == b <==> 2 * s == d)) by (nonlinear_arith)
        requires
            s * b == r * d,
            b > 0,
            d > 0,
    {
        assert((2 * r) * d == (2 * s) * b);
        if 2 * r < b {
            assert((2 * r) * d < b * d);
        }
        if 2 * s < d {
            assert((2 * s) * b < d * b);
        }
    }
}

/// A decimal so small that half of the least positive number is above it is zero.
pub proof fn lemma_tiny(negative: bool, num: nat, den: nat)
    requires
        den > 0,
        2 * (num * crate::math::pow(2, 1074)) < den,
    ensures
        nearest(negative, num, den) == (Number::Finite {
            negative,
            mantissa: 0,
            exponent: MIN_EXPONENT,
        }),
{
    let a = scaled_num(num, -1074);
    assert(den * MANTISSA_HIGH >= den) by (nonlinear_arith)
        requires
            MANTISSA_HIGH >= 1,
    ;
    lemma_unit_is(num, den, -1074);
    vstd::arithmetic::div_mod::lemma_fundamental_div_mod_converse(
        a as int,
        den as int,
        0,
        a as int,
    );
}

/// `v / 10^k` is `num / den / 2^q`.
spec fn represents(v: nat, k: nat, num: nat, den: nat, q: int) -> bool {
    v * scaled_den(den, q) == scaled_num(num, q) * crate::math::pow(10, k)
}

/// Five times as much over ten times as much is one step up in the exponent.
proof fn lemma_step_up(v: nat, k: nat, num: nat, den: nat, q: int)
    requires
        den > 0,
        represents(v, k, num, den, q),
    ensures
        represents(5 * v, k + 1, num, den, q + 1),
{
    lemma_scaled_step(num, den, q);
    lemma_scaled_positive(den, q);
    let p = crate::math::pow(10, k);
    assert(crate::math::pow(10, k + 1) == 10 * p);
    let (a, b) = (scaled_num(num, q), scaled_den(den, q));
    let (c, d) = (scaled_num(num, q + 1), scaled_den(den, q + 1));
    assert((5 * v) * d == c * (10 * p)) by (nonlinear_arith)
        requires
            b > 0,
            v * b == a * p,
            a * d == 2 * c * b,
    {
        assert(((5 * v) * d) * b == 5 * (v * b) * d);
        assert(5 * (a * p) * d == 5 * p * (a * d));
        assert(5 * p * (2 * c * b) == (c * (10 * p)) * b);
        assert(((5 * v) * d) * b == (c * (10 * p)) * b);
    }
}

/// Twice as much is one step down in the exponent.
proof fn lemma_step_down(v: nat, k: nat, num: nat, den: nat, q: int)
    requires
        den > 0,
        represents(v, k, num, den, q),
    ensures
        represents(2 * v, k, num, den, q - 1),
{
    lemma_scaled_step(num, den, q - 1);
    lemma_scaled_positive(den, q);
    let p = crate::math::pow(10, k);
    let (a, b) = (scaled_num(num, q), scaled_den(den, q));
    let (c, d) = (scaled_num(num, q - 1), scaled_den(den, q - 1));
    assert((2 * v) * d == c * p) by (nonlinear_arith)
        requires
            b > 0,
            v * b == a * p,
            c * b == 2 * a * d,
    {
        assert(((2 * v) * d) * b == 2 * (v * b) * d);
        assert(2 * (a * p) * d == p * (2 * a * d));
        assert(p * (c * b) == (c * p) * b);
        assert(((2 * v) * d) * b == (c * p) * b);
    }
}

/// Bounds on `v / 10^k` are bounds on the scaled quotient.
proof fn lemma_represents_bound(v: nat, k: nat, num: nat, den: nat, q: int, bound: nat)
    requires
        den > 0,
        represents(v, k, num, den, q),
    ensures
        v < crate::math::pow(10, k) * bound <==> scaled_num(num, q) < scaled_den(den, q) * bound,
{
    lemma_scaled_positive(den, q);
    crate::math::lemma_pow_positive(10, k);
    let p = crate::math::pow(10, k);
    let (a, b) = (scaled_num(num, q), scaled_den(den, q));
    assert(v < p * bound <==> a < b * bound) by (nonlinear_arith)
        requires
            b > 0,
            p > 0,
            v * b == a * p,
    {
        if v < p * bound {
            assert(v * b < (p * bound) * b);
            assert(a * p < (b * bound) * p);
        }
        if a < b * bound {
            assert(a * p < (b * bound) * p);
            assert(v * b < (p * bound) * b);
        }
    }
}

/// The digits above position `k` are the quotient by `10^k`, those below it the
/// remainder, and the quotient tells on which side of a bound the number is.
proof fn lemma_quotient(d: Seq<u8>, k: int, bound: nat)
    requires
        crate::json::digits::all_digits(d),
        0 <= k <= d.len(),
    ensures
        crate::json::digits::value(d) / crate::math::pow(10, k as nat)
            == crate::json::digits::value(d.skip(k)),
        crate::json::digits::value(d) % crate::math::pow(10, k as nat)
            == crate::json::digits::value(d.take(k)),
        crate::json::digits::value(d) < crate::math::pow(10, k as nat) * bound
            <==> crate::json::digits::value(d.skip(k)) < bound,
{
    crate::json::digits::lemma_split(d, k);
    assert(crate::json::digits::all_digits(d.take(k)));
    crate::json::digits::lemma_bound(d.take(k));
    let p = crate::math::pow(10, k as nat);
    let v = crate::json::digits::value(d);
    let high = crate::json::digits::value(d.skip(k));
    let low = crate::json::digits::value(d.take(k));
    assert(p * high == high * p) by (nonlinear_arith);
    vstd::arithmetic::div_mod::lemma_fundamental_div_mod_converse(
        v as int,
        p as int,
        high as int,
        low as int,
    );
    assert(v < p * bound <==> high < bound) by (nonlinear_arith)
        requires
            v == low + p * high,
            low < p,
    {
        if high < bound {
            assert(p * high + p <= p * bound);
        } else {
            assert(p * high >= p * bound);
        }
    }
}

/// Rounds `value(digits) / 10^k`, which stands for a quotient scaled by `2^q`.
fn rounded(
    digits: &Vec<u8>,
    k: usize,
    q: i32,
    negative: bool,
    Ghost(num): Ghost<nat>,
    Ghost(den): Ghost<nat>,
) -> (r: Number)
    requires
        crate::json::digits::all_digits(digits@),
        k <= digits@.len(),
        den > 0,
        represents(crate::json::digits::value(digits@), k as nat, num, den, q as int),
        MIN_EXPONENT <= q <= MAX_EXPONENT,
        crate::json::digits::value(digits@.skip(k as int)) < MANTISSA_HIGH,
        q == MIN_EXPONENT || crate::json::digits::value(digits@.skip(k as int)) >= MANTISSA_LOW,
    ensures
        r == nearest(negative, num, den),
{
    let ghost v = crate::json::digits::value(digits@);
    let ghost p = crate::math::pow(10, k as nat);
    proof {
        lemma_constants();
        lemma_quotient(digits@, k as int, MANTISSA_HIGH as nat);
        lemma_quotient(digits@, k as int, MANTISSA_LOW as nat);
        lemma_represents_bound(v, k as nat, num, den, q as int, MANTISSA_HIGH as nat);
        lemma_represents_bound(v, k as nat, num, den, q as int, MANTISSA_LOW as nat);
        lemma_unit_is(num, den, q as int);
        lemma_scaled_positive(den, q as int);
        crate::math::lemma_pow_positive(10, k as nat);
        lemma_round_ratio(
            scaled_num(num, q as int),
            scaled_den(den, q as int),
            v,
            p,
        );
    }
    match quotient_below(digits, k, MANTISSA_HIGH) {
        None => {
            assert(false);
            Number::Infinite { negative }
        },
        Some(floor) => {
            let up: bool = match compare_half(digits, k) {
                Half::Below => false,
                Half::Exactly => floor % 2 == 1,
                Half::Above => true,
            };
            let m: u64 = if up {
                floor + 1
            } else {
                floor
            };
            assert(m == round_half_even(v, p));
            if m == MANTISSA_HIGH {
                if q == MAX_EXPONENT {
                    Number::Infinite { negative }
                } else {
                    Number::Finite { negative, mantissa: MANTISSA_LOW, exponent: q + 1 }
                }
            } else {
                Number::Finite { negative, mantissa: m, exponent: q }
            }
        },
    }
}

/// The binary64 number nearest to `value(start) / 10^places`.
pub(crate) fn nearest_to(start: Vec<u8>, places: usize, negative: bool) -> (r: Number)
    requires
        crate::json::digits::all_digits(start@),
        places <= start@.len(),
    ensures
        r == nearest(
            negative,
            crate::json::digits::value(start@),
            crate::math::pow(10, places as nat),
        ),
{
    let ghost num = crate::json::digits::value(start@);
    let ghost den = crate::math::pow(10, places as nat);
    let mut digits = start;
    let mut k: usize = places;
    let mut q: i32 = 0;
    proof {
        lemma_constants();
        crate::math::lemma_pow_positive(10, k as nat);
        assert(crate::math::pow(2, 0) == 1);
        assert(den * 1 == den);
    }
    while quotient_below(&digits, k, MANTISSA_HIGH).is_none()
        invariant
            crate::json::digits::all_digits(digits@),
            k <= digits@.len(),
            num == crate::json::digits::value(start@),
            den == crate::math::pow(10, places as nat),
            den > 0,
            0 <= q <= MAX_EXPONENT,
            represents(crate::json::digits::value(digits@), k as nat, num, den, q as int),
        ensures
            crate::json::digits::value(digits@.skip(k as int)) < MANTISSA_HIGH,
        decreases MAX_EXPONENT - q,
    {
        let ghost v = crate::json::digits::value(digits@);
        proof {
            lemma_quotient(digits@, k as int, MANTISSA_HIGH as nat);
            lemma_represents_bound(v, k as nat, num, den, q as int, MANTISSA_HIGH as nat);
            lemma_unit_above(num, den, q as int);
            lemma_step_up(v, k as nat, num, den, q as int);
            if digits@.len() == k {
                assert(digits@.skip(k as int).len() == 0);
            }
        }
        if q == MAX_EXPONENT {
            return Number::Infinite { negative };
        }
        multiply(&mut digits, 5);
        assert(k < digits.len());
        k += 1;
        q += 1;
    }
    while q > MIN_EXPONENT && quotient_below(&digits, k, MANTISSA_LOW).is_some()
        invariant
            crate::json::digits::all_digits(digits@),
            k <= digits@.len(),
            den > 0,
            MIN_EXPONENT <= q <= MAX_EXPONENT,
            represents(crate::json::digits::value(digits@), k as nat, num, den, q as int),
            crate::json::digits::value(digits@.skip(k as int)) < MANTISSA_HIGH,
        ensures
            q == MIN_EXPONENT || crate::json::digits::value(digits@.skip(k as int))
                >= MANTISSA_LOW,
        decreases q - MIN_EXPONENT,
    {
        let ghost v = crate::json::digits::value(digits@);
        let ghost p = crate::math::pow(10, k as nat);
        proof {
            lemma_constants();
            lemma_quotient(digits@, k as int, MANTISSA_LOW as nat);
            lemma_step_down(v, k as nat, num, den, q as int);
        }
        multiply(&mut digits, 2);
        proof {
            lemma_quotient(digits@, k as int, MANTISSA_HIGH as nat);
            assert(2 * v < p * MANTISSA_HIGH) by (nonlinear_arith)
                requires
                    v < p * MANTISSA_LOW,
                    MANTISSA_HIGH == 2 * MANTISSA_LOW,
            ;
        }
        q -= 1;
    }
    rounded(&digits, k, q, negative, Ghost(num), Ghost(den))
}

impl Number {
    /// The form in which every finite number has one mantissa and one exponent:
    /// 53 bits of mantissa, fewer only at the least exponent.
    pub open spec fn wf(self) -> bool {
        match self {
            Number::Finite { mantissa, exponent, .. } => {
                &&& mantissa < MANTISSA_HIGH
                &&& MIN_EXPONENT <= exponent <= MAX_EXPONENT
                &&& mantissa >= MANTISSA_LOW || exponent == MIN_EXPONENT
            },
            Number::Infinite { .. } => true,
        }
    }

    /// The non-negative integer that the number is, if it is one. Negative zero
    /// is zero.
    pub open spec fn integer(self) -> Option<nat> {
        match self {
            Number::Finite { negative, mantissa, exponent } => if negative && mantissa != 0 {
                None
            } else if exponent >= 0 {
                Some(mantissa as nat * crate::math::pow(2, exponent as nat))
            } else {
                let part = crate::math::pow(2, (-exponent) as nat);
                if mantissa as nat % part == 0 {
                    Some(mantissa as nat / part)
                } else {
                    None
                }
            },
            Number::Infinite { .. } => None,
        }
    }

    /// The number as an integer, exactly: none where it is negative, has a fraction,
    /// is infinite or is beyond the largest `usize`.
    pub fn as_usize(&self) -> (r: Option<usize>)
        ensures
            match r {
                Some(k) => self.integer() == Some(k as nat),
                None => self.integer() matches Some(k) ==> k > usize::MAX,
            },
    {
        match *self {
            Number::Infinite { .. } => None,
            Number::Finite { negative, mantissa, exponent } => {
                if negative && mantissa != 0 {
                    return None;
                }
                if exponent >= 0 {
                    shifted_up(mantissa, exponent as u32)
                } else {
                    match shifted_down(mantissa, (-(exponent as i64)) as u32) {
                        None => None,
                        Some(v) => if v > usize::MAX as u64 {
                            None
                        } else {
                            Some(v as usize)
                        },
                    }
                }
            },
        }
    }

    /// The number in the interchange format of 64 bits: the sign, eleven bits of
    /// biased exponent and the mantissa without its leading bit.
    pub open spec fn bits(self) -> nat {
        match self {
            Number::Finite { negative, mantissa, exponent } => {
                let sign = if negative { 0x8000_0000_0000_0000nat } else { 0 };
                if mantissa < MANTISSA_LOW {
                    sign + mantissa as nat
                } else {
                    sign + (exponent - MIN_EXPONENT + 1) as nat * MANTISSA_LOW as nat + (mantissa
                        - MANTISSA_LOW) as nat
                }
            },
            Number::Infinite { negative } => {
                let sign = if negative { 0x8000_0000_0000_0000nat } else { 0 };
                sign + 0x7ff0_0000_0000_0000
            },
        }
    }

    /// The bits of the number, in the interchange format.
    pub fn to_bits(&self) -> (r: u64)
        requires
            self.wf(),
        ensures
            r == self.bits(),
    {
        match *self {
            Number::Finite { negative, mantissa, exponent } => {
                let sign: u64 = if negative {
                    0x8000_0000_0000_0000
                } else {
                    0
                };
                if mantissa < MANTISSA_LOW {
                    sign + mantissa
                } else {
                    let biased: u64 = (exponent - MIN_EXPONENT + 1) as u64;
                    sign + biased * MANTISSA_LOW + (mantissa - MANTISSA_LOW)
                }
            },
            Number::Infinite { negative } => if negative {
                0xfff0_0000_0000_0000
            } else {
                0x7ff0_0000_0000_0000
            },
        }
    }
}

/// `m * 2^e`, if a `usize` holds it.
fn shifted_up(m: u64, e: u32) -> (r: Option<usize>)
    ensures
        match r {
            Some(k) => k == m as nat * crate::math::pow(2, e as nat),
            None => m as nat * crate::math::pow(2, e as nat) > usize::MAX,
        },
{
    let mut v: u64 = m;
    let mut left: u32 = e;
    let ghost goal = m as nat * crate::math::pow(2, e as nat);
    if m == 0 {
        assert(0 * crate::math::pow(2, e as nat) == 0);
        return Some(0);
    }
    while left > 0 && v <= 0x7fff_ffff_ffff_ffff
        invariant
            v > 0,
            goal == v as nat * crate::math::pow(2, left as nat),
        decreases left,
    {
        proof {
            let p = crate::math::pow(2, (left - 1) as nat);
            assert(crate::math::pow(2, left as nat) == 2 * p);
            assert(v as nat * (2 * p) == (2 * v) as nat * p) by (nonlinear_arith);
        }
        v = 2 * v;
        left -= 1;
    }
    proof {
        let p = crate::math::pow(2, left as nat);
        crate::math::lemma_pow_positive(2, left as nat);
        assert(v as nat * p >= v) by (nonlinear_arith)
            requires
                p >= 1,
        ;
        if left > 0 {
            let half = crate::math::pow(2, (left - 1) as nat);
            crate::math::lemma_pow_positive(2, (left - 1) as nat);
            assert(v as nat * p >= 2 * v) by (nonlinear_arith)
                requires
                    p == 2 * half,
                    half >= 1,
            ;
        } else {
            assert(v as nat * 1 == v);
        }
    }
    if left > 0 || v > usize::MAX as u64 {
        None
    } else {
        Some(v as usize)
    }
}

/// Division by twice a number in two steps.
proof fn lemma_halved(v: nat, p: nat)
    requires
        p > 0,
    ensures
        v % 2 == 0 ==> v % (2 * p) == 2 * ((v / 2) % p) && v / (2 * p) == (v / 2) / p,
        v % 2 == 1 ==> v % (2 * p) != 0,
{
    if v % 2 == 0 {
        let w = v / 2;
        let (a, b) = (w / p, w % p);
        vstd::arithmetic::div_mod::lemma_fundamental_div_mod(w as int, p as int);
        assert(v == a * (2 * p) + 2 * b) by (nonlinear_arith)
            requires
                v == 2 * w,
                w == p * a + b,
        ;
        vstd::arithmetic::div_mod::lemma_fundamental_div_mod_converse(
            v as int,
            (2 * p) as int,
            a as int,
            (2 * b) as int,
        );
    } else {
        let (a, b) = (v / (2 * p), v % (2 * p));
        vstd::arithmetic::div_mod::lemma_fundamental_div_mod(v as int, (2 * p) as int);
        if b == 0 {
            assert(v == 2 * (p * a)) by (nonlinear_arith)
                requires
                    v == (2 * p) * a,
            ;
        }
    }
}

/// `m / 2^e` where that leaves no remainder.
fn shifted_down(m: u64, e: u32) -> (r: Option<u64>)
    ensures
        match r {
            Some(v) => m as nat % crate::math::pow(2, e as nat) == 0 && v == m as nat
                / crate::math::pow(2, e as nat),
            None => m as nat % crate::math::pow(2, e as nat) != 0,
        },
{
    let mut v: u64 = m;
    let mut left: u32 = e;
    while left > 0
        invariant
            m as nat % crate::math::pow(2, e as nat) == 0 <==> v as nat % crate::math::pow(
                2,
                left as nat,
            ) == 0,
            m as nat / crate::math::pow(2, e as nat) == v as nat / crate::math::pow(
                2,
                left as nat,
            ),
        decreases left,
    {
        proof {
            let p = crate::math::pow(2, (left - 1) as nat);
            crate::math::lemma_pow_positive(2, (left - 1) as nat);
            assert(crate::math::pow(2, left as nat) == 2 * p);
            lemma_halved(v as nat, p);
        }
        if v % 2 == 1 {
            return None;
        }
        v = v / 2;
        left -= 1;
    }
    assert(crate::math::pow(2, 0) == 1);
    assert(v as nat % 1 == 0 && v as nat / 1 == v);
    Some(v)
}

/// The nearest number is in the form with one mantissa and one exponent.
pub proof fn nearest_is_wf(negative: bool, num: nat, den: nat)
    requires
        den > 0,
    ensures
        nearest(negative, num, den).wf(),
{
    lemma_constants();
    lemma_unit_exists(num, den);
    let q = unit(num, den);
    lemma_scaled_positive(den, q);
    let (a, b) = (scaled_num(num, q), scaled_den(den, q));
    let floor = a / b;
    vstd::arithmetic::div_mod::lemma_fundamental_div_mod(a as int, b as int);
    let rest = a % b;
    assert(floor < MANTISSA_HIGH && (a >= b * MANTISSA_LOW ==> floor >= MANTISSA_LOW))
        by (nonlinear_arith)
        requires
            a == b * floor + rest,
            rest < b,
            a < b * MANTISSA_HIGH,
    {
        if floor >= MANTISSA_HIGH {
            assert(b * floor >= b * MANTISSA_HIGH);
        }
        if a >= b * MANTISSA_LOW && floor < MANTISSA_LOW {
            assert(b * floor + b <= b * MANTISSA_LOW);
        }
    }
}

} // verus!
