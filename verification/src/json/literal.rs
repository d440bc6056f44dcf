//! Decimal literals and the numbers they denote.
use crate::json::number::{nearest_to, Number, MANTISSA_HIGH, MANTISSA_LOW, MIN_EXPONENT};
use vstd::prelude::*;

verus! {

/// Is the byte a decimal digit?
pub open spec fn is_digit(b: u8) -> bool {
    48 <= b <= 57
}

/// The first position from `i` on that holds no digit.
pub open spec fn digits_end(t: Seq<u8>, i: int) -> int
    decreases t.len() - i,
{
    if 0 <= i < t.len() && is_digit(t[i]) {
        digits_end(t, i + 1)
    } else {
        i
    }
}

/// The number that the digits `from..to` stand for.
pub open spec fn digits_value(t: Seq<u8>, from: int, to: int) -> nat
    decreases to - from,
{
    if from >= to {
        0
    } else {
        (t[from] - 48) as nat * crate::math::pow(10, (to - from - 1) as nat) + digits_value(
            t,
            from + 1,
            to,
        )
    }
}

/// A decimal literal, `digits * 10^exponent` with a sign.
pub ghost struct Decimal {
    pub negative: bool,
    pub digits: nat,
    pub exponent: int,
}

/// Is there a plus or a minus sign at `i`?
pub open spec fn is_sign(t: Seq<u8>, i: int) -> bool {
    0 <= i < t.len() && (t[i] == 43 || t[i] == 45)
}

/// Past a sign at `i`, if there is one.
pub open spec fn after_sign(t: Seq<u8>, i: int) -> int {
    if is_sign(t, i) {
        i + 1
    } else {
        i
    }
}

/// The literal that a text is: an optional sign; digits with at most one point
/// before, among or after them, at least one digit in all; and optionally `e`
/// or `E`, a sign and at least one digit. Anything else is none.
pub open spec fn literal(t: Seq<u8>) -> Option<Decimal> {
    let negative = t.len() > 0 && t[0] == 45;
    let from = after_sign(t, 0);
    let int_end = digits_end(t, from);
    let point = int_end < t.len() && t[int_end] == 46;
    let frac = if point { int_end + 1 } else { int_end };
    let frac_end = if point { digits_end(t, frac) } else { int_end };
    let digits = digits_value(t, from, int_end) * crate::math::pow(10, (frac_end - frac) as nat)
        + digits_value(t, frac, frac_end);
    if from == int_end && frac == frac_end {
        None
    } else if frac_end >= t.len() {
        Some(Decimal { negative, digits, exponent: frac - frac_end })
    } else if t[frac_end] == 101 || t[frac_end] == 69 {
        let e = after_sign(t, frac_end + 1);
        let e_end = digits_end(t, e);
        let magnitude = digits_value(t, e, e_end);
        let scale = if is_sign(t, frac_end + 1) && t[frac_end + 1] == 45 {
            -magnitude
        } else {
            magnitude as int
        };
        if e < e_end && e_end >= t.len() {
            Some(Decimal { negative, digits, exponent: scale + frac - frac_end })
        } else {
            None
        }
    } else {
        None
    }
}

/// The numerator of a decimal.
pub open spec fn decimal_num(d: Decimal) -> nat {
    if d.exponent >= 0 {
        d.digits * crate::math::pow(10, d.exponent as nat)
    } else {
        d.digits
    }
}

/// The denominator of a decimal.
pub open spec fn decimal_den(d: Decimal) -> nat {
    if d.exponent >= 0 {
        1
    } else {
        crate::math::pow(10, (-d.exponent) as nat)
    }
}

/// The binary64 number nearest to a decimal.
pub open spec fn decimal_number(d: Decimal) -> Number {
    crate::json::number::nearest(d.negative, decimal_num(d), decimal_den(d))
}

/// The number that a text denotes, if it is a literal.
pub open spec fn number_of(t: Seq<u8>) -> Option<Number> {
    match literal(t) {
        Some(d) => Some(decimal_number(d)),
        None => None,
    }
}

/// Digits end inside the text, and there are nothing but digits before.
pub proof fn lemma_digits_end(t: Seq<u8>, i: int)
    requires
        0 <= i <= t.len(),
    ensures
        i <= digits_end(t, i) <= t.len(),
        forall|j: int| i <= j < digits_end(t, i) ==> is_digit(#[trigger] t[j]),
    decreases t.len() - i,
{
    if i < t.len() && is_digit(t[i]) {
        lemma_digits_end(t, i + 1);
    }
}

/// A digit behind the others multiplies them by ten.
pub proof fn lemma_digits_behind(t: Seq<u8>, from: int, to: int)
    requires
        0 <= from <= to < t.len(),
        forall|j: int| from <= j <= to ==> is_digit(#[trigger] t[j]),
    ensures
        digits_value(t, from, to + 1) == 10 * digits_value(t, from, to) + (t[to] - 48),
    decreases to - from,
{
    if from == to {
        assert(digits_value(t, to + 1, to + 1) == 0);
        assert((t[to] - 48) as nat * 1 == t[to] - 48);
    } else {
        lemma_digits_behind(t, from + 1, to);
        let p = crate::math::pow(10, (to - from - 1) as nat);
        assert(crate::math::pow(10, (to - from) as nat) == 10 * p);
        let d = (t[from] - 48) as nat;
        assert(d * (10 * p) == 10 * (d * p)) by (nonlinear_arith);
    }
}

/// A decimal of at least `10^400` is beyond every finite number.
pub proof fn lemma_huge(d: Decimal)
    requires
        d.digits > 0,
        d.exponent >= 400,
    ensures
        decimal_number(d) == (Number::Infinite { negative: d.negative }),
{
    let e = d.exponent as nat;
    let num = decimal_num(d);
    crate::math::lemma_pow10_beyond_pow2(e);
    crate::math::lemma_pow_monotone(2, 1024, 3 * e);
    crate::math::lemma_pow_add(2, 971, 53);
    crate::json::number::lemma_constants();
    let p = crate::math::pow(10, e);
    let digits = d.digits;
    assert(digits * p >= p) by (nonlinear_arith)
        requires
            digits > 0,
    ;
    assert(crate::json::number::scaled_den(1, 971) == crate::math::pow(2, 971));
    crate::json::number::lemma_unit_above(num, 1, 971);
}

/// A decimal with all its digits more than 400 places behind the point is zero.
proof fn lemma_vanishing(d: Decimal, count: nat)
    requires
        d.digits < crate::math::pow(10, count),
        count + d.exponent <= -400,
    ensures
        decimal_number(d) == (Number::Finite {
            negative: d.negative,
            mantissa: 0,
            exponent: MIN_EXPONENT,
        }),
{
    let m = (-d.exponent) as nat;
    let rest = (m - count) as nat;
    crate::math::lemma_pow_add(10, count, rest);
    crate::math::lemma_pow10_beyond_pow2(rest);
    crate::math::lemma_pow_monotone(2, 1075, 3 * rest);
    let half = crate::math::pow(2, 1074);
    assert(crate::math::pow(2, 1075) == 2 * half);
    let low = crate::math::pow(10, count);
    let high = crate::math::pow(10, rest);
    let digits = d.digits;
    crate::math::lemma_pow_positive(2, 1074);
    assert(2 * (digits * half) < low * high) by (nonlinear_arith)
        requires
            digits < low,
            high >= 2 * half,
            half > 0,
    {
        assert(digits * (2 * half) < low * (2 * half));
        assert(low * (2 * half) <= low * high);
    }
    crate::json::number::lemma_tiny(d.negative, d.digits, low * high);
}

/// A decimal of zero digits is zero.
proof fn lemma_zero(d: Decimal)
    requires
        d.digits == 0,
    ensures
        decimal_number(d) == (Number::Finite {
            negative: d.negative,
            mantissa: 0,
            exponent: MIN_EXPONENT,
        }),
{
    if d.exponent >= 0 {
        assert(0 * crate::math::pow(10, d.exponent as nat) == 0);
    } else {
        crate::math::lemma_pow_positive(10, (-d.exponent) as nat);
    }
    crate::json::number::lemma_tiny(d.negative, 0, decimal_den(d));
}

/// The end of the digits from `i` on.
fn run_end(t: &[u8], i: usize) -> (r: usize)
    requires
        i <= t@.len(),
    ensures
        i <= r <= t@.len(),
        r == digits_end(t@, i as int),
        forall|j: int| i <= j < r ==> is_digit(#[trigger] t@[j]),
{
    proof {
        lemma_digits_end(t@, i as int);
    }
    let mut r: usize = i;
    while r < t.len() && 48 <= t[r] && t[r] <= 57
        invariant
            i <= r <= t@.len(),
            digits_end(t@, i as int) == digits_end(t@, r as int),
        decreases t@.len() - r,
    {
        r += 1;
    }
    r
}

/// No exponent this large is told apart from a larger one.
const EXPONENT_CAP: i128 = 1_000_000_000_000_000_000_000_000_000_000;

/// The number that digits stand for, up to a cap beyond which only its size is
/// kept.
fn capped_value(t: &[u8], from: usize, to: usize) -> (r: i128)
    requires
        from <= to <= t@.len(),
        forall|j: int| from <= j < to ==> is_digit(#[trigger] t@[j]),
    ensures
        0 <= r <= digits_value(t@, from as int, to as int),
        r < EXPONENT_CAP ==> r == digits_value(t@, from as int, to as int),
        r <= 10 * EXPONENT_CAP,
{
    let mut r: i128 = 0;
    let mut i: usize = from;
    while i < to
        invariant
            from <= i <= to <= t@.len(),
            forall|j: int| from <= j < to ==> is_digit(#[trigger] t@[j]),
            0 <= r <= digits_value(t@, from as int, i as int),
            r < EXPONENT_CAP ==> r == digits_value(t@, from as int, i as int),
            r <= 10 * EXPONENT_CAP,
        decreases to - i,
    {
        proof {
            lemma_digits_behind(t@, from as int, i as int);
        }
        if r < EXPONENT_CAP {
            r = r * 10 + (t[i] - 48) as i128;
        }
        i += 1;
    }
    r
}

/// Appends the digits `from..to` above the others, the last of them first.
fn push_digits(v: &mut Vec<u8>, t: &[u8], from: usize, to: usize)
    requires
        from <= to <= t@.len(),
        forall|j: int| from <= j < to ==> is_digit(#[trigger] t@[j]),
        crate::json::digits::all_digits(old(v)@),
    ensures
        crate::json::digits::all_digits(final(v)@),
        final(v)@.len() == old(v)@.len() + (to - from),
        crate::json::digits::value(final(v)@) == crate::json::digits::value(old(v)@)
            + crate::math::pow(10, old(v)@.len()) * digits_value(t@, from as int, to as int),
{
    let ghost start = v@;
    let ghost p = crate::math::pow(10, start.len());
    let mut i: usize = to;
    assert(p * 0 == 0);
    while i > from
        invariant
            from <= i <= to <= t@.len(),
            forall|j: int| from <= j < to ==> is_digit(#[trigger] t@[j]),
            crate::json::digits::all_digits(v@),
            p == crate::math::pow(10, start.len()),
            v@.len() == start.len() + (to - i),
            crate::json::digits::value(v@) == crate::json::digits::value(start) + p * digits_value(
                t@,
                i as int,
                to as int,
            ),
        decreases i,
    {
        i -= 1;
        assert(is_digit(t@[i as int]));
        let d: u8 = t[i] - 48;
        proof {
            crate::json::digits::lemma_push(v@, d);
            crate::math::lemma_pow_add(10, start.len(), (to - i - 1) as nat);
            let s = crate::math::pow(10, (to - i - 1) as nat);
            let rest = digits_value(t@, i + 1, to as int);
            assert(p * rest + d as nat * (p * s) == p * (d as nat * s + rest)) by (nonlinear_arith);
        }
        v.push(d);
    }
}

/// Appends zeros until there are at least `n` digits.
fn pad(v: &mut Vec<u8>, n: u128)
    requires
        crate::json::digits::all_digits(old(v)@),
    ensures
        crate::json::digits::all_digits(final(v)@),
        final(v)@.len() >= n,
        old(v)@.len() <= n ==> final(v)@.len() == n,
        crate::json::digits::value(final(v)@) == crate::json::digits::value(old(v)@),
{
    let ghost start = v@;
    while (v.len() as u128) < n
        invariant
            crate::json::digits::all_digits(v@),
            v@.len() >= start.len(),
            start.len() <= n ==> v@.len() <= n,
            crate::json::digits::value(v@) == crate::json::digits::value(start),
        decreases n - v@.len(),
    {
        proof {
            crate::json::digits::lemma_push(v@, 0);
            assert(0 * crate::math::pow(10, v@.len()) == 0);
        }
        v.push(0);
    }
}

/// Are all digits zero?
fn all_zero(v: &Vec<u8>) -> (r: bool)
    ensures
        r == forall|i: int| 0 <= i < v@.len() ==> #[trigger] v@[i] == 0,
{
    let mut i: usize = 0;
    while i < v.len()
        invariant
            i <= v@.len(),
            forall|j: int| 0 <= j < i ==> #[trigger] v@[j] == 0,
        decreases v@.len() - i,
    {
        if v[i] != 0 {
            return false;
        }
        i += 1;
    }
    true
}

/// The parts of a literal, by their places in the text.
struct Parts {
    negative: bool,
    from: usize,
    int_end: usize,
    frac: usize,
    frac_end: usize,
    /// Exact below the cap in magnitude.
    scale: i128,
}

impl Parts {
    /// The digits in all.
    spec fn digits(self, t: Seq<u8>) -> nat {
        digits_value(t, self.from as int, self.int_end as int) * crate::math::pow(
            10,
            (self.frac_end - self.frac) as nat,
        ) + digits_value(t, self.frac as int, self.frac_end as int)
    }

    /// The parts of the literal `d`.
    spec fn describe(self, t: Seq<u8>, d: Decimal) -> bool {
        let scale = d.exponent + (self.frac_end - self.frac);
        &&& self.from <= self.int_end <= self.frac <= self.frac_end <= t.len()
        &&& forall|j: int| self.from <= j < self.int_end ==> is_digit(#[trigger] t[j])
        &&& forall|j: int| self.frac <= j < self.frac_end ==> is_digit(#[trigger] t[j])
        &&& d.negative == self.negative
        &&& d.digits == self.digits(t)
        &&& -10 * EXPONENT_CAP <= self.scale <= 10 * EXPONENT_CAP
        &&& -EXPONENT_CAP < self.scale < EXPONENT_CAP ==> scale == self.scale
        &&& self.scale >= EXPONENT_CAP ==> scale >= self.scale
        &&& self.scale <= -EXPONENT_CAP ==> scale <= self.scale
    }
}

/// Takes a literal apart.
fn split_literal(t: &[u8]) -> (r: Option<Parts>)
    ensures
        match (r, literal(t@)) {
            (Some(p), Some(d)) => p.describe(t@, d),
            (None, None) => true,
            _ => false,
        },
{
    let negative: bool = t.len() > 0 && t[0] == 45;
    let from: usize = if t.len() > 0 && (t[0] == 43 || t[0] == 45) {
        1
    } else {
        0
    };
    let int_end: usize = run_end(t, from);
    let point: bool = int_end < t.len() && t[int_end] == 46;
    let frac: usize = if point {
        int_end + 1
    } else {
        int_end
    };
    let frac_end: usize = if point {
        run_end(t, frac)
    } else {
        int_end
    };
    if from == int_end && frac == frac_end {
        return None;
    }
    if frac_end >= t.len() {
        return Some(Parts { negative, from, int_end, frac, frac_end, scale: 0 });
    }
    if t[frac_end] != 101 && t[frac_end] != 69 {
        return None;
    }
    let mark: usize = frac_end + 1;
    let signed: bool = mark < t.len() && (t[mark] == 43 || t[mark] == 45);
    let e: usize = if signed {
        mark + 1
    } else {
        mark
    };
    let e_end: usize = run_end(t, e);
    if e == e_end || e_end < t.len() {
        return None;
    }
    let magnitude: i128 = capped_value(t, e, e_end);
    let scale: i128 = if signed && t[mark] == 45 {
        -magnitude
    } else {
        magnitude
    };
    Some(Parts { negative, from, int_end, frac, frac_end, scale })
}

/// The number that a text denotes, if it is a literal.
pub fn parse_number(t: &[u8]) -> (r: Option<Number>)
    ensures
        r == number_of(t@),
{
    let p = match split_literal(t) {
        None => {
            return None;
        },
        Some(p) => p,
    };
    let ghost d = literal(t@)->0;
    let negative: bool = p.negative;
    let places: usize = p.frac_end - p.frac;
    let exponent: i128 = p.scale - places as i128;
    let mut v: Vec<u8> = Vec::new();
    if 0 < exponent && exponent < 400 {
        pad(&mut v, exponent as u128);
        assert(v@.len() == exponent);
    }
    let ghost zeros = v@.len();
    let ghost p10 = crate::math::pow(10, zeros);
    let count: usize = p.int_end - p.from;
    push_digits(&mut v, t, p.frac, p.frac_end);
    push_digits(&mut v, t, p.from, p.int_end);
    proof {
        crate::math::lemma_pow_add(10, zeros, places as nat);
        let a = digits_value(t@, p.from as int, p.int_end as int);
        let b = digits_value(t@, p.frac as int, p.frac_end as int);
        let s = crate::math::pow(10, places as nat);
        assert(p10 * b + (p10 * s) * a == p10 * (a * s + b)) by (nonlinear_arith);
        assert(crate::json::digits::value(v@) == p10 * d.digits);
        let digits = d.digits;
        assert(p10 * digits == digits * p10) by (nonlinear_arith);
        assert(p10 == 1 ==> digits * p10 == digits) by (nonlinear_arith);
    }
    if all_zero(&v) {
        proof {
            crate::json::digits::lemma_zero(v@);
            crate::math::lemma_pow_positive(10, zeros);
            let digits = d.digits;
            assert(digits == 0) by (nonlinear_arith)
                requires
                    p10 * digits == 0,
                    p10 > 0,
            ;
            lemma_zero(d);
        }
        return Some(Number::Finite { negative, mantissa: 0, exponent: MIN_EXPONENT });
    }
    proof {
        crate::json::digits::lemma_zero(v@);
        assert(p10 * 0 == 0);
    }
    if exponent >= 400 {
        proof {
            lemma_huge(d);
        }
        return Some(Number::Infinite { negative });
    }
    let total: i128 = count as i128 + places as i128;
    if total + exponent <= -400 {
        proof {
            assert(zeros == 0);
            assert(p10 == 1);
            crate::json::digits::lemma_bound(v@);
            lemma_vanishing(d, (count + places) as nat);
        }
        return Some(Number::Finite { negative, mantissa: 0, exponent: MIN_EXPONENT });
    }
    assert(d.exponent == exponent);
    if exponent >= 0 {
        assert(crate::math::pow(10, 0) == 1);
        Some(nearest_to(v, 0, negative))
    } else {
        proof {
            assert(zeros == 0);
            assert(p10 == 1);
        }
        let behind: u128 = (-exponent) as u128;
        pad(&mut v, behind);
        assert(behind <= v.len());
        Some(nearest_to(v, behind as usize, negative))
    }
}

/// Every literal denotes a number in the form with one mantissa and one exponent.
pub proof fn literals_are_wf(t: Seq<u8>)
    ensures
        number_of(t) matches Some(n) ==> n.wf(),
{
    if let Some(d) = literal(t) {
        if d.exponent < 0 {
            crate::math::lemma_pow_positive(10, (-d.exponent) as nat);
        }
        crate::json::number::nearest_is_wf(d.negative, decimal_num(d), decimal_den(d));
    }
}

/// A literal whose value is an integer of at most `2^53` is extracted exactly.
pub proof fn integers_are_exact(t: Seq<u8>)
    requires
        literal(t) is Some,
        literal(t)->0.exponent >= 0,
        decimal_num(literal(t)->0) <= MANTISSA_HIGH,
        !literal(t)->0.negative,
    ensures
        (number_of(t)->0).integer() == Some(decimal_num(literal(t)->0)),
{
    let num = decimal_num(literal(t)->0);
    crate::json::number::lemma_constants();
    crate::json::number::lemma_unit_exists(num, 1);
    let q = crate::json::number::unit(num, 1);
    assert(crate::math::pow(2, 0) == 1);
    if num == MANTISSA_HIGH {
        assert(crate::math::pow(2, 1) == 2) by {
            reveal_with_fuel(crate::math::pow, 2);
        }
        crate::json::number::lemma_unit_is(num, 1, 1);
        assert(MANTISSA_LOW * 2 == MANTISSA_HIGH);
    } else {
        assert(crate::json::number::scaled_den(1, 0) == 1);
        if q > 0 {
            crate::json::number::lemma_scaled_fits(num, 1, 0, q);
        }
        let p = crate::math::pow(2, (-q) as nat);
        crate::math::lemma_pow_positive(2, (-q) as nat);
        let m = num * p;
        if q == 0 {
            assert(num * 1 == num);
        }
        assert(crate::json::number::scaled_num(num, q) == m);
        assert(crate::json::number::scaled_den(1, q) == 1);
        vstd::arithmetic::div_mod::lemma_fundamental_div_mod_converse(
            m as int,
            1,
            m as int,
            0,
        );
        assert(crate::json::number::round_half_even(m, 1) == m);
        vstd::arithmetic::div_mod::lemma_fundamental_div_mod_converse(
            m as int,
            p as int,
            num as int,
            0,
        );
    }
}

} // verus!
