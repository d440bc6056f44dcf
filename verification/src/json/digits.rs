//! Natural numbers of any size as decimal digits, the least significant first.
use vstd::prelude::*;

verus! {

/// Every element is a decimal digit.
pub open spec fn all_digits(d: Seq<u8>) -> bool {
    forall|i: int| 0 <= i < d.len() ==> #[trigger] d[i] <= 9
}

/// The number that the digits stand for.
pub open spec fn value(d: Seq<u8>) -> nat
    decreases d.len(),
{
    if d.len() == 0 {
        0
    } else {
        value(d.drop_last()) + d.last() as nat * crate::math::pow(10, (d.len() - 1) as nat)
    }
}

/// A digit on top adds its multiple of a power of ten.
pub proof fn lemma_push(d: Seq<u8>, x: u8)
    ensures
        value(d.push(x)) == value(d) + x as nat * crate::math::pow(10, d.len()),
{
    assert(d.push(x).drop_last() =~= d);
}

/// The digits below and above a position are the remainder and the quotient by a
/// power of ten.
pub proof fn lemma_split(d: Seq<u8>, k: int)
    requires
        0 <= k <= d.len(),
    ensures
        value(d) == value(d.take(k)) + crate::math::pow(10, k as nat) * value(d.skip(k)),
    decreases d.len(),
{
    if d.len() == k {
        assert(d.take(k) =~= d);
        assert(d.skip(k).len() == 0);
        assert(crate::math::pow(10, k as nat) * 0 == 0);
    } else {
        let top = d.last() as nat;
        lemma_split(d.drop_last(), k);
        assert(d.drop_last().take(k) =~= d.take(k));
        assert(d.drop_last().skip(k) =~= d.skip(k).drop_last());
        assert(d.skip(k).last() == d.last());
        let low = crate::math::pow(10, k as nat);
        let rest = crate::math::pow(10, (d.len() - 1 - k) as nat);
        crate::math::lemma_pow_add(10, k as nat, (d.len() - 1 - k) as nat);
        let v = value(d.skip(k).drop_last());
        assert(low * v + top * (low * rest) == low * (v + top * rest)) by (nonlinear_arith);
    }
}

/// Digits stand for less than ten to the power of their count.
pub proof fn lemma_bound(d: Seq<u8>)
    requires
        all_digits(d),
    ensures
        value(d) < crate::math::pow(10, d.len()),
    decreases d.len(),
{
    if d.len() > 0 {
        assert(all_digits(d.drop_last()));
        lemma_bound(d.drop_last());
        let p = crate::math::pow(10, (d.len() - 1) as nat);
        let top = d.last() as nat;
        assert(top * p <= 9 * p) by (nonlinear_arith)
            requires
                top <= 9,
        ;
    }
}

/// Only zeros stand for zero.
pub proof fn lemma_zero(d: Seq<u8>)
    ensures
        value(d) == 0 <==> forall|i: int| 0 <= i < d.len() ==> #[trigger] d[i] == 0,
    decreases d.len(),
{
    if d.len() > 0 {
        let low = d.drop_last();
        lemma_zero(low);
        let p = crate::math::pow(10, (d.len() - 1) as nat);
        crate::math::lemma_pow_positive(10, (d.len() - 1) as nat);
        let top = d.last() as nat;
        assert(top * p == 0 <==> top == 0) by (nonlinear_arith)
            requires
                p > 0,
        ;
        if value(d) == 0 {
            assert forall|i: int| 0 <= i < d.len() implies #[trigger] d[i] == 0 by {
                if i < d.len() - 1 {
                    assert(low[i] == d[i]);
                }
            }
        }
        if forall|i: int| 0 <= i < d.len() ==> #[trigger] d[i] == 0 {
            assert forall|i: int| 0 <= i < low.len() implies #[trigger] low[i] == 0 by {
                assert(d[i] == 0);
            }
            assert(d[d.len() - 1] == 0);
        }
    }
}

/// The lowest digit, and the others as the tens.
proof fn lemma_lowest(d: Seq<u8>)
    requires
        d.len() > 0,
    ensures
        value(d) == d[0] as nat + 10 * value(d.skip(1)),
{
    lemma_split(d, 1);
    let one = d.take(1);
    assert(one.drop_last() =~= Seq::<u8>::empty());
    assert(value(one) == d[0] as nat * 1) by {
        assert(value(one.drop_last()) == 0);
        assert(crate::math::pow(10, 0) == 1);
    }
    assert(crate::math::pow(10, 1) == 10) by {
        reveal_with_fuel(crate::math::pow, 2);
    }
}

/// Multiplies the number by a digit.
pub fn multiply(d: &mut Vec<u8>, m: u8)
    requires
        all_digits(old(d)@),
        m <= 9,
    ensures
        all_digits(final(d)@),
        value(final(d)@) == m * value(old(d)@),
        final(d)@.len() >= old(d)@.len(),
{
    let ghost before = d@;
    let mut carry: u8 = 0;
    let mut i: usize = 0;
    proof {
        assert(before.take(0) =~= Seq::<u8>::empty());
        assert(d@.take(0) =~= Seq::<u8>::empty());
        assert(m * 0 == 0);
    }
    while i < d.len()
        invariant
            i <= d@.len(),
            d@.len() == before.len(),
            all_digits(before),
            all_digits(d@),
            m <= 9,
            carry <= 8,
            forall|j: int| i <= j < d@.len() ==> d@[j] == before[j],
            value(d@.take(i as int)) + carry as nat * crate::math::pow(10, i as nat) == m * value(
                before.take(i as int),
            ),
        decreases d.len() - i,
    {
        let ghost old_d = d@;
        let x: u8 = d[i];
        assert(x == before[i as int]);
        assert(m * x <= 81) by (nonlinear_arith)
            requires
                m <= 9,
                x <= 9,
        ;
        let t: u8 = m * x + carry;
        let ghost old_carry = carry;
        d[i] = t % 10;
        carry = t / 10;
        proof {
            let p = crate::math::pow(10, i as nat);
            let done = before.take(i as int);
            assert(before.take(i + 1) =~= done.push(x));
            lemma_push(done, x);
            assert(d@.take(i + 1) =~= old_d.take(i as int).push((t % 10) as u8));
            lemma_push(old_d.take(i as int), (t % 10) as u8);
            assert(crate::math::pow(10, (i + 1) as nat) == 10 * p);
            let low = (t % 10) as nat;
            let high = (t / 10) as nat;
            let was = value(old_d.take(i as int));
            let c = old_carry as nat;
            let v = value(done);
            assert(was + low * p + high * (10 * p) == m * (v + x as nat * p)) by (nonlinear_arith)
                requires
                    was + c * p == m * v,
                    low + 10 * high == m * x + c,
            ;
        }
        i += 1;
    }
    proof {
        assert(d@.take(i as int) =~= d@);
        assert(before.take(i as int) =~= before);
    }
    if carry > 0 {
        proof {
            lemma_push(d@, carry);
        }
        d.push(carry);
    }
}

/// The quotient by `10^k` where it is below `bound`.
pub fn quotient_below(d: &Vec<u8>, k: usize, bound: u64) -> (r: Option<u64>)
    requires
        all_digits(d@),
        k <= d@.len(),
        0 < bound <= 0x100_0000_0000_0000,
    ensures
        match r {
            Some(v) => v < bound && v == value(d@.skip(k as int)),
            None => value(d@.skip(k as int)) >= bound,
        },
{
    let mut acc: u64 = 0;
    let mut i: usize = d.len();
    while i > k
        invariant
            k <= i <= d@.len(),
            all_digits(d@),
            0 < bound <= 0x100_0000_0000_0000,
            acc < bound ==> acc == value(d@.skip(i as int)),
            acc >= bound ==> value(d@.skip(i as int)) >= bound,
        decreases i,
    {
        proof {
            lemma_lowest(d@.skip(i - 1));
            assert(d@.skip(i - 1).skip(1) =~= d@.skip(i as int));
        }
        i -= 1;
        if acc < bound {
            acc = acc * 10 + d[i] as u64;
        }
    }
    if acc < bound {
        Some(acc)
    } else {
        None
    }
}

/// How a fraction compares with one half.
#[derive(Clone, Copy, Debug, PartialEq, Eq, Structural)]
pub enum Half {
    Below,
    Exactly,
    Above,
}

/// How the remainder by `10^k` compares with half of `10^k`.
pub fn compare_half(d: &Vec<u8>, k: usize) -> (r: Half)
    requires
        all_digits(d@),
        k <= d@.len(),
    ensures
        (r is Below) == (2 * value(d@.take(k as int)) < crate::math::pow(10, k as nat)),
        (r is Exactly) == (2 * value(d@.take(k as int)) == crate::math::pow(10, k as nat)),
{
    if k == 0 {
        assert(d@.take(0) =~= Seq::<u8>::empty());
        return Half::Below;
    }
    let top: u8 = d[k - 1];
    let ghost low = d@.take(k - 1);
    let ghost p = crate::math::pow(10, (k - 1) as nat);
    proof {
        assert(d@.take(k as int) =~= low.push(top));
        lemma_push(low, top);
        assert(all_digits(low));
        lemma_bound(low);
        assert(crate::math::pow(10, k as nat) == 10 * p);
        lemma_zero(low);
        assert(top < 5 ==> 2 * (top as nat * p) <= 8 * p) by (nonlinear_arith);
        assert(top > 5 ==> 2 * (top as nat * p) >= 12 * p) by (nonlinear_arith);
        assert(top == 5 ==> 2 * (top as nat * p) == 10 * p) by (nonlinear_arith);
    }
    if top < 5 {
        return Half::Below;
    }
    if top > 5 {
        return Half::Above;
    }
    let mut i: usize = 0;
    while i < k - 1
        invariant
            0 < k <= d@.len(),
            i <= k - 1,
            low == d@.take(k - 1),
            p == crate::math::pow(10, (k - 1) as nat),
            2 * value(d@.take(k as int)) == 2 * value(low) + 10 * p,
            crate::math::pow(10, k as nat) == 10 * p,
            value(low) == 0 <==> forall|j: int| 0 <= j < low.len() ==> #[trigger] low[j] == 0,
            forall|j: int| 0 <= j < i ==> low[j] == 0,
        decreases k - 1 - i,
    {
        if d[i] != 0 {
            assert(low[i as int] != 0);
            return Half::Above;
        }
        i += 1;
    }
    Half::Exactly
}

} // verus!
