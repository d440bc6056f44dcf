//! What the steps of a transform compute, in exact arithmetic: the sums of a
//! discrete Fourier transform.
//!
//! The steps add elements and turn them by parts of a circle, and nothing else is
//! known of the elements here: complex numbers turned by roots of unity are one
//! instance.
use crate::ops::fft::Step;
use vstd::prelude::*;

verus! {

/// Elements that can be added, and turned by parts of a circle.
#[verifier::reject_recursive_types(V)]
pub ghost struct Circle<V> {
    /// How many parts the circle has.
    pub parts: nat,
    pub zero: V,
    pub plus: spec_fn(V, V) -> V,
    /// An element turned by a number of parts.
    pub turn: spec_fn(V, int) -> V,
}

/// The order of two terms does not matter.
#[verifier::opaque]
pub open spec fn commutes<V>(g: Circle<V>) -> bool {
    forall|a: V, b: V| #[trigger] (g.plus)(a, b) == (g.plus)(b, a)
}

/// Nor does that in which they are added up.
#[verifier::opaque]
pub open spec fn associates<V>(g: Circle<V>) -> bool {
    forall|a: V, b: V, c: V|
        #[trigger] (g.plus)((g.plus)(a, b), c) == (g.plus)(a, (g.plus)(b, c))
}

/// Zero adds nothing, and stays where it is when it is turned.
#[verifier::opaque]
pub open spec fn has_zero<V>(g: Circle<V>) -> bool {
    &&& forall|a: V| #[trigger] (g.plus)(a, g.zero) == a
    &&& forall|r: int| #[trigger] (g.turn)(g.zero, r) == g.zero
}

/// A sum turns as its terms do.
#[verifier::opaque]
pub open spec fn turns_sums<V>(g: Circle<V>) -> bool {
    forall|a: V, b: V, r: int|
        #[trigger] (g.turn)((g.plus)(a, b), r) == (g.plus)((g.turn)(a, r), (g.turn)(b, r))
}

/// Turns add up.
#[verifier::opaque]
pub open spec fn adds_turns<V>(g: Circle<V>) -> bool {
    forall|a: V, r: int, s: int| #[trigger] (g.turn)((g.turn)(a, r), s) == (g.turn)(a, r + s)
}

/// No turn and a full turn change nothing, and half a turn gives the opposite.
#[verifier::opaque]
pub open spec fn goes_round<V>(g: Circle<V>) -> bool {
    &&& g.parts > 0
    &&& forall|a: V| #[trigger] (g.turn)(a, 0) == a
    &&& forall|a: V| #[trigger] (g.turn)(a, g.parts as int) == a
    &&& g.parts % 2 == 0 ==> forall|a: V|
        (g.plus)(a, #[trigger] (g.turn)(a, g.parts as int / 2)) == g.zero
}

/// The laws of addition and of turning.
pub open spec fn is_circle<V>(g: Circle<V>) -> bool {
    &&& commutes(g)
    &&& associates(g)
    &&& has_zero(g)
    &&& turns_sums(g)
    &&& adds_turns(g)
    &&& goes_round(g)
}

/// The sum of the first `n` terms.
pub open spec fn sum<V>(g: Circle<V>, f: spec_fn(int) -> V, n: nat) -> V
    decreases n,
{
    if n == 0 {
        g.zero
    } else {
        (g.plus)(sum(g, f, (n - 1) as nat), f(n - 1))
    }
}

/// A component of the discrete Fourier transform: every element, turned by its
/// place times the frequency.
pub open spec fn component<V>(g: Circle<V>, x: Seq<V>, k: int) -> V {
    sum(g, |m: int| (g.turn)(x[m], m * k), x.len())
}

/// The elements after one step. The difference of a butterfly is the sum with the
/// opposite.
pub open spec fn stepped<V>(g: Circle<V>, a: Seq<V>, step: Step) -> Seq<V> {
    match step {
        Step::Swap { i, j } => a.update(i as int, a[j as int]).update(j as int, a[i as int]),
        Step::Butterfly { i, j, k, len } => {
            let t = (g.turn)(a[j as int], k * (g.parts as int / len as int));
            let u = a[i as int];
            a.update(i as int, (g.plus)(u, t)).update(
                j as int,
                (g.plus)(u, (g.turn)(t, g.parts as int / 2)),
            )
        },
    }
}

/// The elements after all steps.
pub open spec fn carried_out<V>(g: Circle<V>, a: Seq<V>, steps: Seq<Step>) -> Seq<V>
    decreases steps.len(),
{
    if steps.len() == 0 {
        a
    } else {
        stepped(g, carried_out(g, a, steps.drop_last()), steps.last())
    }
}

proof fn law_commutes<V>(g: Circle<V>, a: V, b: V)
    requires
        is_circle(g),
    ensures
        (g.plus)(a, b) == (g.plus)(b, a),
{
    reveal(commutes);
}

proof fn law_associates<V>(g: Circle<V>, a: V, b: V, c: V)
    requires
        is_circle(g),
    ensures
        (g.plus)((g.plus)(a, b), c) == (g.plus)(a, (g.plus)(b, c)),
{
    reveal(associates);
}

proof fn law_zero<V>(g: Circle<V>, a: V)
    requires
        is_circle(g),
    ensures
        (g.plus)(a, g.zero) == a,
{
    reveal(has_zero);
}

/// The turn of a sum.
pub proof fn law_turn_sum<V>(g: Circle<V>, a: V, b: V, r: int)
    requires
        is_circle(g),
    ensures
        (g.turn)((g.plus)(a, b), r) == (g.plus)((g.turn)(a, r), (g.turn)(b, r)),
{
    reveal(turns_sums);
}

/// The turn of zero.
pub proof fn law_turn_zero<V>(g: Circle<V>, r: int)
    requires
        is_circle(g),
    ensures
        (g.turn)(g.zero, r) == g.zero,
{
    reveal(has_zero);
}

proof fn law_turns_add<V>(g: Circle<V>, a: V, r: int, s: int)
    requires
        is_circle(g),
    ensures
        (g.turn)((g.turn)(a, r), s) == (g.turn)(a, r + s),
{
    reveal(adds_turns);
}

proof fn law_no_turn<V>(g: Circle<V>, a: V)
    requires
        is_circle(g),
    ensures
        g.parts > 0,
        (g.turn)(a, 0) == a,
        (g.turn)(a, g.parts as int) == a,
{
    reveal(goes_round);
}

proof fn law_opposite<V>(g: Circle<V>, a: V)
    requires
        is_circle(g),
        g.parts % 2 == 0,
    ensures
        (g.plus)(a, (g.turn)(a, g.parts as int / 2)) == g.zero,
{
    reveal(goes_round);
}

/// Full turns change nothing.
proof fn lemma_full_turns<V>(g: Circle<V>, a: V, r: int, q: nat)
    requires
        is_circle(g),
    ensures
        (g.turn)(a, r + q * g.parts) == (g.turn)(a, r),
    decreases q,
{
    let p = g.parts as int;
    if q > 0 {
        lemma_full_turns(g, a, r, (q - 1) as nat);
        assert(r + q * p == (r + (q - 1) * p) + p) by (nonlinear_arith);
        law_turns_add(g, a, r + (q - 1) * p, p);
        law_no_turn(g, (g.turn)(a, r + (q - 1) * p));
    } else {
        assert(0 * p == 0);
    }
}

/// Four terms, two and two.
proof fn lemma_exchange<V>(g: Circle<V>, a: V, b: V, c: V, d: V)
    requires
        is_circle(g),
    ensures
        (g.plus)((g.plus)((g.plus)(a, b), c), d) == (g.plus)((g.plus)(a, c), (g.plus)(b, d)),
{
    law_associates(g, a, b, c);
    law_commutes(g, b, c);
    law_associates(g, a, c, b);
    law_associates(g, (g.plus)(a, c), b, d);
}

/// Equal terms have equal sums.
pub proof fn lemma_sum_same<V>(g: Circle<V>, f: spec_fn(int) -> V, h: spec_fn(int) -> V, n: nat)
    requires
        forall|i: int| 0 <= i < n ==> #[trigger] f(i) == h(i),
    ensures
        sum(g, f, n) == sum(g, h, n),
    decreases n,
{
    if n > 0 {
        lemma_sum_same(g, f, h, (n - 1) as nat);
        assert(f(n - 1) == h(n - 1));
    }
}

/// A sum turns as its terms do.
proof fn lemma_sum_turned<V>(
    g: Circle<V>,
    f: spec_fn(int) -> V,
    h: spec_fn(int) -> V,
    n: nat,
    r: int,
)
    requires
        is_circle(g),
        forall|i: int| 0 <= i < n ==> #[trigger] h(i) == (g.turn)(f(i), r),
    ensures
        (g.turn)(sum(g, f, n), r) == sum(g, h, n),
    decreases n,
{
    if n == 0 {
        law_turn_zero(g, r);
    } else {
        lemma_sum_turned(g, f, h, (n - 1) as nat, r);
        law_turn_sum(g, sum(g, f, (n - 1) as nat), f(n - 1), r);
        assert(h(n - 1) == (g.turn)(f(n - 1), r));
    }
}

/// A sum is that of the even terms and that of the odd ones.
proof fn lemma_even_odd<V>(
    g: Circle<V>,
    f: spec_fn(int) -> V,
    even: spec_fn(int) -> V,
    odd: spec_fn(int) -> V,
    n: nat,
)
    requires
        is_circle(g),
        forall|i: int| 0 <= i < n ==> #[trigger] even(i) == f(2 * i),
        forall|i: int| 0 <= i < n ==> #[trigger] odd(i) == f(2 * i + 1),
    ensures
        sum(g, f, 2 * n) == (g.plus)(sum(g, even, n), sum(g, odd, n)),
    decreases n,
{
    if n == 0 {
        law_zero(g, g.zero);
    } else {
        let m = (n - 1) as nat;
        lemma_even_odd(g, f, even, odd, m);
        let (e, o) = (sum(g, even, m), sum(g, odd, m));
        lemma_exchange(g, e, o, f(2 * m as int), f(2 * m as int + 1));
        assert(sum(g, f, (2 * n - 1) as nat) == (g.plus)(sum(g, f, 2 * m), f(2 * m as int)));
        assert(even(n - 1) == f(2 * m as int));
        assert(odd(n - 1) == f(2 * m as int + 1));
    }
}

/// The elements that block `b` of a level with blocks of `2^l` elements stands
/// for: every `2^(nb-l)`th, from the reversed number of the block on.
pub open spec fn part_place(nb: nat, l: nat, b: nat, m: int) -> int {
    crate::ops::fft::reversed(b, (nb - l) as nat) + m * crate::math::pow(2, (nb - l) as nat)
}

/// A component of the transform of those elements.
pub open spec fn part_component<V>(g: Circle<V>, x: Seq<V>, nb: nat, l: nat, b: nat, k: int) -> V {
    sum(
        g,
        |m: int|
            (g.turn)(
                x[part_place(nb, l, b, m)],
                m * k * crate::math::pow(2, (nb - l) as nat),
            ),
        crate::math::pow(2, l),
    )
}

/// A component of a block from those of its halves.
proof fn lemma_halves<V>(g: Circle<V>, x: Seq<V>, nb: nat, l: nat, b: nat, k: int)
    requires
        is_circle(g),
        g.parts == crate::math::pow(2, nb),
        l < nb,
        0 <= k < crate::math::pow(2, l),
    ensures
        ({
            let e = part_component(g, x, nb, l, 2 * b, k);
            let o = part_component(g, x, nb, l, 2 * b + 1, k);
            let t = (g.turn)(o, k * crate::math::pow(2, (nb - l - 1) as nat));
            &&& part_component(g, x, nb, l + 1, b, k) == (g.plus)(e, t)
            &&& part_component(g, x, nb, l + 1, b, k + crate::math::pow(2, l)) == (g.plus)(
                e,
                (g.turn)(t, g.parts as int / 2),
            )
        }),
{
    let n = crate::math::pow(2, l);
    let s = crate::math::pow(2, (nb - l - 1) as nat) as int;
    let wide = crate::math::pow(2, (nb - l) as nat) as int;
    let half = g.parts as int / 2;
    assert(wide == 2 * s);
    assert(crate::math::pow(2, l + 1) == 2 * n);
    crate::math::lemma_pow_add(2, l, (nb - l - 1) as nat);
    crate::math::lemma_pow_add(2, 1, (nb - 1) as nat);
    assert(crate::math::pow(2, 1) == 2) by {
        reveal_with_fuel(crate::math::pow, 2);
    }
    assert((l + (nb - l - 1)) as nat == (nb - 1) as nat);
    assert(n * s == half);
    assert(g.parts == 2 * half);
    let even = |m: int| (g.turn)(x[part_place(nb, l, 2 * b, m)], m * k * wide);
    let odd = |m: int| (g.turn)(x[part_place(nb, l, 2 * b + 1, m)], m * k * wide);
    let e = sum(g, even, n);
    let o = sum(g, odd, n);
    let r = crate::ops::fft::reversed(b, (nb - l - 1) as nat) as int;
    assert((2 * b) % 2 == 0 && (2 * b) / 2 == b);
    assert((2 * b + 1) % 2 == 1 && (2 * b + 1) / 2 == b);
    assert(crate::ops::fft::reversed(2 * b, (nb - l) as nat) == r) by {
        assert(0 * s == 0);
    }
    assert(crate::ops::fft::reversed(2 * b + 1, (nb - l) as nat) == s + r) by {
        assert(1 * s == s);
    }
    assert((nb - (l + 1)) as nat == (nb - l - 1) as nat);
    // The lower component.
    let f = |m: int| (g.turn)(x[part_place(nb, l + 1, b, m)], m * k * s);
    let turned = |m: int| (g.turn)(odd(m), k * s);
    assert forall|m: int| 0 <= m < n implies #[trigger] even(m) == f(2 * m) by {
        assert(part_place(nb, l + 1, b, 2 * m) == part_place(nb, l, 2 * b, m)) by {
            assert((2 * m) * s == m * (2 * s)) by (nonlinear_arith);
        }
        assert((2 * m) * k * s == m * k * (2 * s)) by (nonlinear_arith);
    }
    assert forall|m: int| 0 <= m < n implies #[trigger] turned(m) == f(2 * m + 1) by {
        let at = part_place(nb, l, 2 * b + 1, m);
        assert(part_place(nb, l + 1, b, 2 * m + 1) == at) by {
            assert((2 * m + 1) * s == m * (2 * s) + s) by (nonlinear_arith);
        }
        assert((2 * m + 1) * k * s == m * k * (2 * s) + k * s) by (nonlinear_arith);
        law_turns_add(g, x[at], m * k * wide, k * s);
    }
    lemma_even_odd(g, f, even, turned, n);
    lemma_sum_turned(g, odd, turned, n, k * s);
    // The upper one.
    let q = k + n;
    assert(q * s == k * s + half) by (nonlinear_arith)
        requires
            q == k + n,
            n * s == half,
    ;
    let h = |m: int| (g.turn)(x[part_place(nb, l + 1, b, m)], m * q * s);
    let opposite = |m: int| (g.turn)(odd(m), k * s + half);
    assert forall|m: int| 0 <= m < n implies #[trigger] even(m) == h(2 * m) by {
        let at = part_place(nb, l, 2 * b, m);
        assert(part_place(nb, l + 1, b, 2 * m) == at) by {
            assert((2 * m) * s == m * (2 * s)) by (nonlinear_arith);
        }
        let w = k * s + half;
        assert((2 * m) * q * s == (2 * m) * w) by (nonlinear_arith)
            requires
                q * s == w,
        ;
        assert((2 * m) * w == m * k * (2 * s) + m * (2 * half)) by (nonlinear_arith)
            requires
                w == k * s + half,
        ;
        lemma_full_turns(g, x[at], m * k * wide, m as nat);
    }
    assert forall|m: int| 0 <= m < n implies #[trigger] opposite(m) == h(2 * m + 1) by {
        let at = part_place(nb, l, 2 * b + 1, m);
        assert(part_place(nb, l + 1, b, 2 * m + 1) == at) by {
            assert((2 * m + 1) * s == m * (2 * s) + s) by (nonlinear_arith);
        }
        let w = k * s + half;
        assert((2 * m + 1) * q * s == (2 * m + 1) * w) by (nonlinear_arith)
            requires
                q * s == w,
        ;
        assert((2 * m + 1) * w == (m * k * (2 * s) + w) + m * (2 * half)) by (nonlinear_arith)
            requires
                w == k * s + half,
        ;
        lemma_full_turns(g, x[at], m * k * wide + (k * s + half), m as nat);
        law_turns_add(g, x[at], m * k * wide, k * s + half);
    }
    lemma_even_odd(g, h, even, opposite, n);
    lemma_sum_turned(g, odd, opposite, n, k * s + half);
    law_turns_add(g, o, k * s, half);
}

/// Steps one after another.
pub proof fn lemma_then<V>(g: Circle<V>, a: Seq<V>, first: Seq<Step>, second: Seq<Step>)
    ensures
        carried_out(g, a, first + second) == carried_out(g, carried_out(g, a, first), second),
    decreases second.len(),
{
    if second.len() == 0 {
        assert(first + second =~= first);
    } else {
        lemma_then(g, a, first, second.drop_last());
        assert((first + second).drop_last() =~= first + second.drop_last());
        assert((first + second).last() == second.last());
    }
}

/// The exchanges put every element at its reversed place.
proof fn lemma_swaps<V>(g: Circle<V>, x: Seq<V>, nb: nat, count: nat)
    requires
        x.len() == crate::math::pow(2, nb),
        x.len() <= usize::MAX,
        count <= x.len(),
    ensures
        carried_out(g, x, crate::ops::fft::swaps(nb, count)).len() == x.len(),
        forall|p: int|
            0 <= p < x.len() ==> #[trigger] carried_out(
                g,
                x,
                crate::ops::fft::swaps(nb, count),
            )[p] == (if p < count || crate::ops::fft::reversed(p as nat, nb) < count {
                x[crate::ops::fft::reversed(p as nat, nb) as int]
            } else {
                x[p]
            }),
    decreases count,
{
    let steps = crate::ops::fft::swaps(nb, count);
    if count > 0 {
        let i = (count - 1) as nat;
        let j = crate::ops::fft::reversed(i, nb);
        let front = crate::ops::fft::swaps(nb, i);
        let before = carried_out(g, x, front);
        let after = carried_out(g, x, steps);
        lemma_swaps(g, x, nb, i);
        crate::ops::fft::reversal_fits(i, nb);
        crate::ops::fft::reversal_is_an_involution(i, nb);
        if j > i {
            assert(steps.drop_last() =~= front);
            assert(after == before.update(i as int, before[j as int]).update(
                j as int,
                before[i as int],
            ));
        } else {
            assert(steps == front);
        }
        assert forall|p: int| 0 <= p < x.len() implies #[trigger] after[p] == (if p < count
            || crate::ops::fft::reversed(p as nat, nb) < count {
            x[crate::ops::fft::reversed(p as nat, nb) as int]
        } else {
            x[p]
        }) by {
            crate::ops::fft::reversal_is_an_involution(p as nat, nb);
        }
    }
}

/// What a level with blocks of `2 * half` elements puts at a place.
pub open spec fn levelled<V>(g: Circle<V>, a: Seq<V>, half: nat, p: int) -> V {
    let k = p % (2 * half as int);
    let w = g.parts as int / (2 * half as int);
    if k < half {
        (g.plus)(a[p], (g.turn)(a[p + half], k * w))
    } else {
        (g.plus)(
            a[p - half],
            (g.turn)((g.turn)(a[p], (k - half) * w), g.parts as int / 2),
        )
    }
}

proof fn lemma_block<V>(g: Circle<V>, a: Seq<V>, start: nat, half: nat, count: nat)
    requires
        start + 2 * half <= a.len() <= usize::MAX,
        count <= half,
    ensures
        carried_out(g, a, crate::ops::fft::block(start, half, count)).len() == a.len(),
        forall|p: int|
            0 <= p < a.len() ==> #[trigger] carried_out(
                g,
                a,
                crate::ops::fft::block(start, half, count),
            )[p] == (if start <= p < start + count {
                (g.plus)(
                    a[p],
                    (g.turn)(a[p + half], (p - start) * (g.parts as int / (2 * half as int))),
                )
            } else if start + half <= p < start + half + count {
                (g.plus)(
                    a[p - half],
                    (g.turn)(
                        (g.turn)(
                            a[p],
                            (p - half - start) * (g.parts as int / (2 * half as int)),
                        ),
                        g.parts as int / 2,
                    ),
                )
            } else {
                a[p]
            }),
    decreases count,
{
    let steps = crate::ops::fft::block(start, half, count);
    if count > 0 {
        let k = (count - 1) as nat;
        lemma_block(g, a, start, half, k);
        assert(steps.drop_last() =~= crate::ops::fft::block(start, half, k));
    }
}

proof fn lemma_blocks<V>(g: Circle<V>, a: Seq<V>, half: nat, count: nat)
    requires
        half > 0,
        2 * half * count <= a.len() <= usize::MAX,
    ensures
        carried_out(g, a, crate::ops::fft::blocks(half, count)).len() == a.len(),
        forall|p: int|
            0 <= p < a.len() ==> #[trigger] carried_out(
                g,
                a,
                crate::ops::fft::blocks(half, count),
            )[p] == (if p < 2 * half * count {
                levelled(g, a, half, p)
            } else {
                a[p]
            }),
    decreases count,
{
    let steps = crate::ops::fft::blocks(half, count);
    if count > 0 {
        let len = 2 * half as int;
        let c = (count - 1) as nat;
        let start = 2 * half * c;
        assert(len * count == len * c + len) by (nonlinear_arith)
            requires
                count == c + 1,
        ;
        assert(len * c >= 0) by (nonlinear_arith)
            requires
                len > 0,
                c >= 0,
        ;
        lemma_blocks(g, a, half, c);
        let front = crate::ops::fft::blocks(half, c);
        let before = carried_out(g, a, front);
        lemma_then(g, a, front, crate::ops::fft::block(start, half, half));
        lemma_block(g, before, start, half, half);
        let after = carried_out(g, a, steps);
        assert forall|p: int| 0 <= p < a.len() implies #[trigger] after[p] == (if p < 2 * half
            * count {
            levelled(g, a, half, p)
        } else {
            a[p]
        }) by {
            if start <= p < start + len {
                assert(p == len * c + (p - start));
                vstd::arithmetic::div_mod::lemma_fundamental_div_mod_converse(
                    p,
                    len,
                    c as int,
                    p - start,
                );
                assert(before[p] == a[p]);
                if p - start < half {
                    assert(before[p + half] == a[p + half]);
                } else {
                    assert(before[p - half] == a[p - half]);
                }
            }
        }
    } else {
        assert(2 * half * 0 == 0) by (nonlinear_arith);
    }
}

/// Half of a block of twice the length: where a place stands in it.
proof fn lemma_half_place(p: int, half: int)
    requires
        half > 0,
        p >= 0,
    ensures
        ({
            let b = p / (2 * half);
            let k = p % (2 * half);
            if k < half {
                &&& p / half == 2 * b
                &&& p % half == k
                &&& (p + half) / half == 2 * b + 1
                &&& (p + half) % half == k
            } else {
                &&& p / half == 2 * b + 1
                &&& p % half == k - half
                &&& (p - half) / half == 2 * b
                &&& (p - half) % half == k - half
            }
        }),
{
    let b = p / (2 * half);
    let k = p % (2 * half);
    vstd::arithmetic::div_mod::lemma_fundamental_div_mod(p, 2 * half);
    assert((2 * half) * b == half * (2 * b)) by (nonlinear_arith);
    assert(half * (2 * b + 1) == half * (2 * b) + half) by (nonlinear_arith);
    assert((2 * b) * half == half * (2 * b)) by (nonlinear_arith);
    assert((2 * b + 1) * half == half * (2 * b + 1)) by (nonlinear_arith);
    if k < half {
        vstd::arithmetic::div_mod::lemma_fundamental_div_mod_converse(p, half, 2 * b, k);
        vstd::arithmetic::div_mod::lemma_fundamental_div_mod_converse(
            p + half,
            half,
            2 * b + 1,
            k,
        );
    } else {
        vstd::arithmetic::div_mod::lemma_fundamental_div_mod_converse(
            p,
            half,
            2 * b + 1,
            k - half,
        );
        vstd::arithmetic::div_mod::lemma_fundamental_div_mod_converse(
            p - half,
            half,
            2 * b,
            k - half,
        );
    }
}

/// After some levels every block holds the transform of the elements that it
/// stands for.
proof fn lemma_levels<V>(g: Circle<V>, x: Seq<V>, a: Seq<V>, nb: nat, l: nat)
    requires
        is_circle(g),
        g.parts == crate::math::pow(2, nb),
        x.len() == crate::math::pow(2, nb),
        x.len() <= usize::MAX,
        a.len() == x.len(),
        forall|p: int|
            0 <= p < x.len() ==> #[trigger] a[p] == x[crate::ops::fft::reversed(
                p as nat,
                nb,
            ) as int],
        l <= nb,
    ensures
        carried_out(g, a, crate::ops::fft::levels(nb, l)).len() == x.len(),
        forall|p: int|
            0 <= p < x.len() ==> #[trigger] carried_out(
                g,
                a,
                crate::ops::fft::levels(nb, l),
            )[p] == part_component(
                g,
                x,
                nb,
                l,
                (p / crate::math::pow(2, l) as int) as nat,
                p % crate::math::pow(2, l) as int,
            ),
    decreases l,
{
    if l == 0 {
        assert(crate::math::pow(2, 0) == 1);
        assert forall|p: int| 0 <= p < x.len() implies #[trigger] a[p] == part_component(
            g,
            x,
            nb,
            0,
            (p / 1) as nat,
            p % 1,
        ) by {
            let f = |m: int|
                (g.turn)(
                    x[part_place(nb, 0, (p / 1) as nat, m)],
                    m * (p % 1) * crate::math::pow(2, (nb - 0) as nat),
                );
            let w = crate::math::pow(2, nb) as int;
            assert(p / 1 == p && p % 1 == 0);
            assert(0 * w == 0 && 0 * 0 * w == 0) by (nonlinear_arith);
            assert(part_place(nb, 0, p as nat, 0) == crate::ops::fft::reversed(p as nat, nb));
            law_no_turn(g, a[p]);
            assert(f(0) == a[p]);
            law_zero(g, a[p]);
            law_commutes(g, g.zero, a[p]);
            assert(sum(g, f, 0) == g.zero);
            assert(sum(g, f, 1) == (g.plus)(g.zero, f(0)));
        }
    } else {
        let m = (l - 1) as nat;
        let half = crate::math::pow(2, m);
        let count = crate::math::pow(2, (nb - l) as nat);
        lemma_levels(g, x, a, nb, m);
        crate::math::lemma_pow_positive(2, m);
        crate::math::lemma_pow_positive(2, (nb - l) as nat);
        crate::math::lemma_pow_add(2, l, (nb - l) as nat);
        assert((l + (nb - l)) as nat == nb);
        assert(crate::math::pow(2, l) == 2 * half);
        assert(2 * half * count == g.parts);
        let len = 2 * half as int;
        let w = count as int;
        assert(g.parts as int / len == w) by {
            vstd::arithmetic::div_mod::lemma_fundamental_div_mod_converse(
                g.parts as int,
                len,
                w,
                0,
            );
        }
        let before = carried_out(g, a, crate::ops::fft::levels(nb, m));
        lemma_blocks(g, before, half, count);
        lemma_then(
            g,
            a,
            crate::ops::fft::levels(nb, m),
            crate::ops::fft::blocks(half, count),
        );
        let after = carried_out(g, a, crate::ops::fft::levels(nb, l));
        assert forall|p: int| 0 <= p < x.len() implies #[trigger] after[p] == part_component(
            g,
            x,
            nb,
            l,
            (p / len) as nat,
            p % len,
        ) by {
            let b = (p / len) as nat;
            let k = p % len;
            vstd::arithmetic::div_mod::lemma_fundamental_div_mod(p, len);
            assert(b as int == p / len && p / len >= 0) by {
                vstd::arithmetic::div_mod::lemma_div_pos_is_pos(p, len);
            }
            assert(after[p] == levelled(g, before, half, p));
            lemma_half_place(p, half as int);
            assert((nb - m - 1) as nat == (nb - l) as nat);
            if k < half {
                lemma_halves(g, x, nb, m, b, k);
                // The other half of the block is inside.
                lemma_inside(p, half as int, count as int);
                assert(before[p + half] == part_component(g, x, nb, m, 2 * b + 1, k));
            } else {
                lemma_halves(g, x, nb, m, b, k - half);
                assert(before[p - half] == part_component(g, x, nb, m, 2 * b, k - half));
            }
        }
    }
}

/// A block that begins inside ends inside.
proof fn lemma_inside(p: int, half: int, count: int)
    requires
        half > 0,
        0 <= p < 2 * half * count,
        p % (2 * half) < half,
    ensures
        p + half < 2 * half * count,
{
    let len = 2 * half;
    let b = p / len;
    let k = p % len;
    vstd::arithmetic::div_mod::lemma_fundamental_div_mod(p, len);
    assert(b < count) by (nonlinear_arith)
        requires
            len * b + k < len * count,
            k >= 0,
            len > 0,
    ;
    assert(len * b + len <= len * count) by (nonlinear_arith)
        requires
            b < count,
            len > 0,
    ;
}

/// The steps of a transform compute the discrete Fourier transform, natural order
/// in and out: in exact arithmetic, what stands at place `k` in the end is the
/// component of frequency `k` of what stood there in the beginning.
pub proof fn steps_compute_the_transform<V>(g: Circle<V>, x: Seq<V>, nb: nat, k: int)
    requires
        is_circle(g),
        g.parts == crate::math::pow(2, nb),
        x.len() == crate::math::pow(2, nb),
        x.len() <= usize::MAX,
        0 <= k < x.len(),
    ensures
        carried_out(g, x, crate::ops::fft::transform(nb)).len() == x.len(),
        carried_out(g, x, crate::ops::fft::transform(nb))[k] == component(g, x, k),
{
    let n = crate::math::pow(2, nb);
    let swaps = crate::ops::fft::swaps(nb, n);
    let a = carried_out(g, x, swaps);
    lemma_swaps(g, x, nb, n);
    lemma_levels(g, x, a, nb, nb);
    lemma_then(g, x, swaps, crate::ops::fft::levels(nb, nb));
    vstd::arithmetic::div_mod::lemma_fundamental_div_mod_converse(k, n as int, 0, k);
    let f = |m: int|
        (g.turn)(
            x[part_place(nb, nb, 0, m)],
            m * k * crate::math::pow(2, (nb - nb) as nat),
        );
    let h = |m: int| (g.turn)(x[m], m * k);
    assert(crate::math::pow(2, 0) == 1);
    assert forall|m: int| 0 <= m < n implies #[trigger] f(m) == h(m) by {
        assert(m * 1 == m);
        assert(m * k * 1 == m * k) by (nonlinear_arith);
    }
    lemma_sum_same(g, f, h, n);
}

/// The circle turned the other way round.
pub open spec fn backwards<V>(g: Circle<V>) -> Circle<V> {
    Circle { turn: |a: V, r: int| (g.turn)(a, -r), ..g }
}

/// Full turns back change nothing either.
proof fn lemma_turns<V>(g: Circle<V>, a: V, r: int, q: int)
    requires
        is_circle(g),
    ensures
        (g.turn)(a, r + q * g.parts) == (g.turn)(a, r),
{
    let p = g.parts as int;
    if q >= 0 {
        lemma_full_turns(g, a, r, q as nat);
    } else {
        let b = (-q) as nat;
        lemma_full_turns(g, a, r + q * p, b);
        assert((r + q * p) + b * p == r) by (nonlinear_arith)
            requires
                b == -q,
        ;
    }
}

/// The laws hold the other way round too.
pub proof fn backwards_is_a_circle<V>(g: Circle<V>)
    requires
        is_circle(g),
    ensures
        is_circle(backwards(g)),
{
    let h = backwards(g);
    let p = g.parts as int;
    assert(commutes(h)) by {
        reveal(commutes);
    }
    assert(associates(h)) by {
        reveal(associates);
    }
    assert(has_zero(h)) by {
        reveal(has_zero);
    }
    assert(turns_sums(h)) by {
        reveal(turns_sums);
    }
    assert(adds_turns(h)) by {
        assert forall|a: V, r: int, s: int| #[trigger] (h.turn)((h.turn)(a, r), s) == (h.turn)(
            a,
            r + s,
        ) by {
            law_turns_add(g, a, -r, -s);
            assert(-r + -s == -(r + s));
        }
        reveal(adds_turns);
    }
    assert(goes_round(h)) by {
        assert forall|a: V| #[trigger] (h.turn)(a, 0) == a by {
            law_no_turn(g, a);
        }
        assert forall|a: V| #[trigger] (h.turn)(a, p) == a by {
            lemma_turns(g, a, 0, -1);
            law_no_turn(g, a);
            assert(0 + (-1) * p == -p);
        }
        if p % 2 == 0 {
            assert forall|a: V| (g.plus)(a, #[trigger] (h.turn)(a, p / 2)) == g.zero by {
                lemma_turns(g, a, -(p / 2), 1);
                assert(-(p / 2) + 1 * p == p / 2);
                law_opposite(g, a);
            }
        }
        law_no_turn(g, g.zero);
        reveal(goes_round);
    }
}

/// Term by term.
pub proof fn lemma_sum_plus<V>(
    g: Circle<V>,
    f: spec_fn(int) -> V,
    h: spec_fn(int) -> V,
    both: spec_fn(int) -> V,
    n: nat,
)
    requires
        is_circle(g),
        forall|i: int| 0 <= i < n ==> #[trigger] both(i) == (g.plus)(f(i), h(i)),
    ensures
        sum(g, both, n) == (g.plus)(sum(g, f, n), sum(g, h, n)),
    decreases n,
{
    if n == 0 {
        law_zero(g, g.zero);
    } else {
        let m = (n - 1) as nat;
        lemma_sum_plus(g, f, h, both, m);
        let (a, b, c, d) = (sum(g, f, m), sum(g, h, m), f(n - 1), h(n - 1));
        assert(both(n - 1) == (g.plus)(c, d));
        law_associates(g, (g.plus)(a, b), c, d);
        lemma_exchange(g, a, b, c, d);
    }
}

/// A sum of zeros.
pub proof fn lemma_sum_zero<V>(g: Circle<V>, f: spec_fn(int) -> V, n: nat)
    requires
        is_circle(g),
        forall|i: int| 0 <= i < n ==> #[trigger] f(i) == g.zero,
    ensures
        sum(g, f, n) == g.zero,
    decreases n,
{
    if n > 0 {
        lemma_sum_zero(g, f, (n - 1) as nat);
        assert(f(n - 1) == g.zero);
        law_zero(g, g.zero);
    }
}

/// A sum of which all terms but one are zero.
proof fn lemma_sum_single<V>(g: Circle<V>, f: spec_fn(int) -> V, n: nat, j: int)
    requires
        is_circle(g),
        0 <= j < n,
        forall|i: int| 0 <= i < n && i != j ==> #[trigger] f(i) == g.zero,
    ensures
        sum(g, f, n) == f(j),
    decreases n,
{
    let m = (n - 1) as nat;
    if j == m {
        lemma_sum_zero(g, f, m);
        law_commutes(g, g.zero, f(j));
        law_zero(g, f(j));
    } else {
        lemma_sum_single(g, f, m, j);
        assert(f(n - 1) == g.zero);
        law_zero(g, f(j));
    }
}

/// The sum of a row of a table.
pub open spec fn row_sum<V>(g: Circle<V>, f: spec_fn(int, int) -> V, i: int, n: nat) -> V {
    sum(g, |j: int| f(i, j), n)
}

/// The sum of a column of a table.
pub open spec fn column_sum<V>(g: Circle<V>, f: spec_fn(int, int) -> V, j: int, n: nat) -> V {
    sum(g, |i: int| f(i, j), n)
}

/// The rows of a table add up to what its columns do.
proof fn lemma_table<V>(g: Circle<V>, f: spec_fn(int, int) -> V, n: nat, m: nat)
    requires
        is_circle(g),
    ensures
        sum(g, |i: int| row_sum(g, f, i, m), n) == sum(g, |j: int| column_sum(g, f, j, n), m),
    decreases n,
{
    let rows = |i: int| row_sum(g, f, i, m);
    let columns = |j: int| column_sum(g, f, j, n);
    if n == 0 {
        lemma_sum_zero(g, columns, m);
    } else {
        let k = (n - 1) as nat;
        let shorter = |j: int| column_sum(g, f, j, k);
        let last = |j: int| f(n - 1, j);
        lemma_table(g, f, k, m);
        lemma_sum_plus(g, shorter, last, columns, m);
        assert(rows(n - 1) == sum(g, last, m));
    }
}

/// Turns that go round the circle a number of times, but not evenly, cancel.
proof fn lemma_cancel<V>(g: Circle<V>, y: V, nb: nat, l: nat, d: int)
    requires
        is_circle(g),
        g.parts == crate::math::pow(2, nb),
        l <= nb,
        d % (crate::math::pow(2, l) as int) != 0,
    ensures
        sum(
            g,
            |k: int| (g.turn)(y, k * d * crate::math::pow(2, (nb - l) as nat)),
            crate::math::pow(2, l),
        ) == g.zero,
    decreases l,
{
    let w = crate::math::pow(2, (nb - l) as nat) as int;
    let f = |k: int| (g.turn)(y, k * d * w);
    if l == 0 {
        assert(crate::math::pow(2, 0) == 1);
        assert(d % 1 == 0);
    } else {
        let m = (l - 1) as nat;
        let n = crate::math::pow(2, m);
        let half = g.parts as int / 2;
        assert(crate::math::pow(2, l) == 2 * n);
        assert((nb - m) as nat == (nb - l) as nat + 1);
        assert(crate::math::pow(2, (nb - m) as nat) == 2 * w);
        crate::math::lemma_pow_positive(2, m);
        crate::math::lemma_pow_add(2, m, (nb - l) as nat);
        assert((m + (nb - l)) as nat == (nb - 1) as nat);
        assert(crate::math::pow(2, nb) == 2 * crate::math::pow(2, (nb - 1) as nat));
        assert(n * w == half);
        assert(g.parts == 2 * half);
        let even = |k: int| (g.turn)(y, k * d * (2 * w));
        let odd = |k: int| (g.turn)(even(k), d * w);
        assert forall|k: int| 0 <= k < n implies #[trigger] even(k) == f(2 * k) by {
            assert((2 * k) * d * w == k * d * (2 * w)) by (nonlinear_arith);
        }
        assert forall|k: int| 0 <= k < n implies #[trigger] odd(k) == f(2 * k + 1) by {
            assert((2 * k + 1) * d * w == k * d * (2 * w) + d * w) by (nonlinear_arith);
            law_turns_add(g, y, k * d * (2 * w), d * w);
        }
        lemma_even_odd(g, f, even, odd, n);
        lemma_sum_turned(g, even, odd, n, d * w);
        let e = sum(g, even, n);
        if d % (n as int) != 0 {
            lemma_cancel(g, y, nb, m, d);
            let same = |k: int| (g.turn)(y, k * d * crate::math::pow(2, (nb - m) as nat));
            assert forall|k: int| 0 <= k < n implies #[trigger] even(k) == same(k) by {}
            lemma_sum_same(g, even, same, n);
            law_turn_zero(g, d * w);
            law_zero(g, g.zero);
        } else {
            // An odd number of half turns.
            let c = d / (n as int);
            vstd::arithmetic::div_mod::lemma_fundamental_div_mod(d, n as int);
            if c % 2 == 0 {
                let z = c / 2;
                assert(d == (2 * n) * z) by (nonlinear_arith)
                    requires
                        d == n * c,
                        c == 2 * z,
                ;
                vstd::arithmetic::div_mod::lemma_fundamental_div_mod_converse(
                    d,
                    2 * n as int,
                    z,
                    0,
                );
            }
            let z = c / 2;
            assert(c == 2 * z + 1);
            assert(d * w == half + z * (2 * half)) by (nonlinear_arith)
                requires
                    d == n * c,
                    c == 2 * z + 1,
                    n * w == half,
            {
                assert(d * w == c * (n * w));
            }
            lemma_turns(g, e, half, z);
            law_opposite(g, e);
        }
    }
}

/// An element added to itself.
pub open spec fn times<V>(g: Circle<V>, a: V, n: nat) -> V {
    sum(g, |i: int| a, n)
}

/// The transform the other way round gives the elements back, each as many times
/// as there are elements: that is what the scale of an inverse takes out.
pub proof fn the_inverse_gives_the_elements_back<V>(g: Circle<V>, x: Seq<V>, nb: nat, j: int)
    requires
        is_circle(g),
        g.parts == crate::math::pow(2, nb),
        x.len() == crate::math::pow(2, nb),
        x.len() <= usize::MAX,
        0 <= j < x.len(),
    ensures
        carried_out(
            backwards(g),
            carried_out(g, x, crate::ops::fft::transform(nb)),
            crate::ops::fft::transform(nb),
        )[j] == times(g, x[j], x.len()),
{
    let h = backwards(g);
    let n = x.len();
    let steps = crate::ops::fft::transform(nb);
    let y = carried_out(g, x, steps);
    backwards_is_a_circle(g);
    steps_compute_the_transform(g, x, nb, 0);
    steps_compute_the_transform(h, y, nb, j);
    let table = |k: int, m: int| (g.turn)(x[m], m * k - k * j);
    // Every component, turned back, is a row of the table.
    let back = |k: int| (h.turn)(y[k], k * j);
    let rows = |k: int| row_sum(g, table, k, n);
    assert forall|k: int| 0 <= k < n implies #[trigger] back(k) == rows(k) by {
        steps_compute_the_transform(g, x, nb, k);
        let f = |m: int| (g.turn)(x[m], m * k);
        let row = |m: int| table(k, m);
        assert forall|m: int| 0 <= m < n implies #[trigger] row(m) == (g.turn)(
            f(m),
            -(k * j),
        ) by {
            law_turns_add(g, x[m], m * k, -(k * j));
        }
        lemma_sum_turned(g, f, row, n, -(k * j));
    }
    lemma_sums_agree(g, h, back, rows, n);
    lemma_table(g, table, n, n);
    // Every column but one cancels.
    let columns = |m: int| column_sum(g, table, m, n);
    assert forall|m: int| 0 <= m < n && m != j implies #[trigger] columns(m) == g.zero by {
        let column = |k: int| table(k, m);
        let d = m - j;
        let turns = |k: int| (g.turn)(x[m], k * d * crate::math::pow(2, (nb - nb) as nat));
        assert(crate::math::pow(2, 0) == 1);
        assert forall|k: int| 0 <= k < n implies #[trigger] column(k) == turns(k) by {
            assert(m * k - k * j == k * d * 1) by (nonlinear_arith)
                requires
                    d == m - j,
            ;
        }
        lemma_sum_same(g, column, turns, n);
        assert(d % (n as int) != 0) by {
            if d > 0 {
                vstd::arithmetic::div_mod::lemma_small_mod(d as nat, n);
            } else {
                vstd::arithmetic::div_mod::lemma_fundamental_div_mod_converse(
                    d,
                    n as int,
                    -1,
                    d + n,
                );
            }
        }
        lemma_cancel(g, x[m], nb, nb, d);
    }
    lemma_sum_single(g, columns, n, j);
    let column = |k: int| table(k, j);
    let same = |k: int| x[j];
    assert forall|k: int| 0 <= k < n implies #[trigger] column(k) == same(k) by {
        assert(j * k - k * j == 0) by (nonlinear_arith);
        law_no_turn(g, x[j]);
    }
    lemma_sum_same(g, column, same, n);
}

/// Sums on both circles are made by the same addition.
pub proof fn lemma_sums_agree<V>(
    g: Circle<V>,
    h: Circle<V>,
    f: spec_fn(int) -> V,
    e: spec_fn(int) -> V,
    n: nat,
)
    requires
        h.zero == g.zero,
        h.plus == g.plus,
        forall|i: int| 0 <= i < n ==> #[trigger] f(i) == e(i),
    ensures
        sum(h, f, n) == sum(g, e, n),
    decreases n,
{
    if n > 0 {
        lemma_sums_agree(g, h, f, e, (n - 1) as nat);
        assert(f(n - 1) == e(n - 1));
    }
}

/// A map of the elements that keeps sums and turns the other way round, as the
/// conjugation of complex numbers does.
pub open spec fn is_conjugation<V>(g: Circle<V>, conj: spec_fn(V) -> V) -> bool {
    &&& conj(g.zero) == g.zero
    &&& forall|a: V, b: V| #[trigger] conj((g.plus)(a, b)) == (g.plus)(conj(a), conj(b))
    &&& forall|a: V, r: int| #[trigger] conj((g.turn)(a, r)) == (g.turn)(conj(a), -r)
}

/// A component of the transform of the rows of a plane.
pub open spec fn row_component<V>(
    g: Circle<V>,
    x: spec_fn(int, int) -> V,
    n: nat,
    r: int,
    c: int,
) -> V {
    sum(g, |m: int| (g.turn)(x(r, m), m * c), n)
}

/// A component of the transform of a plane: that of the columns of the transformed
/// rows.
pub open spec fn plane_component<V>(
    g: Circle<V>,
    x: spec_fn(int, int) -> V,
    n: nat,
    u: int,
    c: int,
) -> V {
    sum(g, |r: int| (g.turn)(row_component(g, x, n, r, c), r * u), n)
}

proof fn lemma_sum_conjugated<V>(
    g: Circle<V>,
    conj: spec_fn(V) -> V,
    f: spec_fn(int) -> V,
    h: spec_fn(int) -> V,
    n: nat,
)
    requires
        is_conjugation(g, conj),
        forall|i: int| 0 <= i < n ==> #[trigger] h(i) == conj(f(i)),
    ensures
        conj(sum(g, f, n)) == sum(g, h, n),
    decreases n,
{
    if n > 0 {
        lemma_sum_conjugated(g, conj, f, h, (n - 1) as nat);
        assert(h(n - 1) == conj(f(n - 1)));
    }
}

/// A frequency and its opposite turn an element to conjugate places.
proof fn lemma_opposite_turn<V>(g: Circle<V>, a: V, m: int, c: int, back: int)
    requires
        is_circle(g),
        back == -c || back == g.parts - c,
    ensures
        (g.turn)(a, -(m * c)) == (g.turn)(a, m * back),
{
    let p = g.parts as int;
    if back == -c {
        assert(m * back == -(m * c)) by (nonlinear_arith)
            requires
                back == -c,
        ;
    } else {
        lemma_turns(g, a, -(m * c), m);
        assert(m * back == -(m * c) + m * p) by (nonlinear_arith)
            requires
                back == p - c,
        ;
    }
}

/// The transform of a real plane is conjugate symmetric: the component at the
/// opposite frequencies is the conjugate.
pub proof fn real_planes_have_symmetric_spectra<V>(
    g: Circle<V>,
    conj: spec_fn(V) -> V,
    x: spec_fn(int, int) -> V,
    n: nat,
    u: int,
    c: int,
)
    requires
        is_circle(g),
        is_conjugation(g, conj),
        g.parts == n,
        forall|r: int, m: int|
            0 <= r < n && 0 <= m < n ==> conj(#[trigger] x(r, m)) == x(r, m),
        0 <= u < n,
        0 < c < n,
    ensures
        conj(plane_component(g, x, n, u, c)) == plane_component(g, x, n, (n - u) % n as int, n - c),
{
    let back = (n - u) % n as int;
    if u == 0 {
        vstd::arithmetic::div_mod::lemma_mod_self_0(n as int);
        assert(back == -u);
    } else {
        vstd::arithmetic::div_mod::lemma_small_mod((n - u) as nat, n);
    }
    let f = |r: int| (g.turn)(row_component(g, x, n, r, c), r * u);
    let h = |r: int| (g.turn)(row_component(g, x, n, r, n - c), r * back);
    assert forall|r: int| 0 <= r < n implies #[trigger] h(r) == conj(f(r)) by {
        let e = |m: int| (g.turn)(x(r, m), m * c);
        let o = |m: int| (g.turn)(x(r, m), m * (n - c));
        assert forall|m: int| 0 <= m < n implies #[trigger] o(m) == conj(e(m)) by {
            assert(conj(x(r, m)) == x(r, m));
            lemma_opposite_turn(g, x(r, m), m, c, n - c);
        }
        lemma_sum_conjugated(g, conj, e, o, n);
        lemma_opposite_turn(g, sum(g, o, n), r, u, back);
    }
    lemma_sum_conjugated(g, conj, f, h, n);
}

/// The half spectrum of a real plane is enough: every component of the full one is
/// what the place in the half that it is taken from holds, or its conjugate.
pub proof fn half_spectra_are_enough<V>(
    g: Circle<V>,
    conj: spec_fn(V) -> V,
    x: spec_fn(int, int) -> V,
    n: nat,
    u: nat,
    c: nat,
)
    requires
        is_circle(g),
        is_conjugation(g, conj),
        g.parts == n,
        forall|r: int, m: int|
            0 <= r < n && 0 <= m < n ==> conj(#[trigger] x(r, m)) == x(r, m),
        u < n,
        c < n,
    ensures
        ({
            let (su, sc, mirrored) = crate::ops::layout::source_of(n, u, c);
            let stored = plane_component(g, x, n, su as int, sc as int);
            plane_component(g, x, n, u as int, c as int) == if mirrored {
                conj(stored)
            } else {
                stored
            }
        }),
{
    let (su, sc, mirrored) = crate::ops::layout::source_of(n, u, c);
    if mirrored {
        if u > 0 {
            vstd::arithmetic::div_mod::lemma_small_mod((n - u) as nat, n);
            vstd::arithmetic::div_mod::lemma_small_mod(u, n);
        } else {
            vstd::arithmetic::div_mod::lemma_mod_self_0(n as int);
        }
        real_planes_have_symmetric_spectra(g, conj, x, n, su as int, sc as int);
    }
}

/// Quarter turns of pairs of integers.
pub open spec fn quarter_turn(a: (int, int), r: int) -> (int, int) {
    if r % 4 == 0 {
        a
    } else if r % 4 == 1 {
        (-a.1, a.0)
    } else if r % 4 == 2 {
        (-a.0, -a.1)
    } else {
        (a.1, -a.0)
    }
}

/// Complex numbers with whole parts, turned by quarters.
pub open spec fn quarters() -> Circle<(int, int)> {
    Circle {
        parts: 4,
        zero: (0, 0),
        plus: |a: (int, int), b: (int, int)| (a.0 + b.0, a.1 + b.1),
        turn: |a: (int, int), r: int| quarter_turn(a, r),
    }
}

/// Quarter turns add up.
proof fn lemma_quarter_turns(a: (int, int), r: int, s: int)
    ensures
        quarter_turn(quarter_turn(a, r), s) == quarter_turn(a, r + s),
{
    assert((r + s) % 4 == (r % 4 + s % 4) % 4);
}

/// The laws hold of complex numbers with whole parts, and of their conjugation.
pub proof fn whole_complex_numbers_are_a_circle()
    ensures
        is_circle(quarters()),
        is_conjugation(quarters(), |a: (int, int)| (a.0, -a.1)),
{
    let g = quarters();
    assert(commutes(g)) by {
        reveal(commutes);
    }
    assert(associates(g)) by {
        reveal(associates);
    }
    assert(has_zero(g)) by {
        reveal(has_zero);
    }
    assert(turns_sums(g)) by {
        reveal(turns_sums);
    }
    assert(adds_turns(g)) by {
        reveal(adds_turns);
        assert forall|a: (int, int), r: int, s: int| #[trigger]
            (g.turn)((g.turn)(a, r), s) == (g.turn)(a, r + s) by {
            lemma_quarter_turns(a, r, s);
        }
    }
    assert(goes_round(g)) by {
        reveal(goes_round);
    }
}

} // verus!
