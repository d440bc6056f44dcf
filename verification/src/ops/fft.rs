//! The radix-2 transform as a list of steps, and where the elements of planes
//! and half spectra stand: all of the transforms of the kernel set but the
//! arithmetic on the elements.
use vstd::prelude::*;

verus! {

/// The largest transform: a plane of it fits the shared memory of a kernel.
pub const MAX_SIZE: usize = 64;

/// The number with the lowest `nb` bits of `i` in reverse.
pub open spec fn reversed(i: nat, nb: nat) -> nat
    decreases nb,
{
    if nb == 0 {
        0
    } else {
        (i % 2) * crate::math::pow(2, (nb - 1) as nat) + reversed(i / 2, (nb - 1) as nat)
    }
}

/// A machine word holds as many numbers as two to the power of its bits.
proof fn lemma_word()
    ensures
        crate::math::pow(2, usize::BITS as nat) == usize::MAX + 1,
{
    reveal_with_fuel(crate::math::pow, 17);
    assert(crate::math::pow(2, 16) == 0x1_0000);
    crate::math::lemma_pow_add(2, 16, 16);
    assert(0x1_0000nat * 0x1_0000 == 0x1_0000_0000) by (nonlinear_arith);
    crate::math::lemma_pow_add(2, 32, 32);
    assert(0x1_0000_0000nat * 0x1_0000_0000 == 0x1_0000_0000_0000_0000) by (nonlinear_arith);
    assert(usize::BITS == 32 || usize::BITS == 64);
}

/// Bit reversal of `i` over `nb` bits, all of them at most.
pub fn bitrev(i: usize, nb: usize) -> (j: usize)
    requires
        nb <= usize::BITS,
    ensures
        j == reversed(i as nat, nb as nat),
        j < crate::math::pow(2, nb as nat),
{
    let mut j: usize = 0;
    let mut rest: usize = i;
    let mut left: usize = nb;
    proof {
        lemma_word();
        crate::math::lemma_pow_monotone(2, nb as nat, usize::BITS as nat);
        assert(0 * crate::math::pow(2, nb as nat) == 0);
    }
    while left > 0
        invariant
            left <= nb,
            crate::math::pow(2, nb as nat) <= usize::MAX + 1,
            j < crate::math::pow(2, (nb - left) as nat),
            j as nat * crate::math::pow(2, left as nat) + reversed(rest as nat, left as nat)
                == reversed(i as nat, nb as nat),
        decreases left,
    {
        proof {
            let p = crate::math::pow(2, (left - 1) as nat);
            let bit = (rest % 2) as nat;
            assert(crate::math::pow(2, left as nat) == 2 * p);
            let w = j as nat;
            assert(w * (2 * p) + bit * p == (2 * w + bit) * p) by (nonlinear_arith);
            crate::math::lemma_pow_monotone(2, (nb - left + 1) as nat, nb as nat);
            assert(crate::math::pow(2, (nb - left + 1) as nat) == 2 * crate::math::pow(
                2,
                (nb - left) as nat,
            ));
        }
        j = 2 * j + rest % 2;
        rest = rest / 2;
        left -= 1;
    }
    assert(crate::math::pow(2, 0) == 1);
    assert(j as nat * 1 == j);
    j
}

/// A reversed number fits the bits.
pub proof fn reversal_fits(i: nat, nb: nat)
    ensures
        reversed(i, nb) < crate::math::pow(2, nb),
    decreases nb,
{
    if nb > 0 {
        reversal_fits(i / 2, (nb - 1) as nat);
        let p = crate::math::pow(2, (nb - 1) as nat);
        let bit = i % 2;
        assert(bit * p <= p) by (nonlinear_arith)
            requires
                bit <= 1,
        ;
    }
}

/// The lowest bits come out on top: the bit above the others becomes the lowest.
proof fn lemma_reversed_top(i: nat, bit: nat, nb: nat)
    requires
        i < crate::math::pow(2, nb),
        bit <= 1,
    ensures
        reversed(i + bit * crate::math::pow(2, nb), nb + 1) == 2 * reversed(i, nb) + bit,
    decreases nb,
{
    let p = crate::math::pow(2, nb);
    let n = i + bit * p;
    if nb == 0 {
        assert(p == 1);
        assert(bit * 1 == bit);
        assert(i == 0);
        assert(n == bit);
        assert(crate::math::pow(2, 0) == 1);
        assert(reversed(n / 2, 0) == 0);
        assert((n % 2) * 1 == n % 2);
        assert(reversed(n, 1) == (n % 2) * crate::math::pow(2, 0) + reversed(n / 2, 0));
    } else {
        let h = crate::math::pow(2, (nb - 1) as nat);
        assert(p == 2 * h);
        assert(bit * (2 * h) == 2 * (bit * h)) by (nonlinear_arith);
        assert(n % 2 == i % 2);
        assert(n / 2 == i / 2 + bit * h);
        lemma_reversed_top(i / 2, bit, (nb - 1) as nat);
        let low = i % 2;
        assert(low * (2 * h) == 2 * (low * h)) by (nonlinear_arith);
        assert(reversed(n, nb + 1) == (n % 2) * p + reversed(n / 2, nb));
    }
}

/// Reversing twice gives the number back: the exchange of elements by reversed
/// places is one of pairs.
pub proof fn reversal_is_an_involution(i: nat, nb: nat)
    requires
        i < crate::math::pow(2, nb),
    ensures
        reversed(reversed(i, nb), nb) == i,
    decreases nb,
{
    if nb > 0 {
        let m = (nb - 1) as nat;
        let p = crate::math::pow(2, m);
        reversal_fits(i / 2, m);
        reversal_is_an_involution(i / 2, m);
        lemma_reversed_top(reversed(i / 2, m), i % 2, m);
        assert(reversed(i, nb) == reversed(i / 2, m) + (i % 2) * p);
        assert(m + 1 == nb);
    }
}

/// One step of a transform in place.
#[derive(Debug, Clone, Copy, PartialEq, Eq, Structural)]
pub enum Step {
    /// Exchange two elements.
    Swap { i: usize, j: usize },
    /// With `t` the second element times the root of unity `k` parts of `len`
    /// round the circle: the first becomes the sum, the second the difference,
    /// of the first and `t`.
    Butterfly { i: usize, j: usize, k: usize, len: usize },
}

/// The exchanges for the first `count` places.
pub open spec fn swaps(nb: nat, count: nat) -> Seq<Step>
    decreases count,
{
    if count == 0 {
        Seq::empty()
    } else {
        let i = (count - 1) as nat;
        let front = swaps(nb, i);
        if reversed(i, nb) > i {
            front.push(Step::Swap { i: i as usize, j: reversed(i, nb) as usize })
        } else {
            front
        }
    }
}

/// The first `count` butterflies of a block of `2 * half` elements.
pub open spec fn block(start: nat, half: nat, count: nat) -> Seq<Step>
    decreases count,
{
    if count == 0 {
        Seq::empty()
    } else {
        let k = (count - 1) as nat;
        block(start, half, k).push(
            Step::Butterfly {
                i: (start + k) as usize,
                j: (start + k + half) as usize,
                k: k as usize,
                len: (2 * half) as usize,
            },
        )
    }
}

/// The butterflies of the first `count` blocks of `2 * half` elements.
pub open spec fn blocks(half: nat, count: nat) -> Seq<Step>
    decreases count,
{
    if count == 0 {
        Seq::empty()
    } else {
        let start = 2 * half * ((count - 1) as nat);
        blocks(half, (count - 1) as nat) + block(start, half, half)
    }
}

/// The butterflies of the first `count` levels, over blocks of 2, 4, 8 and so on.
pub open spec fn levels(nb: nat, count: nat) -> Seq<Step>
    decreases count,
{
    if count == 0 {
        Seq::empty()
    } else {
        let half = crate::math::pow(2, (count - 1) as nat);
        levels(nb, (count - 1) as nat) + blocks(
            half,
            crate::math::pow(2, (nb - count) as nat),
        )
    }
}

/// The steps of a transform of `2^nb` elements.
pub open spec fn transform(nb: nat) -> Seq<Step> {
    swaps(nb, crate::math::pow(2, nb)) + levels(nb, nb)
}

/// The steps of the transform of `2^nb` elements, natural order in and out.
pub fn transform_steps(nb: usize) -> (r: Vec<Step>)
    requires
        crate::math::pow(2, nb as nat) <= usize::MAX,
    ensures
        r@ == transform(nb as nat),
{
    let mut out: Vec<Step> = Vec::new();
    let n: usize = two_to(nb);
    let mut i: usize = 0;
    proof {
        lemma_word();
        if nb > usize::BITS {
            crate::math::lemma_pow_monotone(2, usize::BITS as nat, nb as nat);
        }
    }
    while i < n
        invariant
            i <= n,
            nb <= usize::BITS,
            n == crate::math::pow(2, nb as nat),
            out@ == swaps(nb as nat, i as nat),
        decreases n - i,
    {
        let j: usize = bitrev(i, nb);
        if j > i {
            out.push(Step::Swap { i, j });
        }
        i += 1;
    }
    let ghost first = out@;
    let mut half: usize = 1;
    let mut count: usize = n;
    let mut level: usize = 0;
    assert(first + levels(nb as nat, 0) =~= first);
    while level < nb
        invariant
            level <= nb,
            n == crate::math::pow(2, nb as nat),
            half == crate::math::pow(2, level as nat),
            count == crate::math::pow(2, (nb - level) as nat),
            half * count == n,
            out@ == first + levels(nb as nat, level as nat),
        decreases nb - level,
    {
        proof {
            let c = crate::math::pow(2, (nb - level - 1) as nat);
            assert(count == 2 * c);
            assert((2 * half) * c == half * count) by (nonlinear_arith)
                requires
                    count == 2 * c,
            ;
            crate::math::lemma_pow_positive(2, (nb - level - 1) as nat);
            crate::math::lemma_pow_positive(2, level as nat);
            assert(2 * half <= n) by (nonlinear_arith)
                requires
                    (2 * half) * c == n,
                    c >= 1,
            ;
        }
        count = count / 2;
        push_blocks(&mut out, half, count, n);
        proof {
            let h = half as nat;
            assert(out@ =~= first + (levels(nb as nat, level as nat) + blocks(h, count as nat)));
            assert(crate::math::pow(2, (level + 1) as nat) == 2 * half);
        }
        half = 2 * half;
        level += 1;
    }
    out
}

/// Appends the butterflies of the blocks of one level.
fn push_blocks(out: &mut Vec<Step>, half: usize, count: usize, n: usize)
    requires
        2 * half * count == n,
        half >= 1,
    ensures
        final(out)@ == old(out)@ + blocks(half as nat, count as nat),
{
    let ghost before = out@;
    let mut start: usize = 0;
    let ghost mut done: nat = 0;
    proof {
        assert(2 * half * 0 == 0);
        assert(before + blocks(half as nat, 0) =~= before);
    }
    while start < n
        invariant
            start == 2 * half * done,
            2 * half * count == n,
            half >= 1,
            done <= count,
            out@ == before + blocks(half as nat, done),
        decreases n - start,
    {
        let ghost part = out@;
        proof {
            let len = 2 * half;
            assert(done < count) by (nonlinear_arith)
                requires
                    len * done < len * count,
                    len > 0,
            ;
            assert(len * (done + 1) == len * done + len) by (nonlinear_arith);
            assert(len * (done + 1) <= len * count) by (nonlinear_arith)
                requires
                    done < count,
                    len > 0,
            ;
        }
        let mut k: usize = 0;
        assert(part + block(start as nat, half as nat, 0) =~= part);
        while k < half
            invariant
                k <= half,
                start + 2 * half <= n,
                out@ == part + block(start as nat, half as nat, k as nat),
            decreases half - k,
        {
            let i: usize = start + k;
            out.push(Step::Butterfly { i, j: i + half, k, len: 2 * half });
            k += 1;
            assert(out@ =~= part + block(start as nat, half as nat, k as nat));
        }
        proof {
            assert(out@ =~= before + (blocks(half as nat, done) + block(
                start as nat,
                half as nat,
                half as nat,
            )));
            assert(blocks(half as nat, done + 1) == blocks(half as nat, done) + block(
                2 * half as nat * done,
                half as nat,
                half as nat,
            ));
            done = done + 1;
        }
        start = start + 2 * half;
    }
    proof {
        let len = 2 * half;
        assert(done == count) by (nonlinear_arith)
            requires
                len * done >= len * count,
                done <= count,
                len > 0,
        ;
    }
}

/// A step of a transform of a line of elements `stride` apart, from `at` on.
pub open spec fn placed(step: Step, at: int, stride: int) -> Step {
    match step {
        Step::Swap { i, j } => Step::Swap {
            i: (at + i * stride) as usize,
            j: (at + j * stride) as usize,
        },
        Step::Butterfly { i, j, k, len } => Step::Butterfly {
            i: (at + i * stride) as usize,
            j: (at + j * stride) as usize,
            k,
            len,
        },
    }
}

/// The steps of a transform of a line.
pub open spec fn on_line(steps: Seq<Step>, at: int, stride: int) -> Seq<Step> {
    Seq::new(steps.len(), |i: int| placed(steps[i], at, stride))
}

/// The steps of the transforms of the first `count` lines, which begin `gap`
/// apart.
pub open spec fn on_lines(steps: Seq<Step>, gap: int, stride: int, count: nat) -> Seq<Step>
    decreases count,
{
    if count == 0 {
        Seq::empty()
    } else {
        on_lines(steps, gap, stride, (count - 1) as nat) + on_line(
            steps,
            (count - 1) * gap,
            stride,
        )
    }
}

/// The steps of the transform of a plane of `2^nb` rows and columns: that of every
/// row, then that of every column.
pub open spec fn plane_transform(nb: nat) -> Seq<Step> {
    let n = crate::math::pow(2, nb);
    on_lines(transform(nb), n as int, 1, n) + on_lines(transform(nb), 1, n as int, n)
}

/// The steps of the transform back: columns first, then rows.
pub open spec fn plane_inverse(nb: nat) -> Seq<Step> {
    let n = crate::math::pow(2, nb);
    on_lines(transform(nb), 1, n as int, n) + on_lines(transform(nb), n as int, 1, n)
}

/// A step on two of `n` elements.
pub open spec fn inside(step: Step, n: int) -> bool {
    match step {
        Step::Swap { i, j } => i < n && j < n && i != j,
        Step::Butterfly { i, j, .. } => i < n && j < n && i != j,
    }
}

/// Steps on `n` elements.
pub open spec fn all_inside(steps: Seq<Step>, n: int) -> bool {
    forall|i: int| 0 <= i < steps.len() ==> inside(#[trigger] steps[i], n)
}

proof fn lemma_inside_both(a: Seq<Step>, b: Seq<Step>, n: int)
    requires
        all_inside(a, n),
        all_inside(b, n),
    ensures
        all_inside(a + b, n),
{
    assert forall|i: int| 0 <= i < (a + b).len() implies inside(#[trigger] (a + b)[i], n) by {
        if i < a.len() {
            assert((a + b)[i] == a[i]);
        } else {
            assert((a + b)[i] == b[i - a.len()]);
        }
    }
}

proof fn lemma_swaps_inside(nb: nat, count: nat)
    requires
        count <= crate::math::pow(2, nb),
        crate::math::pow(2, nb) <= usize::MAX,
    ensures
        all_inside(swaps(nb, count), crate::math::pow(2, nb) as int),
    decreases count,
{
    if count > 0 {
        lemma_swaps_inside(nb, (count - 1) as nat);
        reversal_fits((count - 1) as nat, nb);
    }
}

proof fn lemma_block_inside(start: nat, half: nat, count: nat, n: int)
    requires
        count <= half,
        half > 0,
        start + 2 * half <= n <= usize::MAX,
    ensures
        all_inside(block(start, half, count), n),
    decreases count,
{
    if count > 0 {
        lemma_block_inside(start, half, (count - 1) as nat, n);
    }
}

proof fn lemma_blocks_inside(half: nat, count: nat, n: int)
    requires
        half > 0,
        2 * half * count <= n <= usize::MAX,
    ensures
        all_inside(blocks(half, count), n),
    decreases count,
{
    if count > 0 {
        let len = 2 * half;
        let c = (count - 1) as nat;
        assert(len * count == len * c + len) by (nonlinear_arith)
            requires
                count == c + 1,
        ;
        lemma_blocks_inside(half, c, n);
        lemma_block_inside(len * c, half, half, n);
        lemma_inside_both(blocks(half, c), block(len * c, half, half), n);
    }
}

proof fn lemma_levels_inside(nb: nat, count: nat)
    requires
        count <= nb,
        crate::math::pow(2, nb) <= usize::MAX,
    ensures
        all_inside(levels(nb, count), crate::math::pow(2, nb) as int),
    decreases count,
{
    if count > 0 {
        let n = crate::math::pow(2, nb) as int;
        let half = crate::math::pow(2, (count - 1) as nat);
        let c = crate::math::pow(2, (nb - count) as nat);
        crate::math::lemma_pow_positive(2, (count - 1) as nat);
        crate::math::lemma_pow_add(2, count, (nb - count) as nat);
        assert((count + (nb - count)) as nat == nb);
        assert(crate::math::pow(2, count) == 2 * half);
        lemma_levels_inside(nb, (count - 1) as nat);
        lemma_blocks_inside(half, c, n);
        lemma_inside_both(levels(nb, (count - 1) as nat), blocks(half, c), n);
    }
}

/// The steps of a transform stay on its elements.
pub proof fn transform_stays_inside(nb: nat)
    requires
        crate::math::pow(2, nb) <= usize::MAX,
    ensures
        all_inside(transform(nb), crate::math::pow(2, nb) as int),
{
    let n = crate::math::pow(2, nb);
    lemma_swaps_inside(nb, n);
    lemma_levels_inside(nb, nb);
    lemma_inside_both(swaps(nb, n), levels(nb, nb), n as int);
}

/// A place on a line of a plane.
pub proof fn lemma_line_place(i: int, line: int, n: int, gap: int, stride: int)
    requires
        0 <= i < n,
        0 <= line < n,
        (gap == n && stride == 1) || (gap == 1 && stride == n),
    ensures
        0 <= line * gap + i * stride < n * n,
        0 <= line * gap < n * n,
        0 <= i * stride < n * n,
{
    assert(line * n <= (n - 1) * n && i * n <= (n - 1) * n) by (nonlinear_arith)
        requires
            0 <= line < n,
            0 <= i < n,
    ;
    assert((n - 1) * n == n * n - n) by (nonlinear_arith);
    assert(0 <= line * n && 0 <= i * n) by (nonlinear_arith)
        requires
            line >= 0,
            i >= 0,
            n >= 0,
    ;
}

/// Appends the steps of the transforms of the `n` lines of a plane.
fn push_lines(out: &mut Vec<Step>, steps: &Vec<Step>, n: usize, by_rows: bool)
    requires
        n * n <= usize::MAX,
        all_inside(steps@, n as int),
    ensures
        final(out)@ == old(out)@ + (if by_rows {
            on_lines(steps@, n as int, 1, n as nat)
        } else {
            on_lines(steps@, 1, n as int, n as nat)
        }),
{
    let gap: usize = if by_rows {
        n
    } else {
        1
    };
    let stride: usize = if by_rows {
        1
    } else {
        n
    };
    let ghost before = out@;
    let mut line: usize = 0;
    assert(before + on_lines(steps@, gap as int, stride as int, 0) =~= before);
    while line < n
        invariant
            line <= n,
            n * n <= usize::MAX,
            (gap == n && stride == 1) || (gap == 1 && stride == n),
            all_inside(steps@, n as int),
            out@ == before + on_lines(steps@, gap as int, stride as int, line as nat),
        decreases n - line,
    {
        let ghost part = out@;
        proof {
            lemma_line_place(0, line as int, n as int, gap as int, stride as int);
        }
        let at: usize = line * gap;
        let ghost whole = on_line(steps@, at as int, stride as int);
        let mut s: usize = 0;
        assert(part + whole.take(0) =~= part);
        while s < steps.len()
            invariant
                s <= steps@.len(),
                line < n,
                n * n <= usize::MAX,
                at == line * gap,
                (gap == n && stride == 1) || (gap == 1 && stride == n),
                all_inside(steps@, n as int),
                whole == on_line(steps@, at as int, stride as int),
                out@ == part + whole.take(s as int),
            decreases steps@.len() - s,
        {
            assert(inside(steps@[s as int], n as int));
            let step: Step = match steps[s] {
                Step::Swap { i, j } => {
                    proof {
                        let (g, s) = (gap as int, stride as int);
                        lemma_line_place(i as int, line as int, n as int, g, s);
                        lemma_line_place(j as int, line as int, n as int, g, s);
                    }
                    Step::Swap { i: at + i * stride, j: at + j * stride }
                },
                Step::Butterfly { i, j, k, len } => {
                    proof {
                        let (g, s) = (gap as int, stride as int);
                        lemma_line_place(i as int, line as int, n as int, g, s);
                        lemma_line_place(j as int, line as int, n as int, g, s);
                    }
                    Step::Butterfly { i: at + i * stride, j: at + j * stride, k, len }
                },
            };
            assert(step == whole[s as int]);
            out.push(step);
            s += 1;
            assert(out@ =~= part + whole.take(s as int));
        }
        proof {
            assert(whole.take(steps@.len() as int) =~= whole);
            assert(out@ =~= before + (on_lines(
                steps@,
                gap as int,
                stride as int,
                line as nat,
            ) + whole));
        }
        line += 1;
    }
}

/// The steps of the transform of a plane of `2^nb` rows and columns, or of the
/// transform back.
pub fn plane_steps(nb: usize, inverse: bool) -> (r: Vec<Step>)
    requires
        crate::math::pow(2, nb as nat) * crate::math::pow(2, nb as nat) <= usize::MAX,
    ensures
        r@ == (if inverse {
            plane_inverse(nb as nat)
        } else {
            plane_transform(nb as nat)
        }),
{
    let ghost n0 = crate::math::pow(2, nb as nat);
    proof {
        crate::math::lemma_pow_positive(2, nb as nat);
        assert(n0 <= n0 * n0) by (nonlinear_arith)
            requires
                n0 >= 1,
        ;
        transform_stays_inside(nb as nat);
    }
    let n: usize = two_to(nb);
    let steps = transform_steps(nb);
    let mut out: Vec<Step> = Vec::new();
    push_lines(&mut out, &steps, n, !inverse);
    push_lines(&mut out, &steps, n, inverse);
    let ghost rows = on_lines(steps@, n as int, 1, n as nat);
    let ghost columns = on_lines(steps@, 1, n as int, n as nat);
    assert(Seq::<Step>::empty() + rows =~= rows);
    assert(Seq::<Step>::empty() + columns =~= columns);
    out
}

/// Two to a power.
fn two_to(nb: usize) -> (n: usize)
    requires
        crate::math::pow(2, nb as nat) <= usize::MAX,
    ensures
        n == crate::math::pow(2, nb as nat),
{
    let mut n: usize = 1;
    let mut e: usize = 0;
    while e < nb
        invariant
            e <= nb,
            n == crate::math::pow(2, e as nat),
            crate::math::pow(2, nb as nat) <= usize::MAX,
        decreases nb - e,
    {
        proof {
            crate::math::lemma_pow_monotone(2, (e + 1) as nat, nb as nat);
        }
        n = 2 * n;
        e += 1;
    }
    n
}

/// The bits of a reversed number are those of the number, counted from the other end.
pub proof fn reversal_turns_the_bits_round(i: nat, nb: nat, k: nat)
    requires
        k < nb,
    ensures
        (reversed(i, nb) / crate::math::pow(2, k)) % 2 == (i / crate::math::pow(
            2,
            (nb - 1 - k) as nat,
        )) % 2,
    decreases nb,
{
    let m = (nb - 1) as nat;
    let p = crate::math::pow(2, m);
    let bit = i % 2;
    let rest = reversed(i / 2, m);
    crate::math::lemma_pow_positive(2, m);
    crate::math::lemma_pow_positive(2, k);
    reversal_fits(i / 2, m);
    assert(reversed(i, nb) == bit * p + rest);
    if k == m {
        assert(crate::math::pow(2, 0) == 1);
        assert((nb - 1 - k) as nat == 0);
        assert(i / 1 == i);
        vstd::arithmetic::div_mod::lemma_fundamental_div_mod_converse(
            (bit * p + rest) as int,
            p as int,
            bit as int,
            rest as int,
        );
    } else {
        let q = crate::math::pow(2, k);
        let h = crate::math::pow(2, (m - k - 1) as nat);
        reversal_turns_the_bits_round(i / 2, m, k);
        crate::math::lemma_pow_positive(2, (m - k - 1) as nat);
        crate::math::lemma_pow_add(2, k, (m - k) as nat);
        assert((k + (m - k)) as nat == m);
        assert(crate::math::pow(2, (m - k) as nat) == 2 * h);
        assert(p == q * (2 * h));
        lemma_low_bit(bit, q, h, rest);
        vstd::arithmetic::div_mod::lemma_div_denominator(i as int, 2, h as int);
        assert((nb - 1 - k) as nat == (m - k) as nat);
        assert((m - 1 - k) as nat == (m - k - 1) as nat);
        assert((i / 2) / h == i / (2 * h));
    }
}

/// An even multiple of a power adds nothing to the bit that stands there.
proof fn lemma_low_bit(bit: nat, q: nat, h: nat, rest: nat)
    requires
        q > 0,
    ensures
        ((bit * (q * (2 * h)) + rest) / q) % 2 == (rest / q) % 2,
{
    let low = rest / q;
    let r0 = rest % q;
    let more = bit * h;
    vstd::arithmetic::div_mod::lemma_fundamental_div_mod(rest as int, q as int);
    assert(bit * (q * (2 * h)) + (q * low + r0) == (2 * more + low) * q + r0) by (nonlinear_arith)
        requires
            more == bit * h,
    ;
    vstd::arithmetic::div_mod::lemma_fundamental_div_mod_converse(
        (bit * (q * (2 * h)) + rest) as int,
        q as int,
        (2 * more + low) as int,
        r0 as int,
    );
    assert((2 * more + low) % 2 == low % 2);
}

} // verus!
