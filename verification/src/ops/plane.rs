//! What the steps of the transform of a plane compute, in exact arithmetic.
use crate::ops::fft::Step;
use crate::ops::fourier::Circle;
use vstd::prelude::*;

verus! {

/// The elements of a line, `stride` apart from `at` on.
pub open spec fn line_of<V>(a: Seq<V>, at: int, stride: int, n: nat) -> Seq<V> {
    Seq::new(n, |i: int| a[at + i * stride])
}

/// Is the place on the line?
pub open spec fn on_the_line(p: int, at: int, stride: int, n: nat) -> bool {
    exists|i: int| 0 <= i < n && p == at + #[trigger] (i * stride)
}

/// Different elements of a line stand at different places.
proof fn lemma_injective(i: int, j: int, stride: int)
    requires
        stride > 0,
        i != j,
    ensures
        i * stride != j * stride,
{
    assert(i * stride != j * stride) by (nonlinear_arith)
        requires
            stride > 0,
            i != j,
    ;
}

/// Steps on a line do on it what they do on a sequence of its own, and nothing
/// elsewhere.
proof fn lemma_line<V>(g: Circle<V>, a: Seq<V>, steps: Seq<Step>, at: int, stride: int, n: nat)
    requires
        crate::ops::fft::all_inside(steps, n as int),
        a.len() <= usize::MAX,
        stride > 0,
        forall|i: int| 0 <= i < n ==> 0 <= at + #[trigger] (i * stride) < a.len(),
    ensures
        ({
            let r = crate::ops::fourier::carried_out(
                g,
                a,
                crate::ops::fft::on_line(steps, at, stride),
            );
            let own = crate::ops::fourier::carried_out(g, line_of(a, at, stride, n), steps);
            &&& r.len() == a.len()
            &&& own.len() == n
            &&& forall|i: int| 0 <= i < n ==> r[at + #[trigger] (i * stride)] == own[i]
            &&& forall|p: int|
                0 <= p < a.len() && !on_the_line(p, at, stride, n) ==> #[trigger] r[p] == a[p]
        }),
    decreases steps.len(),
{
    let all = crate::ops::fft::on_line(steps, at, stride);
    let line = line_of(a, at, stride, n);
    let r = crate::ops::fourier::carried_out(g, a, all);
    let own = crate::ops::fourier::carried_out(g, line, steps);
    if steps.len() > 0 {
        let front = steps.drop_last();
        assert(crate::ops::fft::all_inside(front, n as int)) by {
            assert forall|i: int| 0 <= i < front.len() implies crate::ops::fft::inside(
                #[trigger] front[i],
                n as int,
            ) by {
                assert(crate::ops::fft::inside(steps[i], n as int));
            }
        }
        lemma_line(g, a, front, at, stride, n);
        assert(all.drop_last() =~= crate::ops::fft::on_line(front, at, stride));
        let before = crate::ops::fourier::carried_out(
            g,
            a,
            crate::ops::fft::on_line(front, at, stride),
        );
        let owned = crate::ops::fourier::carried_out(g, line, front);
        let last = steps.last();
        assert(crate::ops::fft::inside(last, n as int));
        let (i, j) = match last {
            Step::Swap { i, j } => (i as int, j as int),
            Step::Butterfly { i, j, .. } => (i as int, j as int),
        };
        let (pi, pj) = (at + i * stride, at + j * stride);
        assert(before[pi] == owned[i] && before[pj] == owned[j]);
        lemma_injective(i, j, stride);
        assert(on_the_line(pi, at, stride, n));
        assert(on_the_line(pj, at, stride, n));
        assert(all.last() == crate::ops::fft::placed(last, at, stride));
        assert forall|m: int| 0 <= m < n implies r[at + #[trigger] (m * stride)] == own[m] by {
            if m != i {
                lemma_injective(m, i, stride);
            }
            if m != j {
                lemma_injective(m, j, stride);
            }
            assert(before[at + m * stride] == owned[m]);
        }
    }
}

/// Places on different lines of a plane are different.
proof fn lemma_lines_apart(n: int, gap: int, stride: int, line: int, i: int, other: int, j: int)
    requires
        0 <= line < n,
        0 <= other < n,
        0 <= i < n,
        0 <= j < n,
        line != other,
        (gap == n && stride == 1) || (gap == 1 && stride == n),
    ensures
        line * gap + i * stride != other * gap + j * stride,
{
    if gap == n && stride == 1 {
        assert(line * n + i != other * n + j) by (nonlinear_arith)
            requires
                0 <= i < n,
                0 <= j < n,
                line != other,
        ;
    } else {
        assert(line + i * n != other + j * n) by (nonlinear_arith)
            requires
                0 <= line < n,
                0 <= other < n,
                line != other,
        ;
    }
}

/// Steps on the lines of a plane, one line after another.
proof fn lemma_lines<V>(
    g: Circle<V>,
    a: Seq<V>,
    steps: Seq<Step>,
    n: nat,
    gap: int,
    stride: int,
    count: nat,
)
    requires
        crate::ops::fft::all_inside(steps, n as int),
        a.len() == n * n,
        a.len() <= usize::MAX,
        count <= n,
        (gap == n && stride == 1) || (gap == 1 && stride == n),
    ensures
        ({
            let r = crate::ops::fourier::carried_out(
                g,
                a,
                crate::ops::fft::on_lines(steps, gap, stride, count),
            );
            &&& r.len() == a.len()
            &&& forall|line: int, i: int|
                0 <= line < n && 0 <= i < n ==> r[#[trigger] (line * gap) + #[trigger] (i
                    * stride)] == (if line < count {
                    crate::ops::fourier::carried_out(
                        g,
                        line_of(a, line * gap, stride, n),
                        steps,
                    )[i]
                } else {
                    a[line * gap + i * stride]
                })
        }),
    decreases count,
{
    if count > 0 {
        let c = (count - 1) as nat;
        lemma_lines(g, a, steps, n, gap, stride, c);
        let front = crate::ops::fft::on_lines(steps, gap, stride, c);
        let before = crate::ops::fourier::carried_out(g, a, front);
        let at = c * gap;
        crate::ops::fourier::lemma_then(
            g,
            a,
            front,
            crate::ops::fft::on_line(steps, at, stride),
        );
        assert forall|i: int| 0 <= i < n implies 0 <= at + #[trigger] (i * stride)
            < before.len() by {
            crate::ops::fft::lemma_line_place(i, c as int, n as int, gap, stride);
        }
        lemma_line(g, before, steps, at, stride, n);
        assert(line_of(before, at, stride, n) =~= line_of(a, at, stride, n)) by {
            assert forall|i: int| 0 <= i < n implies before[at + #[trigger] (i * stride)] == a[at
                + i * stride] by {
                assert(before[c as int * gap + i * stride] == a[c as int * gap + i * stride]);
            }
        }
        let r = crate::ops::fourier::carried_out(
            g,
            a,
            crate::ops::fft::on_lines(steps, gap, stride, count),
        );
        assert forall|line: int, i: int| 0 <= line < n && 0 <= i < n implies r[#[trigger] (line
            * gap) + #[trigger] (i * stride)] == (if line < count {
            crate::ops::fourier::carried_out(g, line_of(a, line * gap, stride, n), steps)[i]
        } else {
            a[line * gap + i * stride]
        }) by {
            let p = line * gap + i * stride;
            crate::ops::fft::lemma_line_place(i, line, n as int, gap, stride);
            if line != c {
                assert(!on_the_line(p, at, stride, n)) by {
                    if on_the_line(p, at, stride, n) {
                        let j = choose|j: int| 0 <= j < n && p == at + #[trigger] (j * stride);
                        lemma_lines_apart(n as int, gap, stride, line, i, c as int, j);
                    }
                }
                assert(r[p] == before[p]);
            }
        }
    } else {
        assert(crate::ops::fft::on_lines(steps, gap, stride, 0).len() == 0);
    }
}

/// The element of a plane at a row and a column.
pub open spec fn at_place<V>(a: Seq<V>, n: nat) -> spec_fn(int, int) -> V {
    |r: int, m: int| a[r * n + m]
}

/// The plane after the rows.
proof fn lemma_rows<V>(g: Circle<V>, a: Seq<V>, nb: nat, r: int, c: int)
    requires
        crate::ops::fourier::is_circle(g),
        g.parts == crate::math::pow(2, nb),
        a.len() == g.parts * g.parts,
        a.len() <= usize::MAX,
        0 <= r < g.parts,
        0 <= c < g.parts,
    ensures
        ({
            let n = g.parts;
            let steps = crate::ops::fft::transform(nb);
            let rows = crate::ops::fourier::carried_out(
                g,
                a,
                crate::ops::fft::on_lines(steps, n as int, 1, n),
            );
            &&& rows.len() == a.len()
            &&& rows[r * n + c] == crate::ops::fourier::carried_out(
                g,
                line_of(a, r * n, 1, n),
                steps,
            )[c]
            &&& rows[r * n + c] == crate::ops::fourier::row_component(
                g,
                at_place(a, n),
                n,
                r,
                c,
            )
        }),
{
    let n = g.parts;
    let steps = crate::ops::fft::transform(nb);
    lemma_size(n);
    crate::ops::fft::transform_stays_inside(nb);
    lemma_lines(g, a, steps, n, n as int, 1, n);
    let row = line_of(a, r * n, 1, n);
    crate::ops::fourier::steps_compute_the_transform(g, row, nb, c);
    assert(c * 1 == c);
    let rows = crate::ops::fourier::carried_out(
        g,
        a,
        crate::ops::fft::on_lines(steps, n as int, 1, n),
    );
    assert(rows[r * n as int + c * 1] == crate::ops::fourier::carried_out(g, row, steps)[c]);
    let f = |m: int| (g.turn)(row[m], m * c);
    let x = at_place(a, n);
    let h = |m: int| (g.turn)(x(r, m), m * c);
    assert forall|m: int| 0 <= m < n implies #[trigger] f(m) == h(m) by {
        assert(m * 1 == m);
    }
    crate::ops::fourier::lemma_sum_same(g, f, h, n);
}

/// A plane has at least as many elements as rows.
proof fn lemma_size(n: nat)
    ensures
        n <= n * n,
{
    assert(n <= n * n) by (nonlinear_arith);
}

/// The steps of the transform of a plane compute its discrete Fourier transform:
/// in exact arithmetic, what stands at a row and a column in the end is the
/// component of these frequencies.
pub proof fn plane_steps_compute_the_transform<V>(
    g: Circle<V>,
    a: Seq<V>,
    nb: nat,
    u: int,
    c: int,
)
    requires
        crate::ops::fourier::is_circle(g),
        g.parts == crate::math::pow(2, nb),
        a.len() == g.parts * g.parts,
        a.len() <= usize::MAX,
        0 <= u < g.parts,
        0 <= c < g.parts,
    ensures
        ({
            let r = crate::ops::fourier::carried_out(g, a, crate::ops::fft::plane_transform(nb));
            &&& r.len() == a.len()
            &&& r[u * g.parts + c] == crate::ops::fourier::plane_component(
                g,
                at_place(a, g.parts),
                g.parts,
                u,
                c,
            )
        }),
{
    let n = g.parts;
    let steps = crate::ops::fft::transform(nb);
    let first = crate::ops::fft::on_lines(steps, n as int, 1, n);
    let second = crate::ops::fft::on_lines(steps, 1, n as int, n);
    let rows = crate::ops::fourier::carried_out(g, a, first);
    lemma_size(n);
    crate::ops::fft::transform_stays_inside(nb);
    lemma_rows(g, a, nb, u, c);
    crate::ops::fourier::lemma_then(g, a, first, second);
    lemma_lines(g, rows, steps, n, 1, n as int, n);
    let column = line_of(rows, c * 1, n as int, n);
    crate::ops::fourier::steps_compute_the_transform(g, column, nb, u);
    assert(c * 1 == c);
    let r = crate::ops::fourier::carried_out(g, rows, second);
    assert(r[c * 1 + u * n as int] == crate::ops::fourier::carried_out(g, column, steps)[u]);
    let x = at_place(a, n);
    let f = |m: int| (g.turn)(column[m], m * u);
    let h = |m: int| (g.turn)(crate::ops::fourier::row_component(g, x, n, m, c), m * u);
    assert forall|m: int| 0 <= m < n implies #[trigger] f(m) == h(m) by {
        lemma_rows(g, a, nb, m, c);
    }
    crate::ops::fourier::lemma_sum_same(g, f, h, n);
}

/// A component of sums is the sum of the components.
proof fn lemma_component_plus<V>(g: Circle<V>, x: Seq<V>, y: Seq<V>, z: Seq<V>, k: int)
    requires
        crate::ops::fourier::is_circle(g),
        x.len() == z.len(),
        y.len() == z.len(),
        forall|i: int| 0 <= i < z.len() ==> #[trigger] z[i] == (g.plus)(x[i], y[i]),
    ensures
        crate::ops::fourier::component(g, z, k) == (g.plus)(
            crate::ops::fourier::component(g, x, k),
            crate::ops::fourier::component(g, y, k),
        ),
{
    let f = |m: int| (g.turn)(x[m], m * k);
    let h = |m: int| (g.turn)(y[m], m * k);
    let both = |m: int| (g.turn)(z[m], m * k);
    assert forall|m: int| 0 <= m < z.len() implies #[trigger] both(m) == (g.plus)(f(m), h(m)) by {
        crate::ops::fourier::law_turn_sum(g, x[m], y[m], m * k);
    }
    crate::ops::fourier::lemma_sum_plus(g, f, h, both, z.len());
}

/// A component of multiples is the multiple of the component.
proof fn lemma_component_times<V>(g: Circle<V>, x: Seq<V>, z: Seq<V>, k: int, n: nat)
    requires
        crate::ops::fourier::is_circle(g),
        x.len() == z.len(),
        forall|i: int|
            0 <= i < z.len() ==> #[trigger] z[i] == crate::ops::fourier::times(g, x[i], n),
    ensures
        crate::ops::fourier::component(g, z, k) == crate::ops::fourier::times(
            g,
            crate::ops::fourier::component(g, x, k),
            n,
        ),
    decreases n,
{
    if n == 0 {
        let f = |m: int| (g.turn)(z[m], m * k);
        assert forall|m: int| 0 <= m < z.len() implies #[trigger] f(m) == g.zero by {
            crate::ops::fourier::law_turn_zero(g, m * k);
        }
        crate::ops::fourier::lemma_sum_zero(g, f, z.len());
    } else {
        let fewer = Seq::new(
            z.len(),
            |i: int| crate::ops::fourier::times(g, x[i], (n - 1) as nat),
        );
        lemma_component_times(g, x, fewer, k, (n - 1) as nat);
        lemma_component_plus(g, fewer, x, z, k);
    }
}

/// The transform of a plane back gives its elements back, each as many times as
/// the plane has rows, and that as many times as it has columns: that is what the
/// scale of an inverse takes out.
pub proof fn the_inverse_gives_the_plane_back<V>(g: Circle<V>, a: Seq<V>, nb: nat, r: int, c: int)
    requires
        crate::ops::fourier::is_circle(g),
        g.parts == crate::math::pow(2, nb),
        a.len() == g.parts * g.parts,
        a.len() <= usize::MAX,
        0 <= r < g.parts,
        0 <= c < g.parts,
    ensures
        ({
            let spectrum = crate::ops::fourier::carried_out(
                g,
                a,
                crate::ops::fft::plane_transform(nb),
            );
            let back = crate::ops::fourier::carried_out(
                crate::ops::fourier::backwards(g),
                spectrum,
                crate::ops::fft::plane_inverse(nb),
            );
            back[r * g.parts + c] == crate::ops::fourier::times(
                g,
                crate::ops::fourier::times(g, a[r * g.parts + c], g.parts),
                g.parts,
            )
        }),
{
    let n = g.parts;
    let h = crate::ops::fourier::backwards(g);
    let steps = crate::ops::fft::transform(nb);
    let by_rows = crate::ops::fft::on_lines(steps, n as int, 1, n);
    let by_columns = crate::ops::fft::on_lines(steps, 1, n as int, n);
    let rows = crate::ops::fourier::carried_out(g, a, by_rows);
    let spectrum = crate::ops::fourier::carried_out(g, rows, by_columns);
    let half = crate::ops::fourier::carried_out(h, spectrum, by_columns);
    let back = crate::ops::fourier::carried_out(h, half, by_rows);
    crate::ops::fourier::backwards_is_a_circle(g);
    crate::ops::fourier::lemma_then(g, a, by_rows, by_columns);
    crate::ops::fourier::lemma_then(h, spectrum, by_columns, by_rows);
    lemma_size(n);
    crate::ops::fft::transform_stays_inside(nb);
    lemma_lines(g, a, steps, n, n as int, 1, n);
    lemma_lines(g, rows, steps, n, 1, n as int, n);
    lemma_lines(h, spectrum, steps, n, 1, n as int, n);
    lemma_lines(h, half, steps, n, n as int, 1, n);
    // The columns come back to the transformed rows.
    let own = crate::ops::fourier::carried_out(g, line_of(a, r * n, 1, n), steps);
    let row = line_of(half, r * n, 1, n);
    assert forall|m: int| 0 <= m < n implies #[trigger] row[m] == crate::ops::fourier::times(
        h,
        own[m],
        n,
    ) by {
        assert(m * 1 == m);
        let column = line_of(rows, m * 1, n as int, n);
        let there = line_of(spectrum, m * 1, n as int, n);
        crate::ops::fourier::steps_compute_the_transform(g, column, nb, 0);
        let moved = crate::ops::fourier::carried_out(g, column, steps);
        assert(there =~= moved) by {
            assert forall|i: int| 0 <= i < n implies there[i] == moved[i] by {
                assert(spectrum[m * 1 + i * n as int] == moved[i]);
            }
        }
        crate::ops::fourier::the_inverse_gives_the_elements_back(g, column, nb, r);
        assert(half[m * 1 + r * n as int] == crate::ops::fourier::carried_out(
            h,
            there,
            steps,
        )[r]);
        assert(rows[r * n as int + m * 1] == own[m]);
        let v = own[m];
        let each = |i: int| v;
        crate::ops::fourier::lemma_sums_agree(g, h, each, each, n);
    }
    // The rows come back to the plane.
    crate::ops::fourier::steps_compute_the_transform(g, line_of(a, r * n, 1, n), nb, 0);
    crate::ops::fourier::steps_compute_the_transform(h, row, nb, c);
    crate::ops::fourier::steps_compute_the_transform(h, own, nb, c);
    lemma_component_times(h, own, row, c, n);
    crate::ops::fourier::the_inverse_gives_the_elements_back(g, line_of(a, r * n, 1, n), nb, c);
    assert(c * 1 == c);
    assert(back[r * n as int + c * 1] == crate::ops::fourier::carried_out(h, row, steps)[c]);
    let v = crate::ops::fourier::times(g, a[r * n + c], n);
    let each = |i: int| v;
    crate::ops::fourier::lemma_sums_agree(g, h, each, each, n);
}

/// The half of a spectrum that is stored: of every row the first columns.
pub open spec fn stored_half<V>(spectrum: Seq<V>, n: nat) -> Seq<V> {
    let width = crate::ops::layout::half_width(n);
    Seq::new(n * width, |i: int| spectrum[(i / width as int) * n + i % width as int])
}

/// The full spectrum that is rebuilt from a stored half: every element is what the
/// place that it is taken from holds, conjugated where it is mirrored.
pub open spec fn rebuilt<V>(conj: spec_fn(V) -> V, half: Seq<V>, n: nat) -> Seq<V> {
    Seq::new(
        n * n,
        |i: int|
            {
                let (su, sc, mirrored) = crate::ops::layout::source_of(
                    n,
                    (i / n as int) as nat,
                    (i % n as int) as nat,
                );
                let held = half[(su * crate::ops::layout::half_width(n) + sc) as int];
                if mirrored {
                    conj(held)
                } else {
                    held
                }
            },
    )
}

/// A row and a column of a place, and the place of them.
proof fn lemma_row_column(rows: nat, width: nat, r: int, c: int)
    requires
        0 <= r < rows,
        0 <= c < width,
    ensures
        (r * width + c) / width as int == r,
        (r * width + c) % width as int == c,
        0 <= r * width + c < rows * width,
{
    vstd::arithmetic::div_mod::lemma_fundamental_div_mod_converse(
        r * width + c,
        width as int,
        r,
        c,
    );
    assert(0 <= r * width + c < rows * width) by (nonlinear_arith)
        requires
            0 <= r < rows,
            0 <= c < width,
    ;
}

/// A place of a square table has a row and a column.
proof fn lemma_place_of(n: nat, i: int)
    requires
        0 <= i < n * n,
    ensures
        0 <= i / n as int,
        i / (n as int) < n,
        0 <= i % (n as int) < n,
        (i / n as int) * n + i % (n as int) == i,
{
    let m = n as int;
    assert(m > 0) by (nonlinear_arith)
        requires
            0 <= i < m * m,
            m >= 0,
    ;
    vstd::arithmetic::div_mod::lemma_fundamental_div_mod(i, m);
    vstd::arithmetic::mul::lemma_mul_is_commutative(m, i / m);
    let q = i / m;
    let rest = i % m;
    assert(0 <= q < m) by (nonlinear_arith)
        requires
            0 <= i < m * m,
            i == q * m + rest,
            0 <= rest < m,
    ;
}

/// The half of the spectrum of a real plane gives the whole of it.
proof fn lemma_rebuilt<V>(g: Circle<V>, conj: spec_fn(V) -> V, a: Seq<V>, nb: nat)
    requires
        crate::ops::fourier::is_circle(g),
        crate::ops::fourier::is_conjugation(g, conj),
        g.parts == crate::math::pow(2, nb),
        a.len() == g.parts * g.parts,
        a.len() <= usize::MAX,
        forall|i: int| 0 <= i < a.len() ==> conj(#[trigger] a[i]) == a[i],
    ensures
        ({
            let spectrum = crate::ops::fourier::carried_out(
                g,
                a,
                crate::ops::fft::plane_transform(nb),
            );
            rebuilt(conj, stored_half(spectrum, g.parts), g.parts) == spectrum
        }),
{
    let n = g.parts;
    let width = crate::ops::layout::half_width(n);
    let x = at_place(a, n);
    let spectrum = crate::ops::fourier::carried_out(g, a, crate::ops::fft::plane_transform(nb));
    let half = stored_half(spectrum, n);
    let all = rebuilt(conj, half, n);
    crate::math::lemma_pow_positive(2, nb);
    plane_steps_compute_the_transform(g, a, nb, 0, 0);
    assert forall|r: int, m: int| 0 <= r < n && 0 <= m < n implies conj(#[trigger] x(r, m)) == x(
        r,
        m,
    ) by {
        lemma_row_column(n, n, r, m);
    }
    assert forall|i: int| 0 <= i < n * n implies all[i] == spectrum[i] by {
        lemma_place_of(n, i);
        let u = (i / n as int) as nat;
        let c = (i % n as int) as nat;
        let (su, sc, mirrored) = crate::ops::layout::source_of(n, u, c);
        if mirrored {
            vstd::arithmetic::div_mod::lemma_mod_bound((n - u) as int, n as int);
        }
        lemma_row_column(n, width, su as int, sc as int);
        plane_steps_compute_the_transform(g, a, nb, u as int, c as int);
        plane_steps_compute_the_transform(g, a, nb, su as int, sc as int);
        crate::ops::fourier::half_spectra_are_enough(g, conj, x, n, u, c);
        assert(half[(su * width + sc) as int] == spectrum[(su * n + sc) as int]);
    }
    assert(all =~= spectrum);
}

/// The transform back inverts the transform of a real plane, though only half of
/// the spectrum is stored: the full one is rebuilt from the half, and the transform
/// back of that gives every element back, as many times as the plane has rows, and
/// that as many times as it has columns.
pub proof fn the_stored_half_gives_the_plane_back<V>(
    g: Circle<V>,
    conj: spec_fn(V) -> V,
    a: Seq<V>,
    nb: nat,
    r: int,
    c: int,
)
    requires
        crate::ops::fourier::is_circle(g),
        crate::ops::fourier::is_conjugation(g, conj),
        g.parts == crate::math::pow(2, nb),
        a.len() == g.parts * g.parts,
        a.len() <= usize::MAX,
        forall|i: int| 0 <= i < a.len() ==> conj(#[trigger] a[i]) == a[i],
        0 <= r < g.parts,
        0 <= c < g.parts,
    ensures
        ({
            let spectrum = crate::ops::fourier::carried_out(
                g,
                a,
                crate::ops::fft::plane_transform(nb),
            );
            let back = crate::ops::fourier::carried_out(
                crate::ops::fourier::backwards(g),
                rebuilt(conj, stored_half(spectrum, g.parts), g.parts),
                crate::ops::fft::plane_inverse(nb),
            );
            back[r * g.parts + c] == crate::ops::fourier::times(
                g,
                crate::ops::fourier::times(g, a[r * g.parts + c], g.parts),
                g.parts,
            )
        }),
{
    lemma_rebuilt(g, conj, a, nb);
    the_inverse_gives_the_plane_back(g, a, nb, r, c);
}

/// The planes of a buffer, one behind the other.
pub open spec fn plane_of<V>(x: Seq<V>, n: nat, b: nat) -> Seq<V> {
    x.subrange((b * (n * n)) as int, ((b + 1) * (n * n)) as int)
}

/// What the transforms of the first planes of a buffer leave: the stored half of each
/// spectrum, one behind the other.
pub open spec fn stored_spectra<V>(g: Circle<V>, x: Seq<V>, nb: nat, batch: nat) -> Seq<V>
    decreases batch,
{
    if batch == 0 {
        Seq::empty()
    } else {
        let b = (batch - 1) as nat;
        stored_spectra(g, x, nb, b) + stored_half(
            crate::ops::fourier::carried_out(
                g,
                plane_of(x, g.parts, b),
                crate::ops::fft::plane_transform(nb),
            ),
            g.parts,
        )
    }
}

proof fn lemma_spectra<V>(g: Circle<V>, x: Seq<V>, nb: nat, batch: nat, b: nat, k: int)
    requires
        b < batch,
        0 <= k < g.parts * crate::ops::layout::half_width(g.parts),
    ensures
        ({
            let size = g.parts * crate::ops::layout::half_width(g.parts);
            &&& stored_spectra(g, x, nb, batch).len() == batch * size
            &&& 0 <= b * size + k < batch * size
            &&& stored_spectra(g, x, nb, batch)[b * size + k] == stored_half(
                crate::ops::fourier::carried_out(
                    g,
                    plane_of(x, g.parts, b),
                    crate::ops::fft::plane_transform(nb),
                ),
                g.parts,
            )[k]
        }),
    decreases batch,
{
    let size = g.parts * crate::ops::layout::half_width(g.parts);
    let last = (batch - 1) as nat;
    if last > 0 {
        lemma_spectra(g, x, nb, last, if b < last { b } else { 0 }, k);
    } else {
        assert(stored_spectra(g, x, nb, 0).len() == 0);
        assert(0 * size == 0);
    }
    assert(batch * size == last * size + size) by (nonlinear_arith)
        requires
            batch == last + 1,
    ;
    assert(0 <= b * size + k < batch * size) by (nonlinear_arith)
        requires
            0 <= b < batch,
            0 <= k < size,
    ;
    let front = stored_spectra(g, x, nb, last);
    assert(front.len() == last * size);
    if b == last {
        assert(stored_spectra(g, x, nb, batch)[b * size + k] == stored_half(
            crate::ops::fourier::carried_out(
                g,
                plane_of(x, g.parts, b),
                crate::ops::fft::plane_transform(nb),
            ),
            g.parts,
        )[k]);
    }
}

/// The transforms of a buffer of planes: what stands at the place of a row and a column
/// of a half spectrum in the end is that component of the plane of the same number, whose
/// elements stand at their own places in the buffer.
pub proof fn spectra_stand_at_their_places<V>(
    g: Circle<V>,
    x: Seq<V>,
    nb: nat,
    batch: nat,
    b: nat,
    u: nat,
    c: nat,
)
    requires
        crate::ops::fourier::is_circle(g),
        g.parts == crate::math::pow(2, nb),
        x.len() == crate::ops::layout::plane_len(batch, g.parts),
        x.len() <= usize::MAX,
        b < batch,
        u < g.parts,
        2 * c <= g.parts,
    ensures
        ({
            let n = g.parts;
            let place = crate::ops::layout::spectrum_place(n, b, u, c);
            let all = stored_spectra(g, x, nb, batch);
            &&& place % 2 == 0
            &&& 2 * all.len() == crate::ops::layout::spectrum_len(batch, n)
            &&& place / 2 < all.len()
            &&& all[(place / 2) as int] == crate::ops::fourier::plane_component(
                g,
                |r: int, m: int| x[crate::ops::layout::plane_place(n, b, r as nat, m as nat) as int],
                n,
                u as int,
                c as int,
            )
        }),
{
    let n = g.parts;
    let w = crate::ops::layout::half_width(n);
    let k = (u * w + c) as int;
    crate::math::lemma_pow_positive(2, nb);
    lemma_row_column(n, w, u as int, c as int);
    lemma_spectra(g, x, nb, batch, b, k);
    assert((b * n + u) * w == b * (n * w) + u * w) by (nonlinear_arith);
    assert(batch * n * w == batch * (n * w)) by (nonlinear_arith);
    assert(batch * n * n == batch * (n * n)) by (nonlinear_arith);
    lemma_plane_inside(n, batch, b);
    let size = n * n;
    let plane = plane_of(x, n, b);
    plane_steps_compute_the_transform(g, plane, nb, u as int, c as int);
    let own = at_place(plane, n);
    let there = |r: int, m: int|
        x[crate::ops::layout::plane_place(n, b, r as nat, m as nat) as int];
    let f = |r: int| (g.turn)(crate::ops::fourier::row_component(g, own, n, r, c as int), r * u);
    let h = |r: int| (g.turn)(crate::ops::fourier::row_component(g, there, n, r, c as int), r * u);
    assert forall|r: int| 0 <= r < n implies #[trigger] f(r) == h(r) by {
        let f1 = |m: int| (g.turn)(own(r, m), m * c);
        let h1 = |m: int| (g.turn)(there(r, m), m * c);
        assert forall|m: int| 0 <= m < n implies #[trigger] f1(m) == h1(m) by {
            lemma_row_column(n, n, r, m);
            assert((b * n + r) * n == b * (n * n) + r * n) by (nonlinear_arith);
            assert(own(r, m) == x[b * size + (r * n + m)]);
        }
        crate::ops::fourier::lemma_sum_same(g, f1, h1, n);
    }
    crate::ops::fourier::lemma_sum_same(g, f, h, n);
}

/// A plane of a buffer lies inside it.
proof fn lemma_plane_inside(n: nat, batch: nat, b: nat)
    requires
        b < batch,
    ensures
        batch * n * n == batch * (n * n),
        (b + 1) * (n * n) == b * (n * n) + n * n,
        0 <= b * (n * n),
        (b + 1) * (n * n) <= batch * (n * n),
        n * n <= batch * (n * n),
{
    let size = n * n;
    assert(batch * n * n == batch * (n * n)) by (nonlinear_arith);
    assert((b + 1) * size == b * size + size) by (nonlinear_arith);
    assert(0 <= b * size) by (nonlinear_arith)
        requires
            b >= 0,
            size >= 0,
    ;
    assert((b + 1) * size <= batch * size) by (nonlinear_arith)
        requires
            b < batch,
    ;
}

/// The transforms back of a buffer of half spectra: those of real planes give every
/// element back at its own place, as many times as a plane has rows, and that as many
/// times as it has columns.
pub proof fn planes_come_back_at_their_places<V>(
    g: Circle<V>,
    conj: spec_fn(V) -> V,
    x: Seq<V>,
    nb: nat,
    batch: nat,
    b: nat,
    r: nat,
    c: nat,
)
    requires
        crate::ops::fourier::is_circle(g),
        crate::ops::fourier::is_conjugation(g, conj),
        g.parts == crate::math::pow(2, nb),
        x.len() == crate::ops::layout::plane_len(batch, g.parts),
        x.len() <= usize::MAX,
        forall|i: int| 0 <= i < x.len() ==> conj(#[trigger] x[i]) == x[i],
        b < batch,
        r < g.parts,
        c < g.parts,
    ensures
        ({
            let n = g.parts;
            let size = n * crate::ops::layout::half_width(n);
            let half = stored_spectra(g, x, nb, batch).subrange(
                (b * size) as int,
                ((b + 1) * size) as int,
            );
            let back = crate::ops::fourier::carried_out(
                crate::ops::fourier::backwards(g),
                rebuilt(conj, half, n),
                crate::ops::fft::plane_inverse(nb),
            );
            back[(r * n + c) as int] == crate::ops::fourier::times(
                g,
                crate::ops::fourier::times(
                    g,
                    x[crate::ops::layout::plane_place(n, b, r, c) as int],
                    n,
                ),
                n,
            )
        }),
{
    let n = g.parts;
    let w = crate::ops::layout::half_width(n);
    let size = n * w;
    crate::math::lemma_pow_positive(2, nb);
    lemma_plane_inside(n, batch, b);
    let plane = plane_of(x, n, b);
    let spectrum = crate::ops::fourier::carried_out(
        g,
        plane,
        crate::ops::fft::plane_transform(nb),
    );
    let all = stored_spectra(g, x, nb, batch);
    let half = all.subrange((b * size) as int, ((b + 1) * size) as int);
    assert((b + 1) * size == b * size + size) by (nonlinear_arith);
    assert(size > 0) by (nonlinear_arith)
        requires
            size == n * w,
            n > 0,
            w > 0,
    ;
    lemma_spectra(g, x, nb, batch, b, 0);
    assert((b + 1) * size <= batch * size) by (nonlinear_arith)
        requires
            b < batch,
    ;
    assert(half =~= stored_half(spectrum, n)) by {
        assert forall|k: int| 0 <= k < size implies #[trigger] half[k] == stored_half(
            spectrum,
            n,
        )[k] by {
            lemma_spectra(g, x, nb, batch, b, k);
        }
    }
    assert forall|i: int| 0 <= i < plane.len() implies conj(#[trigger] plane[i]) == plane[i] by {
        assert(plane[i] == x[b * (n * n) + i]);
    }
    the_stored_half_gives_the_plane_back(g, conj, plane, nb, r as int, c as int);
    lemma_row_column(n, n, r as int, c as int);
    assert((b * n + r) * n == b * (n * n) + r * n) by (nonlinear_arith);
    assert(plane[(r * n + c) as int] == x[(b * (n * n) + (r * n + c)) as int]);
}

} // verus!
