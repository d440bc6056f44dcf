//! Where the elements of planes, half spectra and heads stand in their buffers.
use vstd::prelude::*;

verus! {

/// Is this the size of a transform: a power of two, at most the largest there
/// is?
pub open spec fn is_size(n: nat, nb: nat) -> bool {
    n == crate::math::pow(2, nb) && n <= crate::ops::fft::MAX_SIZE
}

proof fn lemma_powers()
    ensures
        crate::math::pow(2, 0) == 1,
        crate::math::pow(2, 1) == 2,
        crate::math::pow(2, 2) == 4,
        crate::math::pow(2, 3) == 8,
        crate::math::pow(2, 4) == 16,
        crate::math::pow(2, 5) == 32,
        crate::math::pow(2, 6) == 64,
        crate::math::pow(2, 7) == 128,
{
    reveal_with_fuel(crate::math::pow, 8);
}

/// The number of bits of a transform's size, none where `n` is no such size.
pub fn size_bits(n: usize) -> (r: Option<usize>)
    ensures
        match r {
            Some(nb) => nb <= 6 && is_size(n as nat, nb as nat),
            None => forall|nb: nat| !#[trigger] is_size(n as nat, nb),
        },
{
    proof {
        lemma_powers();
        assert forall|nb: nat| #[trigger] is_size(n as nat, nb) implies n == 1 || n == 2 || n == 4
            || n == 8 || n == 16 || n == 32 || n == 64 by {
            if nb >= 7 {
                crate::math::lemma_pow_monotone(2, 7, nb);
            }
        }
    }
    if n == 1 {
        Some(0)
    } else if n == 2 {
        Some(1)
    } else if n == 4 {
        Some(2)
    } else if n == 8 {
        Some(3)
    } else if n == 16 {
        Some(4)
    } else if n == 32 {
        Some(5)
    } else if n == 64 {
        Some(6)
    } else {
        None
    }
}

/// The columns of a half spectrum.
pub open spec fn half_width(n: nat) -> nat {
    n / 2 + 1
}

/// The elements of `batch` planes.
pub open spec fn plane_len(batch: nat, n: nat) -> nat {
    batch * n * n
}

/// The elements of `batch` half spectra, a real and an imaginary part each.
pub open spec fn spectrum_len(batch: nat, n: nat) -> nat {
    batch * n * half_width(n) * 2
}

/// Do buffers of these lengths hold `batch` planes of size `n` and their half
/// spectra?
pub fn buffers_fit(planes: usize, spectra: usize, batch: usize, n: usize) -> (r: bool)
    requires
        n <= crate::ops::fft::MAX_SIZE,
    ensures
        r == (planes == plane_len(batch as nat, n as nat) && spectra == spectrum_len(
            batch as nat,
            n as nat,
        )),
{
    let b: u128 = batch as u128;
    let m: u128 = n as u128;
    let h: u128 = (n / 2 + 1) as u128;
    assert(b * m <= 0xffff_ffff_ffff_ffffu128 * 64) by (nonlinear_arith)
        requires
            b <= 0xffff_ffff_ffff_ffffu128,
            m <= 64,
    ;
    let rows: u128 = b * m;
    assert(rows * m <= 0xffff_ffff_ffff_ffffu128 * 4096) by (nonlinear_arith)
        requires
            rows <= 0xffff_ffff_ffff_ffffu128 * 64,
            m <= 64,
    ;
    assert(rows * h <= 0xffff_ffff_ffff_ffffu128 * 4096) by (nonlinear_arith)
        requires
            rows <= 0xffff_ffff_ffff_ffffu128 * 64,
            h <= 64,
    ;
    planes as u128 == rows * m && spectra as u128 == rows * h * 2
}

/// Where an element of a plane stands.
pub open spec fn plane_place(n: nat, b: nat, r: nat, c: nat) -> nat {
    (b * n + r) * n + c
}

/// Where the real part of an element of a half spectrum stands; the imaginary
/// part is next to it.
pub open spec fn spectrum_place(n: nat, b: nat, u: nat, c: nat) -> nat {
    ((b * n + u) * half_width(n) + c) * 2
}

/// A row and a column of one of `count` tables with `rows` rows and `cols`
/// columns.
proof fn lemma_place(count: nat, rows: nat, cols: nat, b: nat, r: nat, c: nat)
    requires
        b < count,
        r < rows,
        c < cols,
    ensures
        b * rows + r < count * rows,
        (b * rows + r) * cols + c < count * rows * cols,
{
    assert(b * rows + r < count * rows) by (nonlinear_arith)
        requires
            b < count,
            r < rows,
    ;
    let line = b * rows + r;
    let lines = count * rows;
    assert(line * cols + c < lines * cols) by (nonlinear_arith)
        requires
            line < lines,
            c < cols,
    ;
}

/// The place of an element of a plane.
pub fn plane_index(batch: usize, n: usize, b: usize, r: usize, c: usize) -> (i: usize)
    requires
        b < batch,
        r < n,
        c < n,
        plane_len(batch as nat, n as nat) <= usize::MAX,
    ensures
        i == plane_place(n as nat, b as nat, r as nat, c as nat),
        i < plane_len(batch as nat, n as nat),
{
    proof {
        lemma_place(batch as nat, n as nat, n as nat, b as nat, r as nat, c as nat);
        let lines = batch as nat * n as nat;
        assert(lines <= lines * n) by (nonlinear_arith)
            requires
                n >= 1,
        ;
        let line = (b * n + r) as nat;
        assert(b * n >= 0 && line * n >= 0) by (nonlinear_arith)
            requires
                b >= 0,
                n >= 0,
                line >= 0,
        ;
    }
    (b * n + r) * n + c
}

/// The place of the real part of an element of a half spectrum.
pub fn spectrum_index(batch: usize, n: usize, b: usize, u: usize, c: usize) -> (i: usize)
    requires
        b < batch,
        u < n,
        c < half_width(n as nat),
        spectrum_len(batch as nat, n as nat) <= usize::MAX,
    ensures
        i == spectrum_place(n as nat, b as nat, u as nat, c as nat),
        i + 1 < spectrum_len(batch as nat, n as nat),
{
    let width: usize = n / 2 + 1;
    proof {
        lemma_place(batch as nat, n as nat, width as nat, b as nat, u as nat, c as nat);
        let lines = batch as nat * n as nat;
        assert(lines <= lines * width) by (nonlinear_arith)
            requires
                width >= 1,
        ;
        let line = (b * n + u) as nat;
        assert(b * n >= 0 && line * width >= 0) by (nonlinear_arith)
            requires
                b >= 0,
                n >= 0,
                line >= 0,
                width >= 0,
        ;
    }
    ((b * n + u) * width + c) * 2
}

/// Where an element of the full spectrum is taken from in the half that is
/// stored, and whether its conjugate is taken: those of the right half mirror
/// those of the left.
pub open spec fn source_of(n: nat, u: nat, c: nat) -> (nat, nat, bool) {
    if c <= n / 2 {
        (u, c, false)
    } else {
        (((n - u) as nat) % n, (n - c) as nat, true)
    }
}

/// Where an element of the full spectrum is taken from in the half that is
/// stored, and whether its conjugate is taken.
pub fn spectrum_source(n: usize, u: usize, c: usize) -> (r: (usize, usize, bool))
    requires
        u < n,
        c < n,
    ensures
        (r.0 as nat, r.1 as nat, r.2) == source_of(n as nat, u as nat, c as nat),
        r.0 < n,
        r.1 < half_width(n as nat),
{
    if c <= n / 2 {
        (u, c, false)
    } else {
        ((n - u) % n, n - c, true)
    }
}

/// The full spectrum that is rebuilt is that of a real plane: the element
/// opposite to one outside the first and the middle column is its conjugate.
pub proof fn rebuilt_spectrum_is_symmetric(n: nat, u: nat, c: nat)
    requires
        n % 2 == 0,
        u < n,
        0 < c < n,
        c != n / 2,
    ensures
        ({
            let here = source_of(n, u, c);
            let there = source_of(n, ((n - u) as nat) % n, (n - c) as nat);
            here.0 == there.0 && here.1 == there.1 && here.2 != there.2
        }),
{
    if u == 0 {
        assert(n % n == 0) by (nonlinear_arith)
            requires
                n > 0,
        ;
    } else {
        vstd::arithmetic::div_mod::lemma_small_mod((n - u) as nat, n);
        vstd::arithmetic::div_mod::lemma_small_mod(u, n);
    }
}

/// What is stored is taken as it is: rebuilding keeps the half spectrum.
pub proof fn stored_half_is_kept(n: nat, u: nat, c: nat)
    requires
        u < n,
        c < half_width(n),
    ensures
        source_of(n, u, c) == (u, c, false),
{
}

/// The two elements of a head that are rotated together stand half a head apart.
pub open spec fn pair_place(hd: nat, nh: nat, t: nat, h: nat, i: nat) -> (nat, nat) {
    let base = (t * nh + h) * hd;
    (base + i, base + i + hd / 2)
}

/// The places of a pair that is rotated together.
pub fn rope_pair(
    hd: usize,
    nh: usize,
    ntok: usize,
    t: usize,
    h: usize,
    i: usize,
) -> (r: (usize, usize))
    requires
        t < ntok,
        h < nh,
        i < hd / 2,
        ntok * nh * hd <= usize::MAX,
    ensures
        (r.0 as nat, r.1 as nat) == pair_place(
            hd as nat,
            nh as nat,
            t as nat,
            h as nat,
            i as nat,
        ),
        r.0 < r.1 < ntok * nh * hd,
{
    proof {
        lemma_place(ntok as nat, nh as nat, hd as nat, t as nat, h as nat, (i + hd / 2) as nat);
        let lines = ntok as nat * nh as nat;
        assert(lines <= lines * hd) by (nonlinear_arith)
            requires
                hd >= 1,
        ;
        let line = (t * nh + h) as nat;
        assert(t * nh >= 0 && line * hd >= 0) by (nonlinear_arith)
            requires
                t >= 0,
                nh >= 0,
                line >= 0,
                hd >= 0,
        ;
    }
    let base: usize = (t * nh + h) * hd;
    (base + i, base + i + hd / 2)
}

/// Every element of heads of even length is in one pair: the place gives back the
/// token, the head and the pair.
pub proof fn pairs_cover_the_heads(hd: nat, nh: nat, ntok: nat, place: nat)
    requires
        hd > 0,
        hd % 2 == 0,
        place < ntok * nh * hd,
    ensures
        ({
            let line = place / hd;
            let t = line / nh;
            let h = line % nh;
            let k = place % hd;
            let i = k % (hd / 2);
            &&& t < ntok
            &&& h < nh
            &&& i < hd / 2
            &&& place == pair_place(hd, nh, t, h, i).0 || place == pair_place(hd, nh, t, h, i).1
        }),
{
    let line = place / hd;
    let k = place % hd;
    vstd::arithmetic::div_mod::lemma_fundamental_div_mod(place as int, hd as int);
    let lines = ntok * nh;
    assert(line < lines) by (nonlinear_arith)
        requires
            place < lines * hd,
            place == hd * line + k,
            k >= 0,
    ;
    assert(nh > 0) by (nonlinear_arith)
        requires
            ntok * nh > 0,
    ;
    let t = line / nh;
    let h = line % nh;
    vstd::arithmetic::div_mod::lemma_fundamental_div_mod(line as int, nh as int);
    assert(t < ntok) by (nonlinear_arith)
        requires
            line < ntok * nh,
            line == nh * t + h,
            h >= 0,
    ;
    assert(t * nh == nh * t && line * hd == hd * line) by (nonlinear_arith);
    let half = hd / 2;
    if k < half {
        vstd::arithmetic::div_mod::lemma_small_mod(k, half);
    } else {
        vstd::arithmetic::div_mod::lemma_fundamental_div_mod_converse(
            k as int,
            half as int,
            1,
            k - half,
        );
    }
}

/// No element is in two pairs.
pub proof fn pairs_are_disjoint(
    hd: nat,
    nh: nat,
    t: nat,
    h: nat,
    i: nat,
    t2: nat,
    h2: nat,
    i2: nat,
)
    requires
        h < nh,
        i < hd / 2,
        h2 < nh,
        i2 < hd / 2,
        ({
            let a = pair_place(hd, nh, t, h, i);
            let b = pair_place(hd, nh, t2, h2, i2);
            a.0 == b.0 || a.0 == b.1 || a.1 == b.0 || a.1 == b.1
        }),
    ensures
        t == t2,
        h == h2,
        i == i2,
{
    let a = pair_place(hd, nh, t, h, i);
    let b = pair_place(hd, nh, t2, h2, i2);
    let x = if a.0 == b.0 || a.0 == b.1 { a.0 } else { a.1 };
    let ka = x - (t * nh + h) * hd;
    let kb = x - (t2 * nh + h2) * hd;
    vstd::arithmetic::div_mod::lemma_fundamental_div_mod_converse(
        x as int,
        hd as int,
        (t * nh + h) as int,
        ka,
    );
    vstd::arithmetic::div_mod::lemma_fundamental_div_mod_converse(
        x as int,
        hd as int,
        (t2 * nh + h2) as int,
        kb,
    );
    vstd::arithmetic::div_mod::lemma_fundamental_div_mod_converse(
        (t * nh + h) as int,
        nh as int,
        t as int,
        h as int,
    );
    vstd::arithmetic::div_mod::lemma_fundamental_div_mod_converse(
        (t2 * nh + h2) as int,
        nh as int,
        t2 as int,
        h2 as int,
    );
}

/// The columns of a half spectrum are the frequencies up to half of the size.
pub proof fn half_spectra_hold_the_lower_frequencies(n: nat, c: nat)
    ensures
        c < half_width(n) <==> 2 * c <= n,
{
}

/// Planes are tables in the order of their rows, one behind the other: the first
/// element stands at the start, the next column next to this one, the first element of
/// a row behind the last of the row before, and the first of a plane behind the last of
/// the plane before. The length is where the next plane would start.
pub proof fn planes_are_row_major(n: nat, b: nat, r: nat, c: nat)
    requires
        n > 0,
    ensures
        plane_place(n, 0, 0, 0) == 0,
        plane_place(n, b, r, c + 1) == plane_place(n, b, r, c) + 1,
        plane_place(n, b, r + 1, 0) == plane_place(n, b, r, (n - 1) as nat) + 1,
        plane_place(n, b + 1, 0, 0) == plane_place(n, b, (n - 1) as nat, (n - 1) as nat) + 1,
        plane_len(b, n) == plane_place(n, b, 0, 0),
{
    assert(0 * n == 0);
    assert((b * n + (r + 1)) * n == (b * n + r) * n + n) by (nonlinear_arith);
    assert(((b + 1) * n + 0) * n == (b * n + (n - 1)) * n + n) by (nonlinear_arith);
    assert((b * n + 0) * n == b * n * n) by (nonlinear_arith);
}

/// No two elements of planes share a place.
pub proof fn plane_places_differ(n: nat, b: nat, r: nat, c: nat, b2: nat, r2: nat, c2: nat)
    requires
        r < n,
        c < n,
        r2 < n,
        c2 < n,
        plane_place(n, b, r, c) == plane_place(n, b2, r2, c2),
    ensures
        b == b2,
        r == r2,
        c == c2,
{
    lemma_table(n, n, b, r, c);
    lemma_table(n, n, b2, r2, c2);
}

/// Every place below the length is that of an element.
pub proof fn plane_places_fill_the_buffer(batch: nat, n: nat, place: nat) -> (at: (nat, nat, nat))
    requires
        place < plane_len(batch, n),
    ensures
        at.0 < batch,
        at.1 < n,
        at.2 < n,
        plane_place(n, at.0, at.1, at.2) == place,
{
    lemma_table_fills(batch, n, n, place)
}

/// Half spectra are tables of pairs in the order of their rows, one behind the other:
/// the first element stands at the start, the next column two places further, the first
/// element of a row behind the last of the row before, and the first of a spectrum
/// behind the last of the spectrum before. The length is where the next one would start.
pub proof fn half_spectra_are_row_major(n: nat, b: nat, u: nat, c: nat)
    requires
        n > 0,
    ensures
        spectrum_place(n, 0, 0, 0) == 0,
        spectrum_place(n, b, u, c + 1) == spectrum_place(n, b, u, c) + 2,
        spectrum_place(n, b, u + 1, 0) == spectrum_place(n, b, u, n / 2) + 2,
        spectrum_place(n, b + 1, 0, 0) == spectrum_place(n, b, (n - 1) as nat, n / 2) + 2,
        spectrum_len(b, n) == spectrum_place(n, b, 0, 0),
{
    let w = half_width(n);
    assert(0 * n == 0 && 0 * w == 0);
    assert((b * n + (u + 1)) * w == (b * n + u) * w + w) by (nonlinear_arith);
    assert(((b + 1) * n + 0) * w == (b * n + (n - 1)) * w + w) by (nonlinear_arith);
    assert((b * n + 0) * w == b * n * w) by (nonlinear_arith);
}

/// No two elements of half spectra share a place, and none stands on the imaginary part
/// of another.
pub proof fn spectrum_places_differ(n: nat, b: nat, u: nat, c: nat, b2: nat, u2: nat, c2: nat)
    requires
        u < n,
        2 * c <= n,
        u2 < n,
        2 * c2 <= n,
        spectrum_place(n, b, u, c) == spectrum_place(n, b2, u2, c2) || spectrum_place(n, b, u, c)
            == spectrum_place(n, b2, u2, c2) + 1,
    ensures
        b == b2,
        u == u2,
        c == c2,
        spectrum_place(n, b, u, c) == spectrum_place(n, b2, u2, c2),
{
    let w = half_width(n);
    lemma_table(n, w, b, u, c);
    lemma_table(n, w, b2, u2, c2);
}

/// Every place below the length is that of the real or the imaginary part of an element.
pub proof fn spectrum_places_fill_the_buffer(batch: nat, n: nat, place: nat) -> (at: (
    nat,
    nat,
    nat,
))
    requires
        place < spectrum_len(batch, n),
    ensures
        at.0 < batch,
        at.1 < n,
        2 * at.2 <= n,
        spectrum_place(n, at.0, at.1, at.2) == place - place % 2,
{
    let w = half_width(n);
    let at = lemma_table_fills(batch, n, w, place / 2);
    at
}

/// The row and the column of a place in a table.
proof fn lemma_table(rows: nat, cols: nat, b: nat, r: nat, c: nat)
    requires
        r < rows,
        c < cols,
    ensures
        ({
            let place = (b * rows + r) * cols + c;
            &&& (place / cols) / rows == b
            &&& (place / cols) % rows == r
            &&& place % cols == c
        }),
{
    let line = b * rows + r;
    vstd::arithmetic::div_mod::lemma_fundamental_div_mod_converse(
        (line * cols + c) as int,
        cols as int,
        line as int,
        c as int,
    );
    vstd::arithmetic::div_mod::lemma_fundamental_div_mod_converse(
        line as int,
        rows as int,
        b as int,
        r as int,
    );
}

/// Every place of tables is that of a row and a column of one of them.
proof fn lemma_table_fills(count: nat, rows: nat, cols: nat, place: nat) -> (at: (nat, nat, nat))
    requires
        place < count * rows * cols,
    ensures
        at.0 < count,
        at.1 < rows,
        at.2 < cols,
        (at.0 * rows + at.1) * cols + at.2 == place,
{
    let lines = count * rows;
    assert(cols > 0 && lines > 0) by (nonlinear_arith)
        requires
            0 <= place < lines * cols,
            lines >= 0,
            cols >= 0,
    ;
    assert(rows > 0) by (nonlinear_arith)
        requires
            count * rows > 0,
    ;
    let line = place / cols;
    let c = place % cols;
    vstd::arithmetic::div_mod::lemma_fundamental_div_mod(place as int, cols as int);
    assert(line < lines) by (nonlinear_arith)
        requires
            place < lines * cols,
            place == cols * line + c,
            c >= 0,
    ;
    let b = line / rows;
    let r = line % rows;
    vstd::arithmetic::div_mod::lemma_fundamental_div_mod(line as int, rows as int);
    assert(b < count) by (nonlinear_arith)
        requires
            line < count * rows,
            line == rows * b + r,
            r >= 0,
    ;
    assert(b * rows == rows * b && line * cols == cols * line) by (nonlinear_arith);
    (b, r, c)
}

/// Heads stand one behind the other, token by token: a pair is half a head apart, the
/// next pair of a head is next to this one, the next head a head further, and the next
/// token as far as all heads of one take.
pub proof fn heads_stand_one_behind_the_other(hd: nat, nh: nat, t: nat, h: nat, i: nat)
    ensures
        pair_place(hd, nh, 0, 0, 0).0 == 0,
        pair_place(hd, nh, t, h, i).1 == pair_place(hd, nh, t, h, i).0 + hd / 2,
        pair_place(hd, nh, t, h, i + 1).0 == pair_place(hd, nh, t, h, i).0 + 1,
        pair_place(hd, nh, t, h + 1, i).0 == pair_place(hd, nh, t, h, i).0 + hd,
        pair_place(hd, nh, t + 1, h, i).0 == pair_place(hd, nh, t, h, i).0 + nh * hd,
{
    assert(0 * nh == 0 && 0 * hd == 0);
    assert((t * nh + (h + 1)) * hd == (t * nh + h) * hd + hd) by (nonlinear_arith);
    assert(((t + 1) * nh + h) * hd == (t * nh + h) * hd + nh * hd) by (nonlinear_arith);
}

/// A size is one, or twice a size with one bit less, and none is above 64.
pub proof fn sizes_are_powers_of_two_up_to_64(n: nat, nb: nat)
    ensures
        is_size(n, 0) <==> n == 1,
        is_size(n, nb + 1) <==> n % 2 == 0 && n <= 64 && is_size(n / 2, nb),
        is_size(n, nb) ==> n <= 64,
{
    assert(crate::math::pow(2, nb + 1) == 2 * crate::math::pow(2, nb));
    assert(crate::math::pow(2, 0) == 1);
}

} // verus!
