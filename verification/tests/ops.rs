//! The kernel table and the layout of the transforms.
use lightgpu::gpuinfo::check_resolved;
use lightgpu::ops::fft::{bitrev, plane_steps, transform_steps, Step};
use lightgpu::ops::layout::{
    buffers_fit, plane_index, rope_pair, size_bits, spectrum_index, spectrum_source,
};
use lightgpu::ops::{has, ops};
use lightgpu::{has_kernel, NAMES, NOOP_KERNEL, OPS};

#[test]
fn the_table_has_every_kernel() {
    assert_eq!(NAMES.len(), 47);
    assert_eq!(OPS.len(), 47);
    let all = ops();
    assert_eq!(all.len(), 47);
    for i in 0..47 {
        assert_eq!(all[i].name, NAMES[i]);
        assert_eq!(OPS[i].0, NAMES[i]);
        assert_eq!(all[i].doc, OPS[i].1);
        assert!(has(NAMES[i]));
        assert_eq!(NAMES.iter().filter(|n| **n == NAMES[i]).count(), 1);
    }
    assert_eq!(all[6].doc, "y = silu(gate) * up");
}

#[test]
fn knows_kernels_by_name() {
    assert!(has_kernel(NOOP_KERNEL));
    assert!(has_kernel("lg_rms_norm"));
    assert!(!has_kernel("lg_rms"));
    assert!(!has_kernel(""));
    assert!(!has("lg_noop "));
}

#[test]
fn reports_kernels_that_do_not_resolve() {
    let mut faults: Vec<Option<String>> = vec![None; 47];
    assert!(check_resolved(&faults).is_ok());
    faults[0] = Some("gone".to_string());
    faults[46] = Some("lost".to_string());
    assert_eq!(
        check_resolved(&faults).unwrap_err(),
        "2 of 47 kernels did not resolve:\n  lg_noop: gone\n  lg_fft2_c2r: lost"
    );
}

#[test]
fn reverses_bits() {
    assert_eq!(bitrev(0b001, 3), 0b100);
    assert_eq!(bitrev(0b110, 3), 0b011);
    assert_eq!(bitrev(5, 0), 0);
    let all = usize::BITS as usize;
    assert_eq!(bitrev(1, all), 1 << (all - 1));
    assert_eq!(bitrev(0x1234_5678, all), 0x1234_5678usize.reverse_bits());
    assert_eq!(bitrev(usize::MAX, all), usize::MAX);
    for nb in 0..7usize {
        for i in 0..(1usize << nb) {
            assert_eq!(bitrev(bitrev(i, nb), nb), i);
        }
    }
}

#[test]
fn steps_of_a_small_transform() {
    assert_eq!(
        transform_steps(2),
        vec![
            Step::Swap { i: 1, j: 2 },
            Step::Butterfly { i: 0, j: 1, k: 0, len: 2 },
            Step::Butterfly { i: 2, j: 3, k: 0, len: 2 },
            Step::Butterfly { i: 0, j: 2, k: 0, len: 4 },
            Step::Butterfly { i: 1, j: 3, k: 1, len: 4 },
        ]
    );
    assert!(transform_steps(0).is_empty());
}

/// Runs the steps on complex numbers.
fn run(steps: &[Step], re: &mut [f64], im: &mut [f64]) {
    turn(steps, re, im, -1.0);
}

fn turn(steps: &[Step], re: &mut [f64], im: &mut [f64], sign: f64) {
    for step in steps {
        match *step {
            Step::Swap { i, j } => {
                re.swap(i, j);
                im.swap(i, j);
            }
            Step::Butterfly { i, j, k, len } => {
                let angle = sign * 2.0 * std::f64::consts::PI * k as f64 / len as f64;
                let (s, c) = angle.sin_cos();
                let t = (re[j] * c - im[j] * s, re[j] * s + im[j] * c);
                re[j] = re[i] - t.0;
                im[j] = im[i] - t.1;
                re[i] += t.0;
                im[i] += t.1;
            }
        }
    }
}

#[test]
fn steps_compute_the_fourier_sums() {
    for nb in 0..7usize {
        let n = 1usize << nb;
        let x: Vec<f64> = (0..n).map(|i| ((i * i + 3 * i) % 11) as f64 - 4.0).collect();
        let (mut re, mut im) = (x.clone(), vec![0.0; n]);
        run(&transform_steps(nb), &mut re, &mut im);
        for k in 0..n {
            let (mut a, mut b) = (0.0, 0.0);
            for (m, v) in x.iter().enumerate() {
                let angle = -2.0 * std::f64::consts::PI * (m * k) as f64 / n as f64;
                a += v * angle.cos();
                b += v * angle.sin();
            }
            assert!((re[k] - a).abs() < 1e-9 && (im[k] - b).abs() < 1e-9, "{n} {k}");
        }
    }
}

#[test]
fn sizes_are_powers_of_two_up_to_64() {
    for n in 0..200usize {
        let expected = if n.is_power_of_two() && n <= 64 {
            Some(n.trailing_zeros() as usize)
        } else {
            None
        };
        assert_eq!(size_bits(n), expected);
    }
}

#[test]
fn buffers_have_the_lengths_of_the_layout() {
    assert!(buffers_fit(2 * 8 * 8, 2 * 8 * 5 * 2, 2, 8));
    assert!(!buffers_fit(2 * 8 * 8, 2 * 8 * 4 * 2, 2, 8));
    assert!(!buffers_fit(2 * 8 * 7, 2 * 8 * 5 * 2, 2, 8));
    assert!(buffers_fit(0, 0, 0, 64));
    assert!(!buffers_fit(0, 0, usize::MAX, 64));
}

#[test]
fn places_in_planes_and_spectra() {
    assert_eq!(plane_index(2, 8, 1, 2, 3), (8 + 2) * 8 + 3);
    assert_eq!(spectrum_index(2, 8, 1, 2, 3), ((8 + 2) * 5 + 3) * 2);
    assert_eq!(spectrum_source(8, 2, 3), (2, 3, false));
    assert_eq!(spectrum_source(8, 2, 4), (2, 4, false));
    assert_eq!(spectrum_source(8, 2, 5), (6, 3, true));
    assert_eq!(spectrum_source(8, 0, 7), (0, 1, true));
}

#[test]
fn pairs_are_half_a_head_apart() {
    assert_eq!(rope_pair(4, 2, 3, 1, 1, 1), ((2 + 1) * 4 + 1, (2 + 1) * 4 + 3));
    let mut seen = vec![0; 3 * 2 * 4];
    for t in 0..3 {
        for h in 0..2 {
            for i in 0..2 {
                let (lo, hi) = rope_pair(4, 2, 3, t, h, i);
                seen[lo] += 1;
                seen[hi] += 1;
            }
        }
    }
    assert!(seen.iter().all(|n| *n == 1));
}

#[test]
fn steps_of_a_small_plane() {
    assert_eq!(
        plane_steps(1, false),
        vec![
            Step::Butterfly { i: 0, j: 1, k: 0, len: 2 },
            Step::Butterfly { i: 2, j: 3, k: 0, len: 2 },
            Step::Butterfly { i: 0, j: 2, k: 0, len: 2 },
            Step::Butterfly { i: 1, j: 3, k: 0, len: 2 },
        ]
    );
    assert_eq!(
        plane_steps(1, true),
        vec![
            Step::Butterfly { i: 0, j: 2, k: 0, len: 2 },
            Step::Butterfly { i: 1, j: 3, k: 0, len: 2 },
            Step::Butterfly { i: 0, j: 1, k: 0, len: 2 },
            Step::Butterfly { i: 2, j: 3, k: 0, len: 2 },
        ]
    );
}

#[test]
fn a_plane_comes_back_from_its_half_spectrum() {
    for nb in 1..7usize {
        let n = 1usize << nb;
        let x: Vec<f64> = (0..n * n).map(|i| ((i * 5 + i / 3) % 13) as f64 - 6.0).collect();
        let (mut re, mut im) = (x.clone(), vec![0.0; n * n]);
        turn(&plane_steps(nb, false), &mut re, &mut im, -1.0);
        let (mut full_re, mut full_im) = (vec![0.0; n * n], vec![0.0; n * n]);
        for u in 0..n {
            for c in 0..n {
                let (su, sc, mirrored) = spectrum_source(n, u, c);
                full_re[u * n + c] = re[su * n + sc];
                full_im[u * n + c] = if mirrored { -im[su * n + sc] } else { im[su * n + sc] };
                assert!((full_re[u * n + c] - re[u * n + c]).abs() < 1e-6);
                assert!((full_im[u * n + c] - im[u * n + c]).abs() < 1e-6);
            }
        }
        turn(&plane_steps(nb, true), &mut full_re, &mut full_im, 1.0);
        for (back, start) in full_re.iter().zip(&x) {
            assert!((back / (n * n) as f64 - start).abs() < 1e-9);
        }
    }
}
