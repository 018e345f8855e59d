use std::sync::Arc;

use hush_vani::bank::WeightBank;
use hush_vani::nn::{
    axpy, conv1x3, conv3x3_causal, convtranspose_dw, dot, dw_conv13, gate_update, gemm_nt,
    grouped_linear, gru, linear_row, matvec, matvec_packed, pack_rows, pad_freq, pointwise, relu_,
    PANEL,
};
use hush_vani::simd::{sigmoid, tanh};
use hush_vani::tools;
use hush_vani::F32;

fn up(x: &[f32]) -> Vec<F32> {
    x.iter().map(|v| F32::from_bits(v.to_bits())).collect()
}

fn down(x: &[F32]) -> Vec<f32> {
    x.iter().map(|v| f32::from_bits(v.to_bits())).collect()
}

fn bits(x: &[f32]) -> Vec<u32> {
    x.iter().map(|v| v.to_bits()).collect()
}

fn same(a: &[F32], b: &[f32]) {
    assert_eq!(bits(&down(a)), bits(b));
}

fn rnd(n: usize, seed: u64) -> Vec<f32> {
    let mut s = seed;
    (0..n)
        .map(|_| {
            s = s.wrapping_mul(6364136223846793005).wrapping_add(1);
            ((s >> 33) as f32 / (1u64 << 31) as f32) - 0.5
        })
        .collect()
}

/// About a third of the numbers are zero, of either sign.
fn sparse(n: usize, seed: u64) -> Vec<f32> {
    rnd(n, seed)
        .iter()
        .enumerate()
        .map(|(i, &v)| match i % 6 {
            0 => 0.0,
            3 => -0.0,
            _ => v,
        })
        .collect()
}

fn sig(x: f32) -> f32 {
    f32::from_bits(sigmoid(F32::from_bits(x.to_bits())).to_bits())
}

fn tnh(x: f32) -> f32 {
    f32::from_bits(tanh(F32::from_bits(x.to_bits())).to_bits())
}

fn plain_dot(a: &[f32], b: &[f32]) -> f32 {
    let mut acc = [0f32; 8];
    let n = a.len() / 8 * 8;
    for i in 0..n {
        acc[i % 8] = a[i].mul_add(b[i], acc[i % 8]);
    }
    let mut s = (acc[0] + acc[1]) + (acc[2] + acc[3]) + ((acc[4] + acc[5]) + (acc[6] + acc[7]));
    for i in n..a.len() {
        s += a[i] * b[i];
    }
    s
}

#[test]
fn dot_matches_scalar() {
    let a = rnd(256, 1);
    let b = rnd(256, 2);
    let d = f32::from_bits(dot(&up(&a), &up(&b)).to_bits());
    assert!((d - plain_dot(&a, &b)).abs() < 1e-4);
    assert_eq!(d.to_bits(), plain_dot(&a, &b).to_bits());
}

#[test]
fn dot_takes_any_length() {
    for n in [0usize, 1, 7, 8, 9, 16, 23] {
        let (a, b) = (rnd(n, 10 + n as u64), rnd(n, 40 + n as u64));
        assert_eq!(dot(&up(&a), &up(&b)).to_bits(), plain_dot(&a, &b).to_bits());
    }
}

#[test]
fn packed_matvec_matches_matvec() {
    let (rows, k) = (PANEL * 4, 32);
    let m = up(&rnd(rows * k, 3));
    let x = up(&rnd(k, 4));
    let p = pack_rows(&m, rows, k);
    let (mut a, mut b) = (vec![F32::zero(); rows], vec![F32::zero(); rows]);
    matvec(&m, rows, k, &x, None, &mut a);
    matvec_packed(&p, rows, k, &x, &mut b);
    for (u, v) in down(&a).iter().zip(&down(&b)) {
        assert!((u - v).abs() < 1e-5, "{u} vs {v}");
        assert_eq!(u.to_bits(), v.to_bits());
    }
}

#[test]
fn packing_interleaves_chunks_of_eight() {
    let (rows, k) = (24usize, 16usize);
    let m: Vec<f32> = (0..rows * k).map(|i| i as f32).collect();
    let p = down(&pack_rows(&up(&m), rows, k));
    for jb in 0..rows / 12 {
        for c in 0..k / 8 {
            for l in 0..12 {
                for e in 0..8 {
                    let d = jb * 12 * k + c * 96 + l * 8 + e;
                    assert_eq!(p[d], m[(jb * 12 + l) * k + c * 8 + e]);
                }
            }
        }
    }
}

#[test]
fn gemm_nt_matches_matvec() {
    let (t, k, rows) = (7, 32, 16);
    let x = up(&rnd(t * k, 5));
    let w = up(&rnd(rows * k, 6));
    let bias = up(&rnd(rows, 7));
    let mut g = vec![F32::zero(); t * rows];
    gemm_nt(&x, t, k, &w, rows, &bias, &mut g);
    for ti in 0..t {
        let mut r = vec![F32::zero(); rows];
        matvec(&w, rows, k, &x[ti * k..(ti + 1) * k], Some(&bias), &mut r);
        for j in 0..rows {
            let (u, v) = (down(&g)[ti * rows + j], down(&r)[j]);
            assert!((u - v).abs() < 1e-4);
            assert_eq!(u.to_bits(), v.to_bits());
        }
    }
}

#[test]
fn matvec_leaves_what_is_behind_its_rows() {
    let m = up(&[1.0, 2.0, 3.0, 4.0]);
    let mut out = up(&[9.0, 9.0, 9.0]);
    matvec(&m, 2, 2, &up(&[1.0, 1.0]), Some(&up(&[0.5, -0.5])), &mut out);
    same(&out, &[3.5, 6.5, 9.0]);
}

#[test]
fn convtranspose_doubles_frequency() {
    let (c, t, f) = (2, 3, 4);
    let x = rnd(c * t * f, 8);
    let w = rnd(c * 3, 9);
    let (y, fo) = convtranspose_dw(&up(&x), c, t, f, &up(&w));
    assert_eq!(fo, 2 * f);
    assert_eq!(y.len(), c * t * 2 * f);
    for ch in 0..c {
        for ti in 0..t {
            let src = &x[(ch * t + ti) * f..(ch * t + ti + 1) * f];
            for i in 0..f {
                let even = src[i] * w[ch * 3 + 1];
                let mut odd = src[i] * w[ch * 3 + 2];
                if i + 1 < f {
                    odd = w[ch * 3].mul_add(src[i + 1], odd);
                }
                let at = (ch * t + ti) * fo + 2 * i;
                assert_eq!(y[at].to_bits(), even.to_bits());
                assert_eq!(y[at + 1].to_bits(), odd.to_bits());
            }
        }
    }
}

#[test]
fn axpy_covers_the_shorter_of_the_two() {
    let mut out = up(&[1.0, 2.0, 3.0]);
    axpy(&mut out, F32::from_bits(2f32.to_bits()), &up(&[10.0, 20.0]));
    same(&out, &[21.0, 42.0, 3.0]);
    axpy(&mut out[..1], F32::from_bits(1f32.to_bits()), &up(&[1.0, 1.0, 1.0]));
    same(&out, &[22.0, 42.0, 3.0]);
}

#[test]
fn relu_keeps_minus_zero_and_what_is_no_number() {
    let mut x = up(&[-1.5, -0.0, 0.0, 2.5, f32::NEG_INFINITY]);
    relu_(&mut x);
    same(&x, &[0.0, -0.0, 0.0, 2.5, 0.0]);
    let mut n = vec![F32::nan()];
    relu_(&mut n);
    assert!(n[0].is_nan());
}

#[test]
fn padding_puts_a_zero_on_each_side() {
    let p = pad_freq(&up(&[1.0, 2.0, 3.0, 4.0]), 2, 1, 2);
    same(&p, &[0.0, 1.0, 2.0, 0.0, 0.0, 3.0, 4.0, 0.0]);
}

fn plain_pointwise(x: &[f32], cin: usize, tf: usize, w: &[f32], b: Option<&[f32]>, cout: usize) -> Vec<f32> {
    let mut out = vec![0f32; cout * tf];
    for o in 0..cout {
        for p in 0..tf {
            let mut s = b.map_or(0.0, |b| b[o]);
            for c in 0..cin {
                if w[o * cin + c] != 0.0 {
                    s = w[o * cin + c].mul_add(x[c * tf + p], s);
                }
            }
            out[o * tf + p] = s;
        }
    }
    out
}

#[test]
fn pointwise_mixes_channels() {
    let (cin, tf, cout) = (5, 7, 4);
    let (x, w, b) = (rnd(cin * tf, 11), sparse(cin * cout, 12), rnd(cout, 13));
    let y = pointwise(&up(&x), cin, tf, &up(&w), Some(&up(&b)), cout);
    same(&y, &plain_pointwise(&x, cin, tf, &w, Some(&b), cout));
    let y = pointwise(&up(&x), cin, tf, &up(&w), None, cout);
    same(&y, &plain_pointwise(&x, cin, tf, &w, None, cout));
}

#[test]
fn a_zero_weight_hides_what_is_not_finite() {
    let x = up(&[f32::INFINITY, f32::NAN, 3.0, 4.0]);
    let y = pointwise(&x, 2, 2, &up(&[-0.0, 2.0]), None, 1);
    same(&y, &[6.0, 8.0]);
}

fn plain_dw(x: &[f32], c: usize, t: usize, f: usize, w: &[f32], stride: usize) -> (Vec<f32>, usize) {
    let fo = (f + 2 - 3) / stride + 1;
    let mut out = vec![0f32; c * t * fo];
    for ch in 0..c {
        for ti in 0..t {
            for o in 0..fo {
                let mut s = 0f32;
                for k in 0..3 {
                    let i = (o * stride + k) as isize - 1;
                    if i >= 0 && (i as usize) < f {
                        s = w[ch * 3 + k].mul_add(x[(ch * t + ti) * f + i as usize], s);
                    }
                }
                out[(ch * t + ti) * fo + o] = s;
            }
        }
    }
    (out, fo)
}

#[test]
fn depthwise_convolution_has_zeros_outside() {
    for (f, stride) in [(1usize, 1usize), (2, 2), (5, 1), (6, 2), (7, 3)] {
        let (c, t) = (3, 2);
        let (x, w) = (rnd(c * t * f, 14), rnd(c * 3, 15));
        let (y, fo) = dw_conv13(&up(&x), c, t, f, &up(&w), stride);
        let (z, go) = plain_dw(&x, c, t, f, &w, stride);
        assert_eq!(fo, go);
        same(&y, &z);
    }
}

fn plain_conv3x3(
    x: &[f32],
    cin: usize,
    t: usize,
    f: usize,
    w: &[f32],
    b: Option<&[f32]>,
    cout: usize,
    groups: usize,
) -> Vec<f32> {
    let (cg, og) = (cin / groups, cout / groups);
    let mut out = vec![0f32; cout * t * f];
    for o in 0..cout {
        for ti in 0..t {
            for fi in 0..f {
                let mut s = b.map_or(0.0, |b| b[o]);
                for ci in 0..cg {
                    let c = o / og * cg + ci;
                    for kt in 0..3 {
                        for kf in 0..3 {
                            let v = w[((o * cg + ci) * 3 + kt) * 3 + kf];
                            if ti + kt < 2 || v == 0.0 {
                                continue;
                            }
                            let (tt, ff) = (ti + kt - 2, (fi + kf) as isize - 1);
                            let u = if ff < 0 || ff as usize >= f {
                                0.0
                            } else {
                                x[(c * t + tt) * f + ff as usize]
                            };
                            s = v.mul_add(u, s);
                        }
                    }
                }
                out[(o * t + ti) * f + fi] = s;
            }
        }
    }
    out
}

#[test]
fn causal_convolution_sees_two_frames_back() {
    for (cin, cout, groups) in [(1usize, 3usize, 1usize), (2, 4, 2), (4, 4, 2), (3, 2, 2)] {
        let (t, f) = (5, 4);
        let x = rnd(cin * t * f, 16);
        let w = sparse(cout * (cin / groups) * 9, 17);
        let b = rnd(cout, 18);
        let y = conv3x3_causal(&up(&x), cin, t, f, &up(&w), Some(&up(&b)), cout, groups);
        same(&y, &plain_conv3x3(&x, cin, t, f, &w, Some(&b), cout, groups));
        let y = conv3x3_causal(&up(&x), cin, t, f, &up(&w), None, cout, groups);
        same(&y, &plain_conv3x3(&x, cin, t, f, &w, None, cout, groups));
    }
}

#[test]
fn later_frames_do_not_change_earlier_ones() {
    let (t, f) = (6, 3);
    let w = up(&rnd(2 * 2 * 9, 20));
    let x = rnd(2 * t * f, 21);
    let mut z = x.clone();
    for c in 0..2 {
        for ti in 4..t {
            for fi in 0..f {
                z[(c * t + ti) * f + fi] += 1.0;
            }
        }
    }
    let y = down(&conv3x3_causal(&up(&x), 2, t, f, &w, None, 2, 1));
    let v = down(&conv3x3_causal(&up(&z), 2, t, f, &w, None, 2, 1));
    for o in 0..2 {
        for ti in 0..4 {
            let at = (o * t + ti) * f;
            assert_eq!(bits(&y[at..at + f]), bits(&v[at..at + f]));
        }
        let at = (o * t + 4) * f;
        assert_ne!(bits(&y[at..at + f]), bits(&v[at..at + f]));
    }
}

fn plain_conv1x3(x: &[f32], cin: usize, t: usize, f: usize, w: &[f32], b: &[f32], cout: usize) -> Vec<f32> {
    let mut out = vec![0f32; cout * t * f];
    for o in 0..cout {
        for ti in 0..t {
            for fi in 0..f {
                let mut s = b[o];
                for c in 0..cin {
                    for k in 0..3 {
                        let v = w[(o * cin + c) * 3 + k];
                        if v == 0.0 {
                            continue;
                        }
                        let i = (fi + k) as isize - 1;
                        let u = if i < 0 || i as usize >= f { 0.0 } else { x[(c * t + ti) * f + i as usize] };
                        s = v.mul_add(u, s);
                    }
                }
                out[(o * t + ti) * f + fi] = s;
            }
        }
    }
    out
}

#[test]
fn flat_convolution_mixes_every_channel() {
    let (cin, cout, t, f) = (3, 2, 4, 5);
    let (x, w, b) = (rnd(cin * t * f, 22), sparse(cout * cin * 3, 23), rnd(cout, 24));
    let y = conv1x3(&up(&x), cin, t, f, &up(&w), &up(&b), cout);
    same(&y, &plain_conv1x3(&x, cin, t, f, &w, &b, cout));
}

fn plain_linear(x: &[f32], t: usize, g: usize, i: usize, h: usize, w: &[f32]) -> Vec<f32> {
    let mut out = vec![0f32; t * g * h];
    for ti in 0..t {
        for gi in 0..g {
            for hh in 0..h {
                let mut s = 0f32;
                for ii in 0..i {
                    let xs = x[ti * g * i + gi * i + ii];
                    if xs != 0.0 {
                        s = xs.mul_add(w[gi * i * h + ii * h + hh], s);
                    }
                }
                out[ti * g * h + gi * h + hh] = s;
            }
        }
    }
    out
}

#[test]
fn grouped_linear_keeps_groups_apart() {
    for (g, i, h) in [(1usize, 5usize, 9usize), (3, 4, 2), (4, 1, 1)] {
        let t = 3;
        let (x, w) = (sparse(t * g * i, 25), rnd(g * i * h, 26));
        let y = grouped_linear(&up(&x), t, g, i, h, &up(&w));
        same(&y, &plain_linear(&x, t, g, i, h, &w));
    }
    let mut dst = up(&[7.0, 7.0]);
    linear_row(&up(&[2.0, 0.0]), &up(&[1.0, 2.0, 3.0, 4.0]), 2, &mut dst);
    same(&dst, &[2.0, 4.0]);
}

fn plain_gates(xw: &[f32], hr: &[f32], rb: &[f32], h: &mut [f32], hs: usize) {
    for k in 0..hs {
        let z = sig(xw[k] + hr[k] + rb[k]);
        let r = sig(xw[hs + k] + hr[hs + k] + rb[hs + k]);
        let n = tnh(xw[2 * hs + k] + r * (hr[2 * hs + k] + rb[2 * hs + k]));
        h[k] = (1.0 - z).mul_add(n, z * h[k]);
    }
}

#[test]
fn gates_mix_old_and_new_state() {
    let hs = 4;
    let (xw, hr, rb) = (rnd(12, 27), rnd(12, 28), rnd(12, 29));
    let mut h = rnd(5, 30);
    let mut s = up(&h);
    gate_update(&up(&xw), &up(&hr), &up(&rb), &mut s, hs);
    plain_gates(&xw, &hr, &rb, &mut h, hs);
    same(&s, &h);
}

fn plain_gru(x: &[f32], t: usize, i: usize, w: &[f32], r: &[f32], b: &[f32], hs: usize) -> Vec<f32> {
    let mut h = vec![0f32; hs];
    let mut y = Vec::new();
    for ti in 0..t {
        let xw: Vec<f32> = (0..3 * hs)
            .map(|j| plain_dot(&w[j * i..(j + 1) * i], &x[ti * i..(ti + 1) * i]) + b[j])
            .collect();
        let hr: Vec<f32> = (0..3 * hs).map(|j| plain_dot(&r[j * hs..(j + 1) * hs], &h) + 0.0).collect();
        plain_gates(&xw, &hr, &b[3 * hs..], &mut h, hs);
        y.extend_from_slice(&h);
    }
    y
}

#[test]
fn recurrent_unit_starts_at_zero_and_carries_its_state() {
    let (t, i, hs) = (4, 5, 8);
    let (x, w, r, b) = (rnd(t * i, 31), rnd(3 * hs * i, 32), rnd(3 * hs * hs, 33), rnd(6 * hs, 34));
    let p = pack_rows(&up(&r), 3 * hs, hs);
    let y = gru(&up(&x), t, i, &up(&w), &p, &up(&b), hs);
    same(&y, &plain_gru(&x, t, i, &w, &r, &b, hs));
    let first = gru(&up(&x[..2 * i]), 2, i, &up(&w), &p, &up(&b), hs);
    assert_eq!(bits(&down(&first)), bits(&down(&y[..2 * hs])));
}

#[test]
fn generator_gives_the_same_numbers() {
    same(&tools::rnd(50, 77), &rnd(50, 77));
    let r = down(&tools::rnd_rectified(50, 77));
    for (a, b) in r.iter().zip(&rnd(50, 77)) {
        assert_eq!(*a, if *b < 0.0 { 0.0 } else { *b });
    }
}

#[test]
fn other_dot_products_agree_on_whole_chunks() {
    let (a, b) = (rnd(70, 35), rnd(70, 36));
    let d = tools::dot_1acc(&up(&a), &up(&b));
    assert_eq!(d.to_bits(), plain_dot(&a[..64], &b[..64]).to_bits());
    let mut acc = [[0f32; 8]; 4];
    for i in 0..64 {
        acc[i % 32 / 8][i % 8] = a[i].mul_add(b[i], acc[i % 32 / 8][i % 8]);
    }
    let v: Vec<f32> = (0..8).map(|k| (acc[0][k] + acc[1][k]) + (acc[2][k] + acc[3][k])).collect();
    let s = (v[0] + v[1]) + (v[2] + v[3]) + ((v[4] + v[5]) + (v[6] + v[7]));
    assert_eq!(tools::dot_4acc(&up(&a), &up(&b)).to_bits(), s.to_bits());
}

#[test]
fn packing_needs_the_numbers_that_a_shape_promises() {
    let manifest = "a 1,12,8 0 96\nb 1,12,16 0 96\nc 5 0 5\n";
    let bin = vec![0u8; 4 * 96];
    let w = Arc::new(hush_vani::Weights::from_bytes(&bin, manifest).unwrap());
    let built = |required: &[&str], mats: &[&str]| match WeightBank::new(Arc::clone(&w), required, mats) {
        Ok(_) => String::new(),
        Err(e) => e.message(),
    };
    assert_eq!(built(&["a"], &["a"]), "");
    let short = hush_vani::Error::Weights("b: too short for GRU shape [1, 12, 16]".to_string());
    assert_eq!(built(&["a"], &["a", "b"]), short.message());
    let missing = hush_vani::Error::MissingTensor("nothing".to_string());
    assert_eq!(built(&["nothing"], &["b"]), missing.message());
    let shape = hush_vani::Error::Weights("c: unexpected GRU shape [5]".to_string());
    assert_eq!(built(&["a"], &["c", "b"]), shape.message());
}
