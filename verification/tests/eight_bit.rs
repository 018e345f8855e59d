use hush_vani::int8::{codes, matvec_packed_i8, pack8, pack_i8, pack_n, scale, shifted_codes};
use hush_vani::nn::pack_rows;
use hush_vani::tools::rnd;
use hush_vani::F32;

fn n(x: F32) -> f32 {
    f32::from_bits(x.to_bits())
}

fn f(x: f32) -> F32 {
    F32::from_bits(x.to_bits())
}

#[test]
fn codes_are_the_nearest_multiples() {
    let m: Vec<F32> = [1.0f32, -0.5, 0.25, 0.0].map(f).to_vec();
    let s = scale(&m);
    assert_eq!(n(s), 1.0 / 127.0);
    assert_eq!(codes(&m, s), [127, -64, 32, 0]);
    assert_eq!(shifted_codes(&m, s), [255, 64, 160, 128]);
    let z = [f(0.0), f(-0.0)];
    assert_eq!(codes(&z, scale(&z)), [0, 0]);
}

#[test]
fn twelve_row_panels_agree() {
    let (rows, k) = (24, 16);
    let m = rnd(rows * k, 5);
    let bits = |v: &[F32]| v.iter().map(|x| x.to_bits()).collect::<Vec<_>>();
    assert_eq!(bits(&pack_n(&m, rows, k, 12)), bits(&pack_rows(&m, rows, k)));
    assert_eq!(bits(&pack_n(&m, rows, k, 8)), bits(&pack8(&m, rows, k)));
    let p = pack8(&m, rows, k);
    for jb in 0..rows / 8 {
        for c in 0..k / 8 {
            for l in 0..8 {
                for e in 0..8 {
                    let d = jb * 8 * k + c * 64 + l * 8 + e;
                    assert_eq!(p[d].to_bits(), m[(jb * 8 + l) * k + c * 8 + e].to_bits());
                }
            }
        }
    }
}

#[test]
fn what_fills_no_panel_is_left_out() {
    let m = rnd(3 * 8, 6);
    let p = pack_n(&m, 3, 8, 2);
    for l in 0..2 {
        for e in 0..8 {
            assert_eq!(p[l * 8 + e].to_bits(), m[l * 8 + e].to_bits());
        }
    }
    assert!(p[16..].iter().all(|v| v.to_bits() == 0));
}

#[test]
fn products_of_codes_are_exact() {
    let (rows, k) = (24usize, 64usize);
    let m = rnd(rows * k, 7);
    let x = rnd(k, 8);
    let (p, sums, ws) = pack_i8(&m, rows, k);
    let q = codes(&m, ws);
    let xs = scale(&x);
    let a = codes(&x, xs);
    let u = shifted_codes(&x, xs);
    let mut out = vec![F32::zero(); rows + 1];
    matvec_packed_i8(&p, rows, k, &u, &sums, ws, xs, &mut out);
    for j in 0..rows {
        let dot: i32 = (0..k).map(|i| q[j * k + i] as i32 * a[i] as i32).sum();
        assert_eq!(sums[j], (0..k).map(|i| q[j * k + i] as i32).sum::<i32>());
        assert_eq!(n(out[j]).to_bits(), (dot as f32 * (n(ws) * n(xs))).to_bits());
    }
    assert_eq!(out[rows].to_bits(), 0);
}
