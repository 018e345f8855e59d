use hush_vani::float::F32;
use hush_vani::half::{f16_to_f32, f32_to_f16, from_f16, to_f16};
use hush_vani::simd::{exp, has_avx2, has_f16c, sigmoid, sigmoid_slice, tanh, tanh_slice, CpuFeatures};

fn f(x: f32) -> F32 {
    F32::from_bits(x.to_bits())
}

fn n(x: F32) -> f32 {
    f32::from_bits(x.to_bits())
}

#[test]
fn f16_roundtrip_is_stable_and_accurate() {
    // f16 has a 10-bit mantissa => relative error <= 2^-11 ~ 4.9e-4
    for i in -20000..20000 {
        let x = i as f32 * 0.001;
        let r = n(f16_to_f32(f32_to_f16(f(x))));
        let tol = 5e-4 * x.abs().max(1e-5);
        assert!((r - x).abs() <= tol, "x={x} -> {r}");
        // quantising an already-f16 value must be idempotent
        assert_eq!(f32_to_f16(f(r)), f32_to_f16(f(x)), "not idempotent at x={x}");
    }
    assert_eq!(n(f16_to_f32(f32_to_f16(f(0.0)))), 0.0);
    assert!(n(f16_to_f32(f32_to_f16(f(-0.0)))).is_sign_negative());
}

#[test]
fn f16_to_f32_is_exact_for_every_bit_pattern() {
    for h in 0u32..=0xffff {
        let h = h as u16;
        let exp = (h >> 10) & 0x1f;
        if exp == 0x1f {
            continue; // inf / NaN
        }
        let sign = if h & 0x8000 != 0 { -1.0f32 } else { 1.0 };
        let mant = (h & 0x03ff) as f32;
        let want = if exp == 0 {
            // subnormal: no implicit leading 1, value is mant * 2^-24
            sign * mant * (2.0f32).powi(-24)
        } else {
            sign * (1.0 + mant / 1024.0) * (2.0f32).powi(exp as i32 - 15)
        };
        assert_eq!(
            f16_to_f32(h).to_bits(),
            want.to_bits(),
            "0x{h:04x}: got {}, want {want:e}",
            n(f16_to_f32(h))
        );
    }
}

#[test]
fn f16c_hardware_matches_scalar() {
    let xs: Vec<F32> = (0..800).map(|i| f((i as f32 - 400.0) * 0.037)).collect();
    let mut h = vec![0u16; xs.len()];
    to_f16(&xs, &mut h);
    let mut back = vec![F32::zero(); xs.len()];
    from_f16(&h, &mut back);
    for (i, (&b, &x)) in back.iter().zip(&xs).enumerate() {
        assert_eq!(b, f16_to_f32(f32_to_f16(x)), "lane {i}");
    }
}

#[test]
fn narrowing_handles_infinities_ties_and_underflow() {
    assert_eq!(f32_to_f16(f(1.0)), 0x3c00);
    assert_eq!(f32_to_f16(f(-2.0)), 0xc000);
    assert_eq!(f32_to_f16(f(f32::INFINITY)), 0x7c00);
    assert_eq!(f32_to_f16(f(f32::NEG_INFINITY)), 0xfc00);
    assert_eq!(f32_to_f16(f(f32::NAN)), 0x7e00);
    assert_eq!(f32_to_f16(f(65504.0)), 0x7bff);
    assert_eq!(f32_to_f16(f(65519.0)), 0x7bff);
    assert_eq!(f32_to_f16(f(65520.0)), 0x7c00);
    // halfway between 1 and its neighbour: to the even one
    assert_eq!(f32_to_f16(f(1.0 + 1.0 / 2048.0)), 0x3c00);
    assert_eq!(f32_to_f16(f(1.0 + 3.0 / 2048.0)), 0x3c02);
    // half the smallest subnormal is a tie to zero; a little more is not
    assert_eq!(f32_to_f16(f(2.0f32.powi(-25))), 0);
    assert_eq!(f32_to_f16(f(1.0001 * 2.0f32.powi(-25))), 1);
    assert_eq!(f32_to_f16(f(2.0f32.powi(-26))), 0);
    assert_eq!(f16_to_f32(0x7c00), f(f32::INFINITY));
    assert_eq!(f16_to_f32(0xfe01).to_bits(), 0xffc0_2000);
}

#[test]
fn every_half_comes_back() {
    for h in 0u32..=0xffff {
        let h = h as u16;
        let nan = h & 0x7fff > 0x7c00;
        let want = if nan { h & 0x8000 | 0x7e00 } else { h };
        assert_eq!(f32_to_f16(f16_to_f32(h)), want);
    }
}

#[test]
fn conversions_stop_at_the_shorter_slice() {
    let mut h = vec![7u16; 3];
    to_f16(&[f(1.0)], &mut h);
    assert_eq!(h, vec![0x3c00, 7, 7]);
    let mut x = vec![f(9.0); 1];
    from_f16(&[0x3c00, 0x4000], &mut x);
    assert_eq!(x, vec![f(1.0)]);
}

#[test]
fn vectorised_matches_libm() {
    let xs: Vec<f32> = (-800..800).map(|i| i as f32 * 0.05).collect();

    let mut s: Vec<F32> = xs.iter().map(|&x| f(x)).collect();
    sigmoid_slice(&mut s);
    for (a, x) in s.iter().zip(&xs) {
        let want = 1.0 / (1.0 + (-x).exp());
        assert!((n(*a) - want).abs() < 2e-7, "sigmoid({x}) = {}", n(*a));
        assert_eq!(*a, sigmoid(f(*x)));
    }

    let mut t: Vec<F32> = xs.iter().map(|&x| f(x)).collect();
    tanh_slice(&mut t);
    for (a, x) in t.iter().zip(&xs) {
        assert!((n(*a) - x.tanh()).abs() < 2e-7, "tanh({x}) = {}", n(*a));
        assert_eq!(*a, tanh(f(*x)));
    }
}

#[test]
fn exponential_is_accurate_and_cut_off() {
    for i in -870..870 {
        let x = i as f32 * 0.1;
        let (got, want) = (n(exp(f(x))), x.exp());
        assert!((got - want).abs() <= 3e-7 * want, "exp({x}) = {got}, want {want}");
    }
    assert_eq!(exp(f(0.0)), f(1.0));
    assert_eq!(exp(f(200.0)), exp(f(88.37626)));
    assert_eq!(exp(f(f32::NEG_INFINITY)), exp(f(-100.0)));
    assert!(exp(f(f32::NAN)).is_nan());
    assert_eq!(sigmoid(f(0.0)), f(0.5));
    assert_eq!(tanh(f(1e-4)), f(1e-4));
}

#[test]
fn processor_features_combine() {
    let all = CpuFeatures { avx2: true, fma: true, f16c: true };
    assert!(has_avx2(all) && has_f16c(all));
    assert!(!has_avx2(CpuFeatures { fma: false, ..all }));
    assert!(!has_f16c(CpuFeatures { fma: false, ..all }));
    let no_f16c = CpuFeatures { f16c: false, ..all };
    assert!(has_avx2(no_f16c) && !has_f16c(no_f16c));
}

#[test]
fn activations_are_accurate_to_the_last_places() {
    let close = |got: f32, want: f64, tol: f64| (got as f64 - want).abs() <= tol * want.abs();
    for i in 0..4000 {
        let x = 1e-6f32 * 1.0045f32.powi(i);
        if x > 40.0 {
            break;
        }
        for x in [x, -x] {
            let want = (x as f64).tanh();
            assert!(close(n(tanh(f(x))), want, 3e-7), "tanh({x}) = {}", n(tanh(f(x))));
            assert_eq!(tanh(f(-x)), tanh(f(x)).neg());
        }
    }
    let x = f32::from_bits(966609234);
    assert!(close(n(tanh(f(x))), (x as f64).tanh(), 1e-7));
    for i in 0..70 {
        let x = -87.68 - i as f32 * 0.01;
        assert!(close(n(exp(f(x))), (x as f64).exp(), 4e-7), "exp({x})");
    }
}

#[test]
fn activations_stay_between_their_bounds() {
    for x in [f32::NEG_INFINITY, -1e30, -100.0, -89.0, -88.5, -1.0, 0.0, 1.0, 100.0, f32::INFINITY] {
        let (s, t) = (n(sigmoid(f(x))), n(tanh(f(x))));
        assert!((0.0..=1.0).contains(&s) && (-1.0..=1.0).contains(&t));
    }
    assert_eq!(sigmoid(f(-100.0)), f(0.0));
    assert_eq!(sigmoid(f(100.0)), f(1.0));
    assert_eq!(tanh(f(f32::NEG_INFINITY)), f(-1.0));
    assert!(sigmoid(F32::nan()).is_nan() && tanh(F32::nan()).is_nan());
}

#[test]
fn activations_are_a_share_from_the_exact_functions() {
    let close = |got: F32, want: f64, tol: f64| (n(got) as f64 - want).abs() <= tol * want.abs();
    for i in -8837..12000 {
        let x = i as f32 / 100.0;
        let v = x as f64;
        let s = 1.0 / (1.0 + (-v).exp());
        let k = if x < -86.0 { 9e-7 } else { 5e-7 };
        assert!(close(sigmoid(f(x)), s, k), "sigmoid({x})");
        assert!((n(sigmoid(f(x))) as f64 - s).abs() < 2e-7, "sigmoid({x})");
        assert!(close(tanh(f(x)), v.tanh(), 4e-7), "tanh({x})");
        if x < 88.37 {
            let k = if x < -86.0 { 4.5e-7 } else { 2.9e-7 };
            assert!(close(exp(f(x)), v.exp(), k), "exp({x})");
        }
    }
    for x in [1e3f32, 1e10, 3e38] {
        assert_eq!((sigmoid(f(x)), sigmoid(f(-x))), (f(1.0), f(0.0)));
        assert_eq!((tanh(f(x)), tanh(f(-x))), (f(1.0), f(-1.0)));
    }
}
