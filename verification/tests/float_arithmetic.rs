use hush_vani::float::F32;

fn f(x: f32) -> F32 {
    F32::from_bits(x.to_bits())
}

fn same(got: F32, want: f32) -> bool {
    if want.is_nan() {
        got == F32::nan()
    } else {
        got.to_bits() == want.to_bits()
    }
}

/// Bit patterns that mix special values, neighbours of powers of two and arbitrary patterns.
fn patterns(n: usize, seed: u64) -> Vec<u32> {
    let special = [
        0u32, 0x8000_0000, 1, 0x8000_0001, 0x007f_ffff, 0x0080_0000, 0x0080_0001, 0x3f80_0000, 0xbf80_0000,
        0x3f7f_ffff, 0x3f80_0001, 0x7f7f_ffff, 0xff7f_ffff, 0x7f80_0000, 0xff80_0000, 0x7fc0_0000, 0x4b00_0000,
        0x4b80_0000, 0x3f00_0000, 0x3380_0000, 0x3380_0001,
    ];
    let mut s = seed;
    let mut out: Vec<u32> = special.to_vec();
    while out.len() < n {
        s = s.wrapping_mul(6364136223846793005).wrapping_add(1442695040888963407);
        let r = (s >> 32) as u32;
        out.push(match s >> 29 & 7 {
            0 => r & 0x807f_ffff,
            1 => (r & 0x80ff_ffff) | 0x3f00_0000,
            2 => (r & 0x81ff_ffff) | 0x3e00_0000,
            3 => r & 0xffff_f000,
            4 => (r & 0x8000_0fff) | 0x3f80_0000,
            _ => r,
        });
    }
    out
}

#[test]
fn sums_and_products_match_the_processor() {
    let a = patterns(700, 1);
    let b = patterns(700, 2);
    for &x in &a {
        for &y in &b {
            let (p, q) = (f32::from_bits(x), f32::from_bits(y));
            let (u, v) = (F32::from_bits(x), F32::from_bits(y));
            assert!(same(u.add(v), p + q), "{x:08x} + {y:08x}");
            assert!(same(u.sub(v), p - q), "{x:08x} - {y:08x}");
            assert!(same(u.mul(v), p * q), "{x:08x} * {y:08x}");
            assert!(same(u.div(v), p / q), "{x:08x} / {y:08x}");
            assert_eq!(u.lt(v), p < q, "{x:08x} < {y:08x}");
        }
    }
}

#[test]
fn fused_products_match_the_processor() {
    let a = patterns(110, 3);
    let b = patterns(110, 4);
    let c = patterns(110, 5);
    for &x in &a {
        for &y in &b {
            for &z in &c {
                let want = f32::from_bits(x).mul_add(f32::from_bits(y), f32::from_bits(z));
                let got = F32::from_bits(x).mul_add(F32::from_bits(y), F32::from_bits(z));
                assert!(same(got, want), "{x:08x} * {y:08x} + {z:08x}: {:08x} {:08x}", got.to_bits(), want.to_bits());
            }
        }
    }
}

#[test]
fn roots_floors_and_integers_match_the_processor() {
    for x in patterns(200_000, 6) {
        let (u, p) = (F32::from_bits(x), f32::from_bits(x));
        assert!(same(u.sqrt(), p.sqrt()), "sqrt {x:08x}");
        assert!(same(u.floor(), p.floor()), "floor {x:08x}");
        assert!(same(u.neg(), -p) || p.is_nan(), "neg {x:08x}");
        let n = u.to_i32();
        if p.is_nan() || p >= 2147483648.0 || p < -2147483648.0 {
            assert_eq!(n, i32::MIN);
        } else {
            assert_eq!(n, p as i32, "to_i32 {x:08x}");
        }
        let k = (x as i64) * 1_000_003 - 77;
        assert!(same(F32::from_i64(k), k as f32), "{k}");
        assert!(same(F32::from_i64(-k), (-k) as f32), "{k}");
    }
}

#[test]
fn special_values_are_recognised() {
    assert!(F32::nan().is_nan());
    assert!(f(f32::INFINITY).is_inf());
    assert!(f(-0.0).is_zero() && f(0.0).is_zero());
    assert!(f(-0.0).is_neg() && !f(0.0).is_neg());
    assert!(!f(1e-45).is_zero());
    assert_eq!(F32::zero(), f(0.0));
    assert_eq!(f(1.5).add(f(2.25)), f(3.75));
    assert_eq!(f(0.1).mul(f(0.2)), f(0.1 * 0.2));
    assert_eq!(f(1.0).div(f(3.0)), f(1.0 / 3.0));
    assert_eq!(f(2.0).sqrt(), f(1.4142135));
}

#[test]
fn neutral_elements_change_nothing() {
    for x in [0.1f32, -3.5, f32::MIN_POSITIVE, 1e-45, f32::MAX, -0.0] {
        assert_eq!(f(x).mul(f(1.0)), f(x));
        assert_eq!(f(x).neg().neg(), f(x));
        assert_eq!(f(x).mul(f(0.25)), f(0.25).mul(f(x)));
        assert_eq!(f(x).add(f(0.25)), f(0.25).add(f(x)));
    }
    for x in [0.1f32, -3.5, 1e-45, f32::MAX, 0.0] {
        assert_eq!(f(x).add(F32::zero()), f(x));
    }
    assert_eq!(f(-0.0).add(F32::zero()), F32::zero());
}
