//! By which share of a result a quotient, a square root and an integer are rounded.
use vstd::arithmetic::div_mod::lemma_fundamental_div_mod;
use vstd::arithmetic::power2::{lemma2_to64, lemma2_to64_rest};
use vstd::prelude::*;

use crate::exponential::{lemma_last_place, lemma_next};
use crate::float::{int_root, is_root, round32, round_signed, sticky_quotient, sticky_root, with_sign, F32};
use crate::ranges::lemma_zero;
use crate::simd::bits;
use crate::sums::near;
use crate::values::{
    dyadic, is_near, is_rounding, lemma_div, lemma_dyadic, lemma_neg, lemma_no_number_between,
    lemma_order, lemma_power_adds, lemma_power_monotonic, lemma_power_step, lemma_round_signed,
    lemma_scaled, lemma_sign, lemma_within, power,
};

verus! {

/// The other sign of a rounding rounds the other sign.
proof fn lemma_rounding_turned(r: F32, x: real)
    requires
        is_rounding(r, x),
    ensures
        is_rounding(r.neg_spec(), -x),
{
    reveal(is_rounding);
    lemma_neg(r);
    assert forall|c: F32| #![trigger c.value()] c.is_finite_spec() implies (-x <= c.value()
        ==> r.neg_spec().order() <= c.order()) && (c.value() <= -x ==> c.order()
        <= r.neg_spec().order()) by {
        lemma_neg(c);
        let d = c.neg_spec();
        assert(d.value() == -c.value());
    }
}

/// The step from a number that is not negative to the next one is a small share of it, or the smallest
/// step of all.
proof fn lemma_step(x: F32)
    requires
        x.bits < 0x7f7f_ffff,
    ensures
        bits((x.bits + 1) as u32).value() <= x.value() + x.value() / 8388608real + power(-149),
        x.value() >= 0real,
{
    lemma_next(x);
    lemma_power_step(-149);
    if x.bits >= 0x0080_0000 {
        lemma_last_place(x);
        lemma_power_step(x.exp());
    } else {
        assert(x.exp() == -149);
        let (s, p) = (x.sig() as real, power(-149));
        assert(s * p >= 0real) by (nonlinear_arith)
            requires
                s >= 0real,
                p > 0real,
        ;
    }
}

proof fn lemma_rounded_up_from_zero(r: F32, x: real)
    requires
        is_rounding(r, x),
        0real <= x <= power(127),
    ensures
        r.is_finite_spec(),
        r.value() >= 0real,
        -(x / 8388608real + power(-149)) <= r.value() - x <= x / 8388608real + power(-149),
{
    lemma_zero();
    let top = bits(0x7f00_0000);
    lemma2_to64();
    lemma_power_adds(23, 104);
    assert(power(23) == 8388608real);
    let u = power(104);
    assert(power(23) * u == 8388608real * u) by (nonlinear_arith)
        requires
            power(23) == 8388608real,
    ;
    assert(top.sig() == 0x80_0000 && top.exp() == 104 && !top.is_neg_spec());
    assert(top.value() == power(127));
    lemma_within(r, x, F32::zero_spec(), top);
    lemma_order(F32::zero_spec(), r);
    lemma_order(r, top);
    let m = r.mag() as u32;
    let a = bits(m);
    assert(a.mag() == r.mag());
    assert(a.value() == r.value()) by {
        if r.is_neg_spec() {
            assert(r.sig() == 0 && a.sig() == 0);
            let p = power(-149);
            assert(0real * p == 0real) by (nonlinear_arith);
        }
    }
    lemma_power_step(-149);
    if r.value() > x {
        assert(m > 0) by {
            if m == 0 {
                assert(a.sig() == 0);
                let p = power(-149);
                assert(0real * p == 0real) by (nonlinear_arith);
            }
        }
        let low = bits((m - 1) as u32);
        lemma_step(low);
        lemma_no_number_between(r, x, low);
        assert(low.order() < r.order());
        assert(low.value() < x);
    } else if r.value() < x {
        let high = bits((m + 1) as u32);
        lemma_step(a);
        lemma_no_number_between(r, x, high);
        assert(r.order() < high.order());
        assert(x < high.value());
    }
}

/// A rounding is off by at most a share of 2^-23, or by the smallest step of all.
pub proof fn lemma_rounded(r: F32, x: real)
    requires
        is_rounding(r, x),
        -power(127) <= x <= power(127),
    ensures
        r.is_finite_spec(),
        ({
            let size = if x < 0real {
                -x
            } else {
                x
            };
            -(size / 8388608real + power(-149)) <= r.value() - x <= size / 8388608real + power(-149)
        }),
        x >= 0real ==> r.value() >= 0real,
        x <= 0real ==> r.value() <= 0real,
{
    if x > 0real {
        lemma_rounded_up_from_zero(r, x);
    } else {
        lemma_rounding_turned(r, x);
        lemma_neg(r);
        lemma_rounded_up_from_zero(r.neg_spec(), -x);
        assert(r.is_finite_spec() == r.neg_spec().is_finite_spec());
        if x == 0real {
            lemma_rounded_up_from_zero(r, x);
        }
    }
}

/// The smallest step is tiny.
pub proof fn lemma_smallest_step()
    ensures
        0real < power(-149) <= 1real / 1000000000000000000000000000000real,
{
    lemma2_to64();
    lemma2_to64_rest();
    lemma_power_monotonic(-149, -100);
    lemma_power_adds(-50, -50);
    let u = power(-50);
    assert(u == 1real / 1125899906842624real);
    assert(u * u <= 1real / 1000000000000000000000000000000real) by (nonlinear_arith)
        requires
            u == 1real / 1125899906842624real,
    ;
    lemma_power_step(-149);
}

/// A quotient of numbers is off by at most a share of 2^-23, or by the smallest step of all.
pub proof fn law_division_is_off_by_a_share(a: F32, b: F32)
    requires
        a.is_finite_spec(),
        b.is_finite_spec(),
        !b.is_zero_spec(),
        -power(127) <= a.value() / b.value() <= power(127),
    ensures
        ({
            let x = a.value() / b.value();
            let size = if x < 0real {
                -x
            } else {
                x
            };
            a.div_spec(b).is_finite_spec() && -(size / 8388608real + power(-149)) <= a.div_spec(
                b,
            ).value() - x <= size / 8388608real + power(-149)
        }),
{
    lemma_div(a, b);
    lemma_rounded(a.div_spec(b), a.value() / b.value());
}

/// An integer of at most 24 bits is a number.
pub proof fn law_small_integers_are_numbers(n: int)
    requires
        -0x100_0000 < n < 0x100_0000,
    ensures
        F32::of_int(n).is_finite_spec(),
        F32::of_int(n).value() == n as real,
{
    reveal(F32::of_int);
    lemma2_to64();
    assert(power(0) == 1real);
    lemma_dyadic(n, 0);
    lemma_round_signed(n, 0, false);
    let (x, p) = (n as real, power(0));
    assert(x * p == x) by (nonlinear_arith)
        requires
            p == 1real,
    ;
    lemma_within(F32::of_int(n), x, dyadic(n, 0), dyadic(n, 0));
}

/// The quotient of significands before it is rounded is next to the exact one.
proof fn lemma_sticky_quotient(n: nat, d: nat)
    requires
        1 <= n < 0x100_0000,
        1 <= d < 0x100_0000,
    ensures
        ({
            let nn = n * 0x1_0000_0000_0000_0000;
            let s = sticky_quotient(nn, d) as real;
            let q = nn as real / d as real;
            q >= 1000000000000real && -1real <= s - 2real * q <= 1real
        }),
{
    let nn = (n * 0x1_0000_0000_0000_0000) as int;
    let di = d as int;
    lemma_fundamental_div_mod(nn, di);
    let (k, r) = (nn / di, nn % di);
    let s = sticky_quotient(nn as nat, d);
    let (nr, dr, kr, rr) = (nn as real, d as real, k as real, r as real);
    let q = nr / dr;
    assert(q * dr == nr) by (nonlinear_arith)
        requires
            q == nr / dr,
            dr > 0real,
    ;
    let kd = (di * k) as real;
    assert(kd == dr * kr) by (nonlinear_arith)
        requires
            kd == (di * k) as real,
            dr == di as real,
            kr == k as real,
    ;
    assert(q >= 1000000000000real) by (nonlinear_arith)
        requires
            q * dr == nr,
            nr >= 18446744073709551616real,
            0real < dr <= 16777216real,
    ;
    let f = q - kr;
    assert(f * dr == rr) by (nonlinear_arith)
        requires
            q * dr == nr,
            nr == dr * kr + rr,
            f == q - kr,
    ;
    assert(0real <= f < 1real && (rr == 0real ==> f == 0real)) by (nonlinear_arith)
        requires
            f * dr == rr,
            0real <= rr < dr,
            dr > 0real,
    ;
    assert(rr > 0real ==> f > 0real) by (nonlinear_arith)
        requires
            f * dr == rr,
            dr > 0real,
    ;
}

/// A quotient is the number nearest to the exact one: it is off by at most half of a last place, which is a
/// share of 2^-24 and a little for where the remainder lies.
pub proof fn law_quotients_are_nearest(a: F32, b: F32)
    requires
        a.is_finite_spec(),
        b.is_finite_spec(),
        !b.is_zero_spec(),
        -power(127) <= a.value() / b.value() <= power(127),
    ensures
        ({
            let x = a.value() / b.value();
            let size = if x < 0real {
                -x
            } else {
                x
            };
            near(a.div_spec(b), x, size / 16776000real + power(-150))
        }),
{
    reveal(F32::div_spec);
    reveal(is_near);
    law_division_is_off_by_a_share(a, b);
    let neg = a.is_neg_spec() != b.is_neg_spec();
    let (n, d) = (a.sig(), b.sig());
    let g = a.exp() - b.exp() - 64;
    let nn = n * 0x1_0000_0000_0000_0000;
    let s = sticky_quotient(nn, d);
    let r = a.div_spec(b);
    let x = a.value() / b.value();
    lemma_sign(a);
    lemma_sign(b);
    lemma_power_step(-150);
    if n == 0 {
        let z = b.value();
        assert(x == 0real) by (nonlinear_arith)
            requires
                x == 0real / z,
                z != 0real,
        ;
        lemma_div(a, b);
        lemma_zero();
        lemma_within(r, 0real, F32::zero_spec(), F32::zero_spec());
    } else {
        assert(r == round_signed(with_sign(neg, s), g - 1, neg));
        lemma_round_signed(with_sign(neg, s), g - 1, neg);
        lemma_sticky_quotient(n, d);
        let (p, q) = (n as real * power(a.exp()), d as real * power(b.exp()));
        let y = p / q;
        assert(x == if neg { -y } else { y }) by (nonlinear_arith)
            requires
                x == (if a.is_neg_spec() { -p } else { p }) / (if b.is_neg_spec() { -q } else { q }),
                neg == (a.is_neg_spec() != b.is_neg_spec()),
                y == p / q,
                q > 0real,
        ;
        // y == (nn / d) * 2^g
        lemma_scaled(n as int, 64, a.exp());
        lemma2_to64();
        lemma2_to64_rest();
        lemma_power_adds(g, b.exp());
        let (u, v, w) = (power(g), power(b.exp()), power(a.exp() - 64));
        lemma_power_step(b.exp());
        lemma_power_step(g);
        lemma_power_step(g - 1);
        let (nr, dr, h) = (nn as real, d as real, power(g - 1));
        let k = nr / dr;
        assert(y == k * u) by (nonlinear_arith)
            requires
                y == p / q,
                p == nr * w,
                q == dr * v,
                w == u * v,
                k == nr / dr,
                v > 0real,
                dr > 0real,
        {
            assert(k * dr == nr);
            assert((k * u) * (dr * v) == (k * dr) * (u * v));
            assert((k * u) * q == p);
        }
        let sr = s as real;
        let t = sr * h;
        assert(u == 2real * h);
        assert(-(y / 1000000000000real) <= t - y <= y / 1000000000000real && y >= 0real) by (nonlinear_arith)
            requires
                t == sr * h,
                y == k * u,
                u == 2real * h,
                h > 0real,
                k >= 1000000000000real,
                -1real <= sr - 2real * k <= 1real,
        {
            assert(t - y == (sr - 2real * k) * h);
            assert(-h <= (sr - 2real * k) * h <= h);
            assert(k * h >= 1000000000000real * h);
        }
        assert((-sr) * h == -(sr * h)) by (nonlinear_arith);
        assert(with_sign(neg, s) as real * h == if neg { -t } else { t });
        let c = power(-24);
        assert(c == 1real / 16777216real);
        assert(t * c == t / 16777216real) by (nonlinear_arith)
            requires
                c == 1real / 16777216real,
        ;
        assert(t >= 0real);
    }
}

// ------------------------------------------------------------------ square roots

proof fn lemma_root_exists(n: nat) -> (r: nat)
    ensures
        is_root(n, r),
    decreases n,
{
    if n == 0 {
        assert(is_root(0, 0)) by (nonlinear_arith);
        0
    } else {
        let s = lemma_root_exists((n - 1) as nat);
        let r = s + 1;
        if r * r <= n {
            assert(n < (r + 1) * (r + 1)) by (nonlinear_arith)
                requires
                    n - 1 < r * r,
                    r >= 0,
            ;
            r
        } else {
            s
        }
    }
}

/// Twice the root of a large integer, squared.
proof fn lemma_sticky_root(n: nat)
    requires
        n >= 0x1000_0000_0000_0000,
    ensures
        ({
            let (s, m) = (sticky_root(n) as real, n as real);
            s >= 2147483648real && -(4real * m / 268435456real) <= s * s - 4real * m <= 4real * m
                / 268435456real
        }),
{
    let w = lemma_root_exists(n);
    let r = int_root(n);
    assert(is_root(n, r));
    assert(r >= 0x4000_0000) by (nonlinear_arith)
        requires
            n < (r + 1) * (r + 1),
            n >= 0x1000_0000_0000_0000,
            r >= 0,
    ;
    let s = sticky_root(n);
    let e = s * s - 4 * n;
    assert(-(4 * r + 3) <= e <= 4 * r + 3) by (nonlinear_arith)
        requires
            r * r <= n < (r + 1) * (r + 1),
            s == 2 * r + (if r * r == n {
                0int
            } else {
                1int
            }),
            e == s * s - 4 * n,
    {
        assert((2 * r + 1) * (2 * r + 1) == 4 * (r * r) + 4 * r + 1);
        assert((r + 1) * (r + 1) == r * r + 2 * r + 1);
        assert((2 * r) * (2 * r) == 4 * (r * r));
    }
    assert(268435456 * (4 * r + 3) <= 4 * n) by (nonlinear_arith)
        requires
            r * r <= n,
            r >= 0x4000_0000,
    {
        assert(r * r >= 0x4000_0000 * r);
    }
    let (sr, nr) = (s as real, n as real);
    assert(sr * sr == (s * s) as real) by (nonlinear_arith)
        requires
            sr == s as real,
    ;
}

/// The square of a square root is the number, to within a share of little more than 2^-23: the root itself
/// is off by half of its last place at most.
pub proof fn law_a_root_squares_back(x: F32)
    requires
        x.is_finite_spec(),
        x.value() >= 0real,
    ensures
        ({
            let (r, v) = (x.sqrt_spec(), x.value());
            &&& r.is_finite_spec() && r.value() >= 0real
            &&& -(v / 8000000real) <= r.value() * r.value() - v <= v / 8000000real
        }),
{
    reveal(F32::sqrt_spec);
    lemma_sign(x);
    let v = x.value();
    if x.is_zero_spec() {
        assert(0real * 0real == 0real) by (nonlinear_arith);
    } else {
        let even = x.exp() % 2 == 0;
        let n = if even {
            x.sig() * 0x1000_0000_0000_0000
        } else {
            2 * x.sig() * 0x1000_0000_0000_0000
        };
        let e = if even {
            x.exp() / 2 - 31
        } else {
            (x.exp() - 1) / 2 - 31
        };
        let s = sticky_root(n);
        let r = x.sqrt_spec();
        assert(x.sig() >= 1);
        lemma_sticky_root(n);
        assert(s > 0);
        assert(round32(s, e) <= 0x7f80_0000);
        assert(r == crate::float::round_signed(s as int, e, false));
        lemma_round_signed(s as int, e, false);
        let (sr, p) = (s as real, power(e));
        let z = sr * p;
        // z * z is next to the number
        lemma_power_adds(e, e);
        lemma_power_step(e);
        let pp = power(2 * e);
        lemma_power_step(2 * e);
        assert(p * p == pp);
        assert(z * z == (sr * sr) * pp) by (nonlinear_arith)
            requires
                z == sr * p,
                p * p == pp,
        ;
        let nr = n as real;
        assert(4real * nr * pp == v) by {
            lemma2_to64();
            lemma2_to64_rest();
            let k: int = if even {
                62
            } else {
                63
            };
            lemma_power_adds(k, 2 * e);
            assert(k + 2 * e == x.exp());
            let (q, g) = (power(k), x.sig() as real);
            if even {
                assert(q == 4611686018427387904real);
                assert(nr == 1152921504606846976real * g);
            } else {
                assert(q == 9223372036854775808real);
                assert(nr == 2305843009213693952real * g);
            }
            assert(4real * nr == g * q) by (nonlinear_arith)
                requires
                    q == 4611686018427387904real && nr == 1152921504606846976real * g || q
                        == 9223372036854775808real && nr == 2305843009213693952real * g,
            ;
            assert((g * q) * pp == g * (q * pp)) by (nonlinear_arith);
        }
        let w = sr * sr - 4real * nr;
        let b = 4real * nr / 268435456real;
        assert(-(b * pp) <= w * pp <= b * pp) by (nonlinear_arith)
            requires
                -b <= w <= b,
                pp > 0real,
        ;
        assert(b * pp == v / 268435456real) by (nonlinear_arith)
            requires
                b == 4real * nr / 268435456real,
                4real * nr * pp == v,
        ;
        assert((sr * sr) * pp == 4real * nr * pp + w * pp) by (nonlinear_arith)
            requires
                w == sr * sr - 4real * nr,
        ;
        assert(-(v / 268435456real) <= z * z - v <= v / 268435456real);
        // z is neither small nor large
        lemma_root_in_range(x, z, sr, e);
        reveal(is_near);
        lemma2_to64();
        assert(power(-24) == 1real / 16777216real);
        assert(z * power(-24) == z / 16777216real) by (nonlinear_arith)
            requires
                power(-24) == 1real / 16777216real,
        ;
        let d = r.value() - z;
        let c = z / 16777216real;
        assert(-c <= d <= c);
        let (zd, dd, zz) = (z * d, d * d, z * z);
        assert(-(zz / 16777216real) <= zd <= zz / 16777216real && 0real <= dd <= zz / 1000000000real)
            by (nonlinear_arith)
            requires
                zd == z * d,
                dd == d * d,
                zz == z * z,
                -c <= d <= c,
                c == z / 16777216real,
                z > 0real,
        {
            assert(z * d <= z * c && -(z * c) <= z * d);
            assert(z * c == zz / 16777216real);
            assert(d * d <= c * c);
            assert(c * c <= z * c / 1000real);
            assert(z * c / 1000real <= zz / 1000000000real);
        }
        let rv = r.value();
        assert(rv * rv == zz + 2real * zd + dd) by (nonlinear_arith)
            requires
                rv == z + d,
                zd == z * d,
                dd == d * d,
                zz == z * z,
        ;
        assert(2real * zz / 16777216real + zz / 1000000000real + v / 268435456real <= v / 8000000real);
        assert(rv >= 0real);
    }
}

/// The root before it is rounded: finite, and large enough for its rounding to be a share of it.
proof fn lemma_root_in_range(x: F32, z: real, s: real, e: int)
    requires
        x.is_finite_spec(),
        x.value() > 0real,
        z == s * power(e),
        s >= 2147483648real,
        e >= -106,
        z * z <= 2real * x.value(),
        is_rounding(x.sqrt_spec(), z),
    ensures
        x.sqrt_spec().is_finite_spec(),
        z > 0real,
        power(-150) <= z * power(-24),
{
    lemma2_to64();
    lemma2_to64_rest();
    let p = power(e);
    lemma_power_monotonic(-106, e);
    let q = power(-106);
    assert(z >= 2147483648real * q) by (nonlinear_arith)
        requires
            z == s * p,
            s >= 2147483648real,
            p >= q,
            q > 0real,
    ;
    lemma_power_adds(-106, -24);
    lemma_power_monotonic(-150, -130);
    let u = power(-24);
    lemma_power_step(-24);
    assert(z * u >= q * u) by (nonlinear_arith)
        requires
            z >= q,
            u > 0real,
    ;
    // below 2^65
    crate::exponential::lemma_bounded(x);
    let top = power(65);
    lemma_power_step(65);
    lemma_power_adds(65, 65);
    lemma_power_monotonic(129, 130);
    lemma_power_step(128);
    assert(z <= top) by (nonlinear_arith)
        requires
            z * z <= top * top,
            z > 0real,
            top > 0real,
    ;
    let big = bits(0x6000_0000);
    lemma_power_adds(23, 42);
    assert(power(23) == 8388608real);
    let h = power(42);
    assert(power(23) * h == 8388608real * h) by (nonlinear_arith)
        requires
            power(23) == 8388608real,
    ;
    assert(big.sig() == 0x80_0000 && big.exp() == 42 && !big.is_neg_spec());
    assert(big.value() == top);
    lemma_zero();
    lemma_within(x.sqrt_spec(), z, F32::zero_spec(), big);
}

} // verus!
