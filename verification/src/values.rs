//! What numbers stand for, as reals, and how far a rounded result lies from the exact one.

use crate::float::{
    law_a_number_rounds_to_itself, round32, round_signed, round_sum, sticky_quotient, with_sign, F32,
};
use crate::rounding::{
    bit_len, last_place, lemma_bit_len_bounds, lemma_pow2_monotonic, lemma_round_to_scaled,
    pattern_exp, pattern_sig, round_half_even, round_to,
};
use vstd::arithmetic::div_mod::*;
use vstd::arithmetic::mul::*;
use vstd::arithmetic::power2::*;
use vstd::prelude::*;

verus! {

// ------------------------------------------------------------------ powers of two

/// `2^e`.
pub open spec fn power(e: int) -> real {
    if e >= 0 {
        pow2(e as nat) as real
    } else {
        1real / (pow2((-e) as nat) as real)
    }
}

/// From one power of two to the next.
pub proof fn lemma_power_step(e: int)
    ensures
        power(e) > 0real,
        power(e + 1) == 2real * power(e),
{
    lemma2_to64();
    if e >= 0 {
        lemma_pow2_unfold((e + 1) as nat);
        lemma_pow2_pos(e as nat);
    } else {
        lemma_pow2_unfold((-e) as nat);
        lemma_pow2_pos((-e) as nat);
        lemma_pow2_pos((-e - 1) as nat);
        let a = pow2((-e) as nat) as real;
        let b = pow2((-e - 1) as nat) as real;
        assert(a == 2real * b);
        assert(1real / b == 2real * (1real / a)) by (nonlinear_arith)
            requires
                a == 2real * b,
                b > 0real,
        ;
        assert(1real / a > 0real) by (nonlinear_arith)
            requires
                a > 0real,
        ;
        if e == -1 {
            assert(b == 1real);
            assert(1real / b == 1real) by (nonlinear_arith)
                requires
                    b == 1real,
            ;
        }
        assert(power(e + 1) == 1real / b);
    }
}

/// The product of two powers of two.
pub proof fn lemma_power_adds(a: int, b: int)
    ensures
        power(a + b) == power(a) * power(b),
    decreases (if b >= 0 { b } else { -b }),
{
    lemma2_to64();
    if b > 0 {
        lemma_power_adds(a, b - 1);
        lemma_power_step(a + b - 1);
        lemma_power_step(b - 1);
        let (x, y, z) = (power(a), power(b - 1), power(b));
        assert(2real * (x * y) == x * z) by (nonlinear_arith)
            requires
                z == 2real * y,
        ;
    } else if b < 0 {
        lemma_power_adds(a, b + 1);
        lemma_power_step(a + b);
        lemma_power_step(b);
        let (x, y, z) = (power(a), power(b), power(b + 1));
        assert(x * z == 2real * (x * y)) by (nonlinear_arith)
            requires
                z == 2real * y,
        ;
    } else {
        assert(power(0) == 1real);
    }
}

/// A higher power of two is not less.
pub proof fn lemma_power_monotonic(a: int, b: int)
    requires
        a <= b,
    ensures
        0real < power(a) <= power(b),
    decreases b - a,
{
    lemma_power_step(a);
    if a < b {
        lemma_power_monotonic(a, b - 1);
        lemma_power_step(b - 1);
    }
}

/// `n * 2^k` for integers, as a real.
pub proof fn lemma_scaled(n: int, k: nat, e: int)
    ensures
        (n * pow2(k)) as real * power(e - k) == n as real * power(e),
{
    lemma_power_adds(k as int, e - k);
    let (x, p) = (n as real, pow2(k) as real);
    assert((n * pow2(k)) as real == x * p) by (nonlinear_arith)
        requires
            x == n as real,
            p == pow2(k) as real,
    ;
    let y = power(e - k);
    assert((x * p) * y == x * (p * y)) by (nonlinear_arith);
}

// ------------------------------------------------------------------ rounding

proof fn lemma_bit_len_monotonic(m: nat, n: nat)
    requires
        0 < m <= n,
    ensures
        bit_len(m) <= bit_len(n),
{
    lemma_bit_len_bounds(m);
    lemma_bit_len_bounds(n);
    if bit_len(m) > bit_len(n) {
        lemma_pow2_monotonic(bit_len(n), (bit_len(m) - 1) as nat);
    }
}

proof fn lemma_half_even_monotonic(m: nat, n: nat, k: nat)
    requires
        m <= n,
    ensures
        round_half_even(m, k) <= round_half_even(n, k),
{
    let p = pow2(k) as int;
    lemma_pow2_pos(k);
    lemma_div_is_ordered(m as int, n as int, p);
    lemma_fundamental_div_mod(m as int, p);
    lemma_fundamental_div_mod(n as int, p);
}

/// The significand that rounding keeps, at the last place that it keeps.
pub open spec fn kept(prec: nat, unit: int, m: nat, e: int) -> nat {
    let u = last_place(prec, unit, m, e);
    if u <= e {
        m * pow2((e - u) as nat)
    } else {
        round_half_even(m, (u - e) as nat)
    }
}

/// What rounding keeps has at most `prec` digits, but for a carry, and it has `prec` digits unless
/// the last place is the least there is. It is at most half a last place off.
proof fn lemma_kept(prec: nat, unit: int, m: nat, e: int)
    requires
        prec >= 2,
        m > 0,
    ensures
        ({
            let u = last_place(prec, unit, m, e);
            let q = kept(prec, unit, m, e);
            let x = m as real * power(e);
            &&& q <= 2 * pow2((prec - 1) as nat)
            &&& u > unit ==> q >= pow2((prec - 1) as nat) && x >= power(u + prec - 1)
            &&& u >= unit
            &&& -power(u - 1) <= q as real * power(u) - x <= power(u - 1)
        }),
{
    let u = last_place(prec, unit, m, e);
    let q = kept(prec, unit, m, e);
    let bl = bit_len(m);
    let x = m as real * power(e);
    lemma_bit_len_bounds(m);
    lemma_pow2_unfold(prec);
    let top = pow2((prec - 1) as nat);
    lemma_power_step(u - 1);
    lemma_power_step(u);
    if u > unit {
        // u + prec == bl + e
        lemma_power_adds((bl - 1) as int, e);
        lemma_power_step(e);
        let (a, b, c) = (m as real, pow2((bl - 1) as nat) as real, power(e));
        assert(a * c >= b * c) by (nonlinear_arith)
            requires
                a >= b,
                c > 0real,
        ;
        assert(bl - 1 + e == u + prec - 1);
    }
    if u <= e {
        let k = (e - u) as nat;
        lemma_scaled(m as int, k, e);
        lemma_pow2_adds(bl, k);
        lemma_pow2_adds((bl - 1) as nat, k);
        lemma_pow2_pos(k);
        assert(pow2((bl - 1) as nat) * pow2(k) <= q < pow2(bl) * pow2(k)) by (nonlinear_arith)
            requires
                pow2((bl - 1) as nat) <= m < pow2(bl),
                q == m * pow2(k),
                pow2(k) > 0,
        ;
        assert(bl + k <= prec);
        lemma_pow2_monotonic(bl + k, prec);
        if u > unit {
            assert((bl - 1) as nat + k == (prec - 1) as nat);
        }
    } else {
        let k = (u - e) as nat;
        let p = pow2(k) as int;
        lemma_pow2_pos(k);
        lemma_fundamental_div_mod(m as int, p);
        let q0 = m as int / p;
        let r = m as int % p;
        assert(-p <= 2 * (q * p - m) <= p) by {
            assert(q0 * p - m == -r && (q0 + 1) * p - m == p - r) by (nonlinear_arith)
                requires
                    m == p * q0 + r,
            ;
        }
        lemma_scaled(q as int, k, u);
        lemma_scaled(1, k, u);
        let (d, w) = ((q * p - m) as real, power(e));
        lemma_power_step(e);
        assert(q as real * power(u) - x == d * w) by (nonlinear_arith)
            requires
                q as real * power(u) == (q * p) as real * w,
                x == m as real * w,
                d == (q * p) as real - m as real,
        ;
        assert(2real * d <= p as real && 2real * d >= -(p as real));
        let h = power(u - 1);
        assert(2real * h == p as real * w);
        assert(-h <= d * w <= h) by (nonlinear_arith)
            requires
                2real * h == p as real * w,
                2real * d <= p as real,
                2real * d >= -(p as real),
                w > 0real,
        ;
        // the number of digits
        lemma_pow2_adds((prec - 1) as nat, k);
        lemma_pow2_adds(prec, k);
        assert(bl <= prec + k);
        lemma_pow2_monotonic(bl, prec + k);
        assert(q0 < pow2(prec)) by (nonlinear_arith)
            requires
                m == p * q0 + r,
                r >= 0,
                p > 0,
                m < pow2(prec) * p,
        ;
        if u > unit {
            assert(bl - 1 == (prec - 1) + k);
            assert(q0 >= top) by (nonlinear_arith)
                requires
                    m == p * q0 + r,
                    r < p,
                    p > 0,
                    m >= top * p,
            ;
        }
    }
}

/// A larger value is not rounded to a lesser pattern.
pub proof fn lemma_round_to_monotonic(prec: nat, unit: int, inf: nat, m: nat, n: nat, e: int)
    requires
        prec >= 2,
        m <= n,
    ensures
        round_to(prec, unit, inf, m, e) <= round_to(prec, unit, inf, n, e),
{
    if m > 0 {
        lemma_bit_len_monotonic(m, n);
        lemma_kept(prec, unit, m, e);
        lemma_kept(prec, unit, n, e);
        let (u, v) = (last_place(prec, unit, m, e), last_place(prec, unit, n, e));
        let (q, r) = (kept(prec, unit, m, e), kept(prec, unit, n, e));
        let top = pow2((prec - 1) as nat);
        if u == v {
            if u <= e {
                lemma_mul_inequality(m as int, n as int, pow2((e - u) as nat) as int);
            } else {
                lemma_half_even_monotonic(m, n, (u - e) as nat);
            }
        } else {
            assert((u - unit) as nat * top + q <= (v - unit) as nat * top + r) by (nonlinear_arith)
                requires
                    u + 1 <= v,
                    u >= unit,
                    q <= 2 * top,
                    r >= top,
            ;
        }
    }
}

/// The pattern that a value is rounded to stands for what rounding keeps.
pub proof fn lemma_kept_value(prec: nat, unit: int, inf: nat, m: nat, e: int)
    requires
        prec >= 2,
        m > 0,
        round_to(prec, unit, inf, m, e) < inf,
    ensures
        ({
            let p = round_to(prec, unit, inf, m, e);
            pattern_sig(prec, p) as real * power(pattern_exp(prec, unit, p)) == kept(
                prec,
                unit,
                m,
                e,
            ) as real * power(last_place(prec, unit, m, e))
        }),
{
    let p = round_to(prec, unit, inf, m, e);
    let top = pow2((prec - 1) as nat) as int;
    lemma_pow2_pos((prec - 1) as nat);
    lemma_kept(prec, unit, m, e);
    let u = last_place(prec, unit, m, e);
    let q = kept(prec, unit, m, e) as int;
    assert(p == (u - unit) * top + q);
    if q < top {
        assert((u - unit) * top == 0) by (nonlinear_arith)
            requires
                u == unit,
        ;
    } else if q < 2 * top {
        assert(p == (u - unit + 1) * top + (q - top)) by (nonlinear_arith)
            requires
                p == (u - unit) * top + q,
        ;
        lemma_fundamental_div_mod_converse(p as int, top, u - unit + 1, q - top);
        assert(p >= top) by (nonlinear_arith)
            requires
                p == (u - unit) * top + q,
                u >= unit,
                q >= top,
        ;
    } else {
        assert(p == (u - unit + 2) * top + 0) by (nonlinear_arith)
            requires
                p == (u - unit) * top + q,
                q == 2 * top,
        ;
        lemma_fundamental_div_mod_converse(p as int, top, u - unit + 2, 0);
        assert(p >= top) by (nonlinear_arith)
            requires
                p == (u - unit) * top + q,
                u >= unit,
                q >= top,
        ;
        lemma_power_step(u);
        let (a, b) = (top as real, power(u));
        assert(a * (2real * b) == (2real * a) * b) by (nonlinear_arith);
    }
}

/// The value of the pattern that a value is rounded to.
pub proof fn lemma_round_to_value(prec: nat, unit: int, inf: nat, m: nat, e: int)
    requires
        prec >= 2,
        round_to(prec, unit, inf, m, e) < inf,
    ensures
        ({
            let p = round_to(prec, unit, inf, m, e);
            let v = pattern_sig(prec, p) as real * power(pattern_exp(prec, unit, p));
            let x = m as real * power(e);
            let near = power(-(prec as int));
            &&& -(x * near) <= v - x <= x * near || -power(unit - 1) <= v - x <= power(unit - 1)
            &&& last_place(prec, unit, m, e) <= e ==> v == x
        }),
{
    let p = round_to(prec, unit, inf, m, e);
    let x = m as real * power(e);
    let top = pow2((prec - 1) as nat) as int;
    lemma_pow2_pos((prec - 1) as nat);
    lemma_power_step(unit - 1);
    lemma_power_step(e);
    if m == 0 {
        assert(pattern_sig(prec, p) == 0);
        assert(0real * power(pattern_exp(prec, unit, p)) == 0real) by (nonlinear_arith);
        assert(x == 0real) by (nonlinear_arith)
            requires
                x == m as real * power(e),
                m == 0,
        ;
    } else {
        lemma_kept(prec, unit, m, e);
        let u = last_place(prec, unit, m, e);
        let q = kept(prec, unit, m, e) as int;
        let v = pattern_sig(prec, p) as real * power(pattern_exp(prec, unit, p));
        lemma_kept_value(prec, unit, inf, m, e);
        assert(v == q as real * power(u));
        if u <= e {
            lemma_scaled(m as int, (e - u) as nat, e);
        }
        if u > unit {
            let near = power(-(prec as int));
            lemma_power_adds(u + prec - 1, -(prec as int));
            lemma_power_step(-(prec as int));
            let w = power(u + prec - 1);
            assert(x * near >= w * near) by (nonlinear_arith)
                requires
                    x >= w,
                    near > 0real,
            ;
        }
    }
}

// ------------------------------------------------------------------ values

impl F32 {
    /// What a finite number stands for.
    pub open spec fn value(self) -> real {
        if self.is_neg_spec() {
            -(self.sig() as real * power(self.exp()))
        } else {
            self.sig() as real * power(self.exp())
        }
    }
}

/// Whether `r` is a number that `x` rounds to: no number lies between them.
#[verifier::opaque]
pub open spec fn is_rounding(r: F32, x: real) -> bool {
    &&& !r.is_nan_spec()
    &&& forall|c: F32|
        #![trigger c.value()]
        c.is_finite_spec() ==> (x <= c.value() ==> r.order() <= c.order()) && (c.value() <= x
            ==> c.order() <= r.order())
}

/// Whether `r`, if it is finite, is no further from `x` than half a last place.
#[verifier::opaque]
pub open spec fn is_near(r: F32, x: real) -> bool {
    let y = if x < 0real {
        -x
    } else {
        x
    };
    r.is_finite_spec() ==> -(y * power(-24)) <= r.value() - x <= y * power(-24) || -power(-150)
        <= r.value() - x <= power(-150)
}

proof fn lemma_round32_monotonic(m: nat, e: int, n: nat, f: int)
    requires
        m as real * power(e) <= n as real * power(f),
    ensures
        round32(m, e) <= round32(n, f),
{
    let g = if e < f {
        e
    } else {
        f
    };
    let (j, k) = ((e - g) as nat, (f - g) as nat);
    lemma_round_to_scaled(24, -149, 0x7f80_0000, m, e, j);
    lemma_round_to_scaled(24, -149, 0x7f80_0000, n, f, k);
    lemma_scaled(m as int, j, e);
    lemma_scaled(n as int, k, f);
    lemma_power_step(g);
    let (a, b) = (m * pow2(j), n * pow2(k));
    let (x, y, p) = (a as real, b as real, power(g));
    assert(x <= y) by (nonlinear_arith)
        requires
            x * p <= y * p,
            p > 0real,
    ;
    lemma_round_to_monotonic(24, -149, 0x7f80_0000, a, b, g);
}

pub proof fn lemma_sign(c: F32)
    requires
        c.is_finite_spec(),
    ensures
        c.order() > 0 <==> c.value() > 0real,
        c.order() < 0 <==> c.value() < 0real,
        c.is_zero_spec() <==> c.value() == 0real,
        c.sig() as real * power(c.exp()) >= 0real,
{
    lemma_power_step(c.exp());
    let (a, b) = (c.sig() as real, power(c.exp()));
    if c.sig() > 0 {
        assert(a * b > 0real) by (nonlinear_arith)
            requires
                a > 0real,
                b > 0real,
        ;
    } else {
        assert(a * b == 0real) by (nonlinear_arith)
            requires
                a == 0real,
        ;
    }
}

/// The order of numbers is the order of what they stand for.
pub proof fn lemma_order(x: F32, y: F32)
    requires
        x.is_finite_spec(),
        y.is_finite_spec(),
    ensures
        x.order() <= y.order() <==> x.value() <= y.value(),
{
    lemma_sign(x);
    lemma_sign(y);
    law_a_number_rounds_to_itself(x);
    law_a_number_rounds_to_itself(y);
    if x.value() <= y.value() {
        if x.order() > 0 {
            lemma_round32_monotonic(x.sig(), x.exp(), y.sig(), y.exp());
        } else if y.order() < 0 {
            lemma_round32_monotonic(y.sig(), y.exp(), x.sig(), x.exp());
        }
    } else {
        if y.order() > 0 {
            lemma_round32_monotonic(y.sig(), y.exp(), x.sig(), x.exp());
        } else if x.order() < 0 {
            lemma_round32_monotonic(x.sig(), x.exp(), y.sig(), y.exp());
        }
    }
}

proof fn lemma_round_signed_order(s: int, e: int, z: bool, c: F32)
    requires
        c.is_finite_spec(),
    ensures
        !round_signed(s, e, z).is_nan_spec(),
        s as real * power(e) <= c.value() ==> round_signed(s, e, z).order() <= c.order(),
        c.value() <= s as real * power(e) ==> c.order() <= round_signed(s, e, z).order(),
{
    lemma_sign(c);
    law_a_number_rounds_to_itself(c);
    lemma_power_step(e);
    let (a, b) = (s as real, power(e));
    let x = a * b;
    let m = if s < 0 {
        (-s) as nat
    } else {
        s as nat
    };
    assert(round32(m, e) <= 0x7f80_0000);
    if s == 0 {
        assert(x == 0real) by (nonlinear_arith)
            requires
                x == a * b,
                a == 0real,
        ;
    } else if s > 0 {
        assert(x > 0real) by (nonlinear_arith)
            requires
                x == a * b,
                a > 0real,
                b > 0real,
        ;
        if x <= c.value() {
            lemma_round32_monotonic(m, e, c.sig(), c.exp());
        } else if c.order() > 0 {
            lemma_round32_monotonic(c.sig(), c.exp(), m, e);
        }
        if c.value() == x {
            lemma_round32_monotonic(c.sig(), c.exp(), m, e);
        }
    } else {
        assert(x < 0real && -x == m as real * b) by (nonlinear_arith)
            requires
                x == a * b,
                a < 0real,
                b > 0real,
                m as real == -a,
        ;
        if c.value() <= x {
            lemma_round32_monotonic(m, e, c.sig(), c.exp());
        } else if c.order() < 0 {
            lemma_round32_monotonic(c.sig(), c.exp(), m, e);
        }
        if c.value() == x {
            lemma_round32_monotonic(c.sig(), c.exp(), m, e);
        }
    }
}

proof fn lemma_pattern(x: F32)
    ensures
        pattern_sig(24, x.mag()) == x.sig(),
        pattern_exp(24, -149, x.mag()) == x.exp(),
{
    lemma2_to64();
}

pub proof fn lemma_round_signed(s: int, e: int, z: bool)
    ensures
        is_rounding(round_signed(s, e, z), s as real * power(e)),
        is_near(round_signed(s, e, z), s as real * power(e)),
{
    reveal(is_rounding);
    reveal(is_near);
    let r = round_signed(s, e, z);
    let x = s as real * power(e);
    assert forall|c: F32| #![trigger c.value()] c.is_finite_spec() implies (x <= c.value()
        ==> r.order() <= c.order()) && (c.value() <= x ==> c.order() <= r.order()) by {
        lemma_round_signed_order(s, e, z, c);
    }
    lemma_round_signed_order(s, e, z, F32::zero_spec());
    let m = if s < 0 {
        (-s) as nat
    } else {
        s as nat
    };
    assert(round32(m, e) <= 0x7f80_0000);
    lemma_power_step(e);
    let (a, b) = (m as real, power(e));
    assert(a * b >= 0real) by (nonlinear_arith)
        requires
            a >= 0real,
            b > 0real,
    ;
    assert(s >= 0 ==> x == a * b);
    assert(s < 0 ==> x == -(a * b)) by (nonlinear_arith)
        requires
            x == s as real * b,
            s < 0 ==> a == -(s as real),
    ;
    if r.is_finite_spec() {
        assert(r.mag() == round32(m, e));
        lemma_pattern(r);
        lemma_sign(r);
        lemma_power_step(-150);
        lemma_round_to_value(24, -149, 0x7f80_0000, m, e);
        let v = r.sig() as real * power(r.exp());
        let (y, n) = (a * b, power(-24));
        assert(-(y * n) <= v - y <= y * n || -power(-150) <= v - y <= power(-150));
        if s == 0 {
            assert(x == 0real) by (nonlinear_arith)
                requires
                    x == s as real * b,
                    s == 0,
            ;
            assert(r.is_zero_spec());
        }
    }
}

/// No number lies between a value and what it rounds to.
pub proof fn lemma_no_number_between(r: F32, x: real, c: F32)
    requires
        is_rounding(r, x),
        c.is_finite_spec(),
    ensures
        !r.is_nan_spec(),
        x <= c.value() ==> r.order() <= c.order(),
        c.value() <= x ==> c.order() <= r.order(),
{
    reveal(is_rounding);
}

/// A number between two numbers is not rounded past them.
pub proof fn lemma_within(r: F32, x: real, lo: F32, hi: F32)
    requires
        is_rounding(r, x),
        lo.is_finite_spec(),
        hi.is_finite_spec(),
        lo.value() <= x <= hi.value(),
    ensures
        r.is_finite_spec(),
        lo.value() <= r.value() <= hi.value(),
{
    lemma_no_number_between(r, x, lo);
    lemma_no_number_between(r, x, hi);
    lemma_order(lo, r);
    lemma_order(r, hi);
}

/// The other sign negates the value.
pub proof fn lemma_neg(x: F32)
    ensures
        x.is_finite_spec() ==> x.neg_spec().is_finite_spec(),
        x.is_nan_spec() == x.neg_spec().is_nan_spec(),
        x.neg_spec().value() == -x.value(),
        x.neg_spec().order() == -x.order(),
{
}

proof fn lemma_signed_value(neg: bool, m: nat, e: int, k: nat)
    ensures
        with_sign(neg, m * pow2(k)) as real * power(e - k) == if neg {
            -(m as real * power(e))
        } else {
            m as real * power(e)
        },
{
    lemma_scaled(m as int, k, e);
    let (a, p) = ((m * pow2(k)) as real, power(e - k));
    assert((-a) * p == -(a * p)) by (nonlinear_arith);
}

proof fn lemma_sum_value(an: bool, am: nat, ae: int, bn: bool, bm: nat, be: int) -> (s: int)
    ensures
        ({
            let e = if ae < be { ae } else { be };
            let a = am as real * power(ae);
            let b = bm as real * power(be);
            &&& s == with_sign(an, am * pow2((ae - e) as nat)) + with_sign(
                bn,
                bm * pow2((be - e) as nat),
            )
            &&& s as real * power(e) == (if an { -a } else { a }) + (if bn { -b } else { b })
        }),
{
    let e = if ae < be {
        ae
    } else {
        be
    };
    lemma_signed_value(an, am, ae, (ae - e) as nat);
    lemma_signed_value(bn, bm, be, (be - e) as nat);
    let x = with_sign(an, am * pow2((ae - e) as nat));
    let y = with_sign(bn, bm * pow2((be - e) as nat));
    let (xr, yr, p) = (x as real, y as real, power(e));
    assert((xr + yr) * p == xr * p + yr * p) by (nonlinear_arith);
    x + y
}

proof fn lemma_round_sum(an: bool, am: nat, ae: int, bn: bool, bm: nat, be: int)
    ensures
        ({
            let a = am as real * power(ae);
            let b = bm as real * power(be);
            let x = (if an { -a } else { a }) + (if bn { -b } else { b });
            let r = round_sum(an, am, ae, bn, bm, be);
            is_rounding(r, x) && is_near(r, x)
        }),
{
    let e = if ae < be {
        ae
    } else {
        be
    };
    let s = lemma_sum_value(an, am, ae, bn, bm, be);
    lemma_round_signed(s, e, an && bn);
}

/// A sum is the exact sum, rounded.
pub proof fn lemma_add(a: F32, b: F32)
    requires
        a.is_finite_spec(),
        b.is_finite_spec(),
    ensures
        is_rounding(a.add_spec(b), a.value() + b.value()),
        is_near(a.add_spec(b), a.value() + b.value()),
{
    reveal(F32::add_spec);
    lemma_round_sum(a.is_neg_spec(), a.sig(), a.exp(), b.is_neg_spec(), b.sig(), b.exp());
}

proof fn lemma_product_value(a: F32, b: F32)
    ensures
        (a.sig() * b.sig()) as real * power(a.exp() + b.exp()) == (a.sig() as real * power(a.exp()))
            * (b.sig() as real * power(b.exp())),
        a.value() * b.value() == if a.is_neg_spec() != b.is_neg_spec() {
            -((a.sig() * b.sig()) as real * power(a.exp() + b.exp()))
        } else {
            (a.sig() * b.sig()) as real * power(a.exp() + b.exp())
        },
{
    lemma_power_adds(a.exp(), b.exp());
    let (s, t, p, q) = (a.sig() as real, b.sig() as real, power(a.exp()), power(b.exp()));
    assert((a.sig() * b.sig()) as real == s * t) by (nonlinear_arith)
        requires
            s == a.sig() as real,
            t == b.sig() as real,
    ;
    assert((s * t) * (p * q) == (s * p) * (t * q)) by (nonlinear_arith);
    let (x, y) = (s * p, t * q);
    assert((-x) * y == -(x * y) && x * (-y) == -(x * y) && (-x) * (-y) == x * y)
        by (nonlinear_arith);
}

/// A value below `2^k` is rounded by at most half of the last place that numbers below `2^k` have.
proof fn lemma_round_signed_below(s: int, e: int, z: bool, k: int)
    requires
        -125 <= k,
        -power(k) < s as real * power(e) < power(k),
        round_signed(s, e, z).is_finite_spec(),
    ensures
        -power(k - 25) <= round_signed(s, e, z).value() - s as real * power(e) <= power(k - 25),
{
    let r = round_signed(s, e, z);
    let x = s as real * power(e);
    let m = if s < 0 {
        (-s) as nat
    } else {
        s as nat
    };
    lemma_power_step(k - 25);
    if s == 0 {
        lemma_sign(r);
        assert(x == 0real) by (nonlinear_arith)
            requires
                x == s as real * power(e),
                s == 0,
        ;
    } else {
        assert(r.mag() == round32(m, e));
        lemma_pattern(r);
        lemma_kept(24, -149, m, e);
        let u = last_place(24, -149, m, e);
        let (a, b) = (s as real, power(e));
        let y = m as real * b;
        assert(s < 0 ==> y == -x) by (nonlinear_arith)
            requires
                x == a * b,
                y == m as real * b,
                s < 0 ==> m as real == -a,
        ;
        if u > -149 && u + 23 >= k {
            lemma_power_monotonic(k, u + 23);
        }
        assert(u - 1 <= k - 25);
        lemma_power_monotonic(u - 1, k - 25);
        lemma_kept_value(24, -149, 0x7f80_0000, m, e);
    }
}

/// A sum below `2^k` is rounded by at most half of the last place that numbers below `2^k` have.
pub proof fn lemma_add_below(a: F32, b: F32, k: int)
    requires
        a.is_finite_spec(),
        b.is_finite_spec(),
        a.add_spec(b).is_finite_spec(),
        -125 <= k,
        -power(k) < a.value() + b.value() < power(k),
    ensures
        -power(k - 25) <= a.add_spec(b).value() - (a.value() + b.value()) <= power(k - 25),
{
    reveal(F32::add_spec);
    let (an, am, ae, bn, bm, be) = (
        a.is_neg_spec(),
        a.sig(),
        a.exp(),
        b.is_neg_spec(),
        b.sig(),
        b.exp(),
    );
    let e = if ae < be {
        ae
    } else {
        be
    };
    let s = lemma_sum_value(an, am, ae, bn, bm, be);
    lemma_round_signed_below(s, e, an && bn, k);
}

/// A product is the exact product, rounded.
pub proof fn lemma_mul(a: F32, b: F32)
    requires
        a.is_finite_spec(),
        b.is_finite_spec(),
    ensures
        is_rounding(a.mul_spec(b), a.value() * b.value()),
        is_near(a.mul_spec(b), a.value() * b.value()),
{
    reveal(F32::mul_spec);
    let neg = a.is_neg_spec() != b.is_neg_spec();
    let (m, e) = (a.sig() * b.sig(), a.exp() + b.exp());
    lemma_product_value(a, b);
    let s = with_sign(neg, m);
    assert(a.mul_spec(b) == round_signed(s, e, neg));
    lemma_round_signed(s, e, neg);
    let (x, p) = (m as real, power(e));
    assert((-x) * p == -(x * p)) by (nonlinear_arith);
}

/// A product and a sum in one step are rounded once.
pub proof fn lemma_mul_add(a: F32, b: F32, c: F32)
    requires
        a.is_finite_spec(),
        b.is_finite_spec(),
        c.is_finite_spec(),
    ensures
        is_rounding(a.mul_add_spec(b, c), a.value() * b.value() + c.value()),
        is_near(a.mul_add_spec(b, c), a.value() * b.value() + c.value()),
{
    reveal(F32::mul_add_spec);
    lemma_product_value(a, b);
    lemma_round_sum(
        a.is_neg_spec() != b.is_neg_spec(),
        a.sig() * b.sig(),
        a.exp() + b.exp(),
        c.is_neg_spec(),
        c.sig(),
        c.exp(),
    );
}

/// `n / d` against `c`, for a quotient taken 64 places past the point.
proof fn lemma_sticky_order(n: nat, d: nat, g: int, c: F32, x: real)
    requires
        0 < n < 0x100_0000,
        0 < d < 0x100_0000,
        c.is_finite_spec(),
        x * d as real == (n * 0x1_0000_0000_0000_0000) as real * power(g),
    ensures
        ({
            let s = sticky_quotient(n * 0x1_0000_0000_0000_0000, d) as real * power(g - 1);
            let y = c.sig() as real * power(c.exp());
            (x <= y ==> s <= y) && (y <= x ==> y <= s)
        }),
{
    let nn = n * 0x1_0000_0000_0000_0000;
    let q = nn as int / d as int;
    let rem = nn as int % d as int;
    lemma_fundamental_div_mod(nn as int, d as int);
    let st = sticky_quotient(nn, d) as int;
    let p = power(g);
    lemma_power_step(g - 1);
    let h = power(g - 1);
    assert(p == 2real * h);
    let y = c.sig() as real * power(c.exp());
    assert(q >= 0x100_0000_0000) by (nonlinear_arith)
        requires
            nn == d * q + rem,
            rem < d,
            d < 0x100_0000,
            nn >= 0x1_0000_0000_0000_0000,
            d > 0,
    ;
    let big = 0x100_0000_0000int as real;
    let (dr, nr) = (d as real, nn as real);
    assert(x >= big * p) by (nonlinear_arith)
        requires
            x * dr == nr * p,
            nr >= big * dr,
            dr > 0real,
            p > 0real,
    {
        assert(nr * p >= (big * dr) * p);
        assert(x * dr >= (big * p) * dr);
    }
    let sr = st as real;
    assert(sr * h >= big * p) by (nonlinear_arith)
        requires
            sr >= 2real * big,
            p == 2real * h,
            h > 0real,
    ;
    if y >= big * p {
        if c.exp() < g {
            lemma_power_monotonic(c.exp(), g);
            let (a, b) = (c.sig() as real, power(c.exp()));
            assert(a * b < big * p) by (nonlinear_arith)
                requires
                    0real <= a < 16777216real,
                    0real < b <= p,
                    big == 1099511627776real,
            {
                assert(a * b <= a * p);
                assert(a * p <= 16777216real * p);
            }
        }
        let j = (c.exp() - g) as nat;
        let k = c.sig() * pow2(j);
        lemma_scaled(c.sig() as int, j, c.exp());
        let kr = k as real;
        assert(y == kr * p);
        assert(y * dr == (k * d) as real * p) by (nonlinear_arith)
            requires
                y == kr * p,
                kr == k as real,
                dr == d as real,
        ;
        let kd = (k * d) as real;
        if x <= y {
            assert(x * dr <= y * dr) by (nonlinear_arith)
                requires
                    x <= y,
                    dr > 0real,
            ;
            assert(nr <= kd) by (nonlinear_arith)
                requires
                    nr * p <= kd * p,
                    p > 0real,
            ;
            assert(k * d >= nn);
            assert(k >= q) by (nonlinear_arith)
                requires
                    k * d >= nn,
                    nn == d * q + rem,
                    rem >= 0,
                    d > 0,
            ;
            if rem > 0 {
                assert(k > q) by (nonlinear_arith)
                    requires
                        k * d >= nn,
                        nn == d * q + rem,
                        rem > 0,
                        d > 0,
                ;
            }
            assert(st <= 2 * k);
            assert(sr * h <= kr * p) by (nonlinear_arith)
                requires
                    sr <= 2real * kr,
                    p == 2real * h,
                    h > 0real,
            ;
        }
        if y <= x {
            assert(y * dr <= x * dr) by (nonlinear_arith)
                requires
                    y <= x,
                    dr > 0real,
            ;
            assert(kd <= nr) by (nonlinear_arith)
                requires
                    kd * p <= nr * p,
                    p > 0real,
            ;
            assert(k * d <= nn);
            assert(k <= q) by (nonlinear_arith)
                requires
                    k * d <= nn,
                    nn == d * q + rem,
                    rem < d,
                    d > 0,
            ;
            assert(sr * h >= kr * p) by (nonlinear_arith)
                requires
                    sr >= 2real * kr,
                    p == 2real * h,
                    h > 0real,
            ;
        }
    }
}

/// A quotient is the exact quotient, rounded.
pub proof fn lemma_div(a: F32, b: F32)
    requires
        a.is_finite_spec(),
        b.is_finite_spec(),
        !b.is_zero_spec(),
    ensures
        is_rounding(a.div_spec(b), a.value() / b.value()),
{
    reveal(F32::div_spec);
    reveal(is_rounding);
    let neg = a.is_neg_spec() != b.is_neg_spec();
    let (n, d) = (a.sig(), b.sig());
    let g = a.exp() - b.exp() - 64;
    let nn = n * 0x1_0000_0000_0000_0000;
    let s = sticky_quotient(nn, d);
    let r = a.div_spec(b);
    let x = a.value() / b.value();
    assert(r == round_signed(with_sign(neg, s), g - 1, neg));
    lemma_sign(a);
    lemma_sign(b);
    let (p, q) = (n as real * power(a.exp()), d as real * power(b.exp()));
    let y = p / q;
    assert(y * q == p) by (nonlinear_arith)
        requires
            y == p / q,
            q > 0real,
    ;
    assert(x == if neg { -y } else { y }) by (nonlinear_arith)
        requires
            x == (if a.is_neg_spec() { -p } else { p }) / (if b.is_neg_spec() { -q } else { q }),
            neg == (a.is_neg_spec() != b.is_neg_spec()),
            y == p / q,
            q > 0real,
    ;
    if n == 0 {
        assert(p == 0real);
        assert(y == 0real) by (nonlinear_arith)
            requires
                y * q == p,
                p == 0real,
                q > 0real,
        ;
        lemma_small_mod(0, d as nat);
        lemma_div_basics(d as int);
        assert(s == 0);
        lemma_round_signed(0, g - 1, neg);
        assert(0int as real * power(g - 1) == 0real) by (nonlinear_arith);
    } else {
        let dr = d as real;
        lemma_scaled(n as int, 64, a.exp());
        lemma2_to64();
        lemma2_to64_rest();
        lemma_power_adds(g, b.exp());
        let (u, v, w) = (power(g), power(b.exp()), power(a.exp() - 64));
        lemma_power_step(b.exp());
        assert(y * dr == nn as real * u) by (nonlinear_arith)
            requires
                y * (dr * v) == nn as real * w,
                w == u * v,
                v > 0real,
        {
            assert((y * dr) * v == (nn as real * u) * v);
        }
        let h = power(g - 1);
        lemma_power_step(g - 1);
        let sr = s as real;
        assert(sr * h >= 0real && (-sr) * h == -(sr * h)) by (nonlinear_arith)
            requires
                sr >= 0real,
                h > 0real,
        ;
        let t = with_sign(neg, s) as real * h;
        assert(y >= 0real) by (nonlinear_arith)
            requires
                y * q == p,
                p >= 0real,
                q > 0real,
        ;
        lemma_round_signed_order(with_sign(neg, s), g - 1, neg, F32::zero_spec());
        assert forall|c: F32| #![trigger c.value()] c.is_finite_spec() implies (x <= c.value()
            ==> r.order() <= c.order()) && (c.value() <= x ==> c.order() <= r.order()) by {
            lemma_sticky_order(n, d, g, c, y);
            lemma_sign(c);
            lemma_round_signed_order(with_sign(neg, s), g - 1, neg, c);
            if x <= c.value() {
                assert(t <= c.value());
            }
            if c.value() <= x {
                assert(c.value() <= t);
            }
        }
    }
}

/// The number `k * 2^e`, which needs no rounding.
pub open spec fn dyadic(k: int, e: int) -> F32 {
    round_signed(k, e, false)
}

/// A short significand is kept exactly.
pub proof fn lemma_dyadic(k: int, e: int)
    requires
        -0x100_0000 < k < 0x100_0000,
        -149 <= e <= 100,
    ensures
        dyadic(k, e).is_finite_spec(),
        dyadic(k, e).value() == k as real * power(e),
{
    let m = if k < 0 {
        (-k) as nat
    } else {
        k as nat
    };
    lemma2_to64();
    let r = dyadic(k, e);
    let p = power(e);
    if m == 0 {
        lemma_sign(r);
        assert(k as real * p == 0real) by (nonlinear_arith)
            requires
                k == 0,
        ;
    } else {
        lemma_bit_len_bounds(m);
        if bit_len(m) > 24 {
            lemma_pow2_monotonic(24, (bit_len(m) - 1) as nat);
        }
        let u = last_place(24, -149, m, e);
        assert(u <= e);
        lemma_kept(24, -149, m, e);
        assert(round32(m, e) < 0x7f80_0000) by {
            assert(kept(24, -149, m, e) <= 0x100_0000);
            assert((u + 149) as nat * pow2(23) <= 249 * pow2(23)) by (nonlinear_arith)
                requires
                    0 <= u + 149 <= 249,
            ;
        }
        lemma_round_to_value(24, -149, 0x7f80_0000, m, e);
        lemma_pattern(r);
        assert(r.mag() == round32(m, e));
        let a = m as real;
        assert((-a) * p == -(a * p)) by (nonlinear_arith);
    }
}

/// The digits of a finite number before and behind the point.
proof fn lemma_parts(x: F32)
    requires
        x.is_finite_spec(),
        x.exp() < 0,
    ensures
        ({
            let p = pow2((-x.exp()) as nat);
            let q = (x.sig() / p) as int;
            let v = x.sig() as real * power(x.exp());
            &&& q as real <= v < q as real + 1real
            &&& v == q as real <==> x.sig() % p == 0
        }),
{
    let k = (-x.exp()) as nat;
    let p = pow2(k) as int;
    lemma_pow2_pos(k);
    lemma_fundamental_div_mod(x.sig() as int, p);
    let (q, r) = (x.sig() as int / p, x.sig() as int % p);
    let w = power(x.exp());
    lemma_power_step(x.exp());
    lemma2_to64();
    lemma_scaled(q, k, 0);
    lemma_scaled(1, k, 0);
    let (qr, rr, pr) = ((q * p) as real, r as real, p as real);
    let v = x.sig() as real * w;
    assert(q * p + r == x.sig()) by (nonlinear_arith)
        requires
            x.sig() == p * q + r,
    ;
    assert(v == qr * w + rr * w) by (nonlinear_arith)
        requires
            v == x.sig() as real * w,
            x.sig() as real == qr + rr,
    ;
    assert(power(0) == 1real);
    assert(q as real * power(0) == q as real) by (nonlinear_arith)
        requires
            power(0) == 1real,
    ;
    assert(qr * w == q as real);
    assert(pr * w == 1real);
    assert(0real <= rr * w < 1real) by (nonlinear_arith)
        requires
            0real <= rr < pr,
            pr * w == 1real,
            w > 0real,
    ;
    assert(rr * w == 0real <==> rr == 0real) by (nonlinear_arith)
        requires
            w > 0real,
    ;
}

/// A number that stands for an integer is that integer.
pub proof fn lemma_int_part(x: F32, n: int)
    requires
        x.is_finite_spec(),
        x.value() == n as real,
    ensures
        x.int_part() == n,
        !x.has_fraction(),
{
    reveal(F32::int_part);
    reveal(F32::has_fraction);
    lemma_sign(x);
    lemma2_to64();
    let m = if x.is_neg_spec() {
        -n
    } else {
        n
    };
    let v = x.sig() as real * power(x.exp());
    assert(v == m as real);
    if x.exp() >= 0 {
        assert((x.sig() * pow2(x.exp() as nat)) as real == v) by (nonlinear_arith)
            requires
                v == x.sig() as real * (pow2(x.exp() as nat) as real),
        ;
    } else {
        lemma_parts(x);
        let q = (x.sig() / pow2((-x.exp()) as nat)) as int;
        assert(q <= m);
        assert(m < q + 1);
        assert(m == q);
        assert(v == q as real);
    }
}

/// The greatest integer not above a number.
pub proof fn lemma_floor(x: F32) -> (n: int)
    requires
        x.is_finite_spec(),
        -0x10_0000real <= x.value() <= 0x10_0000real,
    ensures
        x.floor_spec().is_finite_spec(),
        x.floor_spec().value() == n as real,
        x.floor_spec().to_i32_spec() == n,
        n as real <= x.value() < n as real + 1real,
{
    reveal(F32::int_part);
    reveal(F32::has_fraction);
    reveal(F32::of_int);
    lemma_sign(x);
    lemma2_to64();
    let v = x.sig() as real * power(x.exp());
    let n = if x.exp() >= 0 {
        let m = (x.sig() * pow2(x.exp() as nat)) as int;
        assert(m as real == v) by (nonlinear_arith)
            requires
                m == x.sig() * pow2(x.exp() as nat),
                v == x.sig() as real * (pow2(x.exp() as nat) as real),
        ;
        with_sign(x.is_neg_spec(), m as nat)
    } else {
        lemma_parts(x);
        let q = (x.sig() / pow2((-x.exp()) as nat)) as int;
        if !x.has_fraction() {
            with_sign(x.is_neg_spec(), q as nat)
        } else if x.is_neg_spec() {
            -q - 1
        } else {
            q
        }
    };
    if x.exp() < 0 && x.is_neg_spec() && x.has_fraction() {
        let q = (x.sig() / pow2((-x.exp()) as nat)) as int;
        assert(v != q as real);
        assert(n == -q - 1);
        assert(n as real == -(q as real) - 1real);
    }
    assert(n as real <= x.value());
    assert(x.value() < n as real + 1real);
    if x.has_fraction() {
        assert(x.floor_spec() == dyadic(n, 0));
        lemma_dyadic(n, 0);
        assert(n as real * 1real == n as real) by (nonlinear_arith);
    }
    assert(x.floor_spec().value() == n as real);
    lemma_int_part(x.floor_spec(), n);
    n
}

/// An exact result that is at most `b` off zero is rounded by at most `b / 2^24`.
pub proof fn lemma_close(r: F32, x: real, b: real)
    requires
        is_rounding(r, x),
        is_near(r, x),
        -b <= x <= b,
        1real / 1099511627776real <= b <= 16777215real,
    ensures
        r.is_finite_spec(),
        -(b / 16777216real) <= r.value() - x <= b / 16777216real,
{
    reveal(is_near);
    lemma2_to64();
    lemma2_to64_rest();
    lemma_dyadic(0xff_ffff, 0);
    lemma_dyadic(-0xff_ffff, 0);
    assert(power(0) == 1real);
    assert(0xff_ffffint as real * power(0) == 16777215real && (-0xff_ffffint) as real * power(0)
        == -16777215real) by (nonlinear_arith)
        requires
            power(0) == 1real,
    ;
    lemma_within(r, x, dyadic(-0xff_ffff, 0), dyadic(0xff_ffff, 0));
    assert(power(-24) == 1real / 16777216real);
    lemma_power_monotonic(-150, -64);
    assert(power(-64) == 1real / 18446744073709551616real);
    let y = if x < 0real {
        -x
    } else {
        x
    };
    let n = power(-24);
    assert(y * n <= b / 16777216real) by (nonlinear_arith)
        requires
            n == 1real / 16777216real,
            y <= b,
    ;
}

} // verus!
