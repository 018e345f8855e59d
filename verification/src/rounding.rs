//! Rounding to a binary floating-point format, nearest first and ties to even.
//!
//! A format is given by three numbers: `prec`, how many bits a significand has; `unit`, the
//! exponent of its smallest positive value; and `inf`, the magnitude pattern of infinity.
//! Binary32 is `(24, -149, 0x7f80_0000)` and binary16 is `(11, -24, 0x7c00)`.

use vstd::arithmetic::div_mod::{
    lemma_div_denominator, lemma_fundamental_div_mod, lemma_fundamental_div_mod_converse,
};
use vstd::arithmetic::mul::{
    lemma_mul_inequality, lemma_mul_is_associative, lemma_mul_is_commutative,
    lemma_mul_is_distributive_add, lemma_mul_strict_inequality,
};
use vstd::arithmetic::power2::{
    lemma2_to64, lemma_pow2_adds, lemma_pow2_pos, lemma_pow2_strictly_increases, lemma_pow2_unfold,
    pow2,
};
use vstd::prelude::*;

verus! {

/// How many binary digits `n` has; 0 for 0.
pub open spec fn bit_len(n: nat) -> nat
    decreases n,
{
    if n == 0 {
        0
    } else {
        bit_len(n / 2) + 1
    }
}

/// `m / 2^k` rounded to the nearest integer, a tie to the even one.
pub open spec fn round_half_even(m: nat, k: nat) -> nat {
    let q = m / pow2(k);
    let r = m % pow2(k);
    if 2 * r > pow2(k) || (2 * r == pow2(k) && q % 2 == 1) {
        q + 1
    } else {
        q
    }
}

/// The exponent of the last place that `m * 2^e` keeps in the format.
pub open spec fn last_place(prec: nat, unit: int, m: nat, e: int) -> int {
    if bit_len(m) + e - prec > unit {
        bit_len(m) + e - prec
    } else {
        unit
    }
}

/// The magnitude pattern (exponent field over fraction field) nearest to `m * 2^e`.
pub open spec fn round_to(prec: nat, unit: int, inf: nat, m: nat, e: int) -> nat {
    if m == 0 {
        0
    } else {
        let u = last_place(prec, unit, m, e);
        let q = if u <= e {
            m * pow2((e - u) as nat)
        } else {
            round_half_even(m, (u - e) as nat)
        };
        let pattern = (u - unit) as nat * pow2((prec - 1) as nat) + q;
        if pattern >= inf {
            inf
        } else {
            pattern
        }
    }
}

// ------------------------------------------------------------------ bit lengths

pub proof fn lemma_bit_len_bounds(n: nat)
    requires
        n > 0,
    ensures
        bit_len(n) >= 1,
        pow2((bit_len(n) - 1) as nat) <= n < pow2(bit_len(n)),
    decreases n,
{
    lemma2_to64();
    if n == 1 {
        assert(bit_len(0) == 0);
    } else {
        lemma_bit_len_bounds(n / 2);
        lemma_pow2_unfold(bit_len(n));
        lemma_pow2_unfold((bit_len(n) - 1) as nat);
    }
}

pub proof fn lemma_pow2_monotonic(a: nat, b: nat)
    requires
        a <= b,
    ensures
        pow2(a) <= pow2(b),
{
    if a < b {
        lemma_pow2_strictly_increases(a, b);
    }
}

pub proof fn lemma_bit_len_unique(n: nat, b: nat)
    requires
        b >= 1,
        pow2((b - 1) as nat) <= n < pow2(b),
    ensures
        bit_len(n) == b,
{
    lemma_pow2_pos((b - 1) as nat);
    lemma_bit_len_bounds(n);
    if bit_len(n) < b {
        lemma_pow2_monotonic(bit_len(n), (b - 1) as nat);
    } else if bit_len(n) > b {
        lemma_pow2_monotonic(b, (bit_len(n) - 1) as nat);
    }
}

/// The bit length of `n * 2^k + r`, for `r` below `2^k`.
pub proof fn lemma_bit_len_shifted(n: nat, k: nat, r: nat)
    requires
        n > 0,
        r < pow2(k),
    ensures
        bit_len(n * pow2(k) + r) == bit_len(n) + k,
{
    lemma_bit_len_bounds(n);
    let b = bit_len(n);
    lemma_pow2_adds(b, k);
    lemma_pow2_adds((b - 1) as nat, k);
    assert(pow2((b - 1) as nat) * pow2(k) <= n * pow2(k)) by (nonlinear_arith)
        requires
            pow2((b - 1) as nat) <= n,
    ;
    assert(n * pow2(k) + pow2(k) <= pow2(b) * pow2(k)) by (nonlinear_arith)
        requires
            n + 1 <= pow2(b),
    ;
    lemma_bit_len_unique(n * pow2(k) + r, b + k);
}

// ------------------------------------------------------------------ scaling and sticky bits

/// Scaling numerator and divisor by one power of two does not change the rounding.
pub proof fn lemma_round_half_even_scaled(m: nat, k: nat, j: nat)
    ensures
        round_half_even(m * pow2(j), k + j) == round_half_even(m, k),
{
    let p = pow2(k);
    let s = pow2(j);
    lemma_pow2_adds(k, j);
    lemma_pow2_pos(k);
    lemma_pow2_pos(j);
    let q = m / p;
    let r = m % p;
    lemma_fundamental_div_mod(m as int, p as int);
    assert(m * s == q * (p * s) + r * s) by (nonlinear_arith)
        requires
            m == p * q + r,
    ;
    assert(0 <= r * s < p * s) by (nonlinear_arith)
        requires
            0 <= r < p,
            s > 0,
    ;
    lemma_fundamental_div_mod_converse((m * s) as int, (p * s) as int, q as int, (r * s) as int);
    assert((2 * (r * s) > p * s) == (2 * r > p)) by (nonlinear_arith)
        requires
            s > 0,
    ;
    assert((2 * (r * s) == p * s) == (2 * r == p)) by (nonlinear_arith)
        requires
            s > 0,
    ;
}

/// The same value written with a smaller exponent rounds to the same pattern.
pub proof fn lemma_round_to_scaled(prec: nat, unit: int, inf: nat, m: nat, e: int, j: nat)
    requires
        prec >= 1,
    ensures
        round_to(prec, unit, inf, m * pow2(j), e - j) == round_to(prec, unit, inf, m, e),
{
    lemma_pow2_pos(j);
    if m == 0 {
        assert(m * pow2(j) == 0) by (nonlinear_arith)
            requires
                m == 0,
        ;
    } else {
        lemma_bit_len_shifted(m, j, 0);
        assert(m * pow2(j) > 0) by (nonlinear_arith)
            requires
                m > 0,
                pow2(j) > 0,
        ;
        let u = last_place(prec, unit, m, e);
        if u <= e - j {
            lemma_pow2_adds(j, (e - j - u) as nat);
            lemma_mul_is_associative(m as int, pow2(j) as int, pow2((e - j - u) as nat) as int);
        } else if u <= e {
            let w = (e - u) as nat;
            let k = (u - e + j) as nat;
            lemma_pow2_adds(w, k);
            lemma_pow2_pos(k);
            lemma_mul_is_associative(m as int, pow2(w) as int, pow2(k) as int);
            assert(m * pow2(j) == (m * pow2(w)) * pow2(k));
            lemma_fundamental_div_mod_converse(
                (m * pow2(j)) as int,
                pow2(k) as int,
                (m * pow2(w)) as int,
                0,
            );
        } else {
            lemma_round_half_even_scaled(m, (u - e) as nat, j);
        }
    }
}

/// Digits far below the last place only matter through whether any of them is set: `n * 2^k + r`
/// rounds as `2 * n + 1` does one place higher.
pub proof fn lemma_sticky(prec: nat, unit: int, inf: nat, n: nat, k: nat, r: nat, e: int)
    requires
        prec >= 1,
        bit_len(n) > prec,
        0 < r < pow2(k),
    ensures
        round_to(prec, unit, inf, n * pow2(k) + r, e) == round_to(
            prec,
            unit,
            inf,
            2 * n + 1,
            e + k - 1,
        ),
{
    let x = n * pow2(k) + r;
    let y = 2 * n + 1;
    assert(n > 0);
    lemma_bit_len_shifted(n, k, r);
    lemma2_to64();
    lemma_bit_len_shifted(n, 1, 1);
    assert(n * pow2(1) + 1 == y);
    let u = last_place(prec, unit, x, e);
    assert(u == last_place(prec, unit, y, e + k - 1));
    let w = (u - e - k) as nat;
    assert(w >= 1);
    lemma_pow2_adds(k, w);
    lemma_pow2_pos(w);
    lemma_pow2_pos(k);
    lemma_pow2_unfold(w);
    lemma_pow2_unfold(w + 1);
    let p = pow2(w);
    let s = pow2(k);
    let q = n / p;
    let z = n % p;
    lemma_fundamental_div_mod(n as int, p as int);
    assert(x == q * (s * p) + (z * s + r)) by (nonlinear_arith)
        requires
            n == p * q + z,
            x == n * s + r,
    ;
    assert(z * s + r < s * p) by (nonlinear_arith)
        requires
            z + 1 <= p,
            r < s,
    ;
    lemma_fundamental_div_mod_converse(x as int, (s * p) as int, q as int, (z * s + r) as int);
    assert(y == q * (2 * p) + (2 * z + 1)) by (nonlinear_arith)
        requires
            n == p * q + z,
            y == 2 * n + 1,
    ;
    lemma_fundamental_div_mod_converse(y as int, (2 * p) as int, q as int, (2 * z + 1) as int);
    let h = pow2((w - 1) as nat);
    assert(p == 2 * h);
    if z < h {
        assert(2 * (z * s + r) < s * p) by (nonlinear_arith)
            requires
                z + 1 <= h,
                r < s,
                p == 2 * h,
        ;
    } else {
        assert(2 * (z * s + r) > s * p) by (nonlinear_arith)
            requires
                z >= h,
                r > 0,
                s > 0,
                p == 2 * h,
        ;
    }
    assert(round_half_even(x, k + w) == round_half_even(y, w + 1));
}

// ------------------------------------------------------------------ laws

/// The significand of a finite magnitude pattern.
pub open spec fn pattern_sig(prec: nat, pattern: nat) -> nat {
    let p = pow2((prec - 1) as nat);
    if pattern < p {
        pattern
    } else {
        pattern % p + p
    }
}

/// The exponent of a finite magnitude pattern: its value is `pattern_sig * 2^pattern_exp`.
pub open spec fn pattern_exp(prec: nat, unit: int, pattern: nat) -> int {
    let p = pow2((prec - 1) as nat);
    if pattern < p {
        unit
    } else {
        unit + pattern / p - 1
    }
}

/// A value that the format holds is rounded to its own pattern.
pub proof fn lemma_round_to_exact(prec: nat, unit: int, inf: nat, pattern: nat)
    requires
        prec >= 1,
        pattern < inf,
    ensures
        round_to(
            prec,
            unit,
            inf,
            pattern_sig(prec, pattern),
            pattern_exp(prec, unit, pattern),
        ) == pattern,
{
    let p = pow2((prec - 1) as nat);
    let m = pattern_sig(prec, pattern);
    let e = pattern_exp(prec, unit, pattern);
    lemma2_to64();
    lemma_pow2_pos((prec - 1) as nat);
    lemma_pow2_unfold(prec);
    lemma_fundamental_div_mod(pattern as int, p as int);
    assert(m * pow2(0) == m) by (nonlinear_arith)
        requires
            pow2(0) == 1,
    ;
    if pattern < p {
        if pattern > 0 {
            lemma_bit_len_bounds(m);
            if bit_len(m) > prec {
                lemma_pow2_monotonic(prec, (bit_len(m) - 1) as nat);
            }
            assert(last_place(prec, unit, m, e) == e);
            assert((e - unit) as nat * p == 0) by (nonlinear_arith)
                requires
                    e == unit,
            ;
        }
    } else {
        lemma_bit_len_unique(m, prec);
        let q = pattern / p;
        let r = pattern % p;
        assert(q >= 1) by (nonlinear_arith)
            requires
                pattern == p * q + r,
                r < p,
                pattern >= p,
                q >= 0,
        ;
        assert(last_place(prec, unit, m, e) == e);
        assert((q - 1) * p + m == pattern) by (nonlinear_arith)
            requires
                pattern == p * q + pattern % p,
                m == pattern % p + p,
        ;
    }
}

/// No integer is nearer to `m / 2^k` than the rounded one, and of two equally near the rounded
/// one is even.
pub proof fn law_round_half_even_is_nearest(m: nat, k: nat, n: int)
    ensures
        ({
            let q = round_half_even(m, k);
            let err = vstd::math::abs(q * pow2(k) - m);
            let other = vstd::math::abs(n * pow2(k) - m);
            err <= other && (err == other ==> n == q || q % 2 == 0)
        }),
{
    let p = pow2(k) as int;
    lemma_pow2_pos(k);
    let q0 = m as int / p;
    let r = m as int % p;
    lemma_fundamental_div_mod(m as int, p);
    let q = round_half_even(m, k) as int;
    let d = n - q0;
    assert(n * p - m == d * p - r) by (nonlinear_arith)
        requires
            m == p * q0 + r,
            d == n - q0,
    ;
    assert(q0 * p - m == -r && (q0 + 1) * p - m == p - r) by (nonlinear_arith)
        requires
            m == p * q0 + r,
    ;
    if d >= 2 {
        assert(d * p >= 2 * p) by (nonlinear_arith)
            requires
                d >= 2,
                p > 0,
        ;
    } else if d <= -1 {
        assert(d * p <= -p) by (nonlinear_arith)
            requires
                d <= -1,
                p > 0,
        ;
    } else if d == 1 {
        assert(d * p == p) by (nonlinear_arith)
            requires
                d == 1,
        ;
    } else {
        assert(d * p == 0) by (nonlinear_arith)
            requires
                d == 0,
        ;
    }
}

} // verus!
