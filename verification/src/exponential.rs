//! The exponential function on reals, and how near the computed one comes to it.

use crate::float::{law_addition_commutes, with_sign, F32};
use crate::ranges::{
    between, exp_sum, horner_sum, lemma_bits, lemma_exp, lemma_exp_constants, lemma_exp_poly,
    lemma_negated, lemma_product, lemma_reduction, lemma_tanh_constants, lemma_tanh_poly,
    lemma_tanh_poly_share, lemma_units, lemma_zero, octave, tanh_large, tanh_sum,
};
use crate::simd::{
    bits, exp_clamped, exp_octaves, exp_of, exp_poly, exp_reduced, sigmoid_of, tanh_of, EXP_HI,
    EXP_LO, ONE, SIGMOID_LO, TANH_MEDIUM, TANH_SMALL, TWO,
};
use crate::values::{
    dyadic, is_near, is_rounding, lemma_add, lemma_add_below, lemma_div, lemma_dyadic, lemma_neg,
    lemma_no_number_between, lemma_order, lemma_power_adds, lemma_power_monotonic,
    lemma_power_step, lemma_within, power,
};
use vstd::arithmetic::power2::*;
use vstd::prelude::*;

verus! {

/// `r^n / n!`.
pub open spec fn term(r: real, n: nat) -> real
    decreases n,
{
    if n == 0 {
        1real
    } else {
        term(r, (n - 1) as nat) * r / (n as real)
    }
}

/// The sum of the terms up to `r^n / n!`.
pub open spec fn series(r: real, n: nat) -> real
    decreases n,
{
    if n == 0 {
        1real
    } else {
        series(r, (n - 1) as nat) + term(r, n)
    }
}

/// From one term of the series to the next.
pub proof fn lemma_term(r: real, n: nat)
    requires
        n > 0,
    ensures
        n as real * term(r, n) == term(r, (n - 1) as nat) * r,
        series(r, n) == series(r, (n - 1) as nat) + term(r, n),
{
    let (x, k) = (term(r, (n - 1) as nat) * r, n as real);
    assert(k * (x / k) == x) by (nonlinear_arith)
        requires
            k > 0real,
    ;
}

/// Whether `f` is the exponential function: it turns sums into products, and near zero it is the sum
/// of its series, no further off after any term than twice the next one.
#[verifier::opaque]
pub open spec fn is_exponential(f: spec_fn(real) -> real) -> bool {
    &&& forall|a: real, b: real| #![trigger f(a), f(b)] f(a + b) == f(a) * f(b)
    &&& forall|r: real, n: nat|
        #![trigger f(r), series(r, n)]
        -1real <= r <= 1real ==> {
            let next = term(r, n + 1);
            ||| -(2real * next) <= f(r) - series(r, n) <= 2real * next
            ||| 2real * next <= f(r) - series(r, n) <= -(2real * next)
        }
}

pub proof fn lemma_sum(f: spec_fn(real) -> real, a: real, b: real)
    requires
        is_exponential(f),
    ensures
        f(a + b) == f(a) * f(b),
{
    reveal(is_exponential);
}

pub proof fn lemma_positive(f: spec_fn(real) -> real, r: real)
    requires
        is_exponential(f),
    ensures
        f(0real) == 1real,
        f(r) > 0real,
        f(r) * f(-r) == 1real,
{
    assert(f(0real) == 1real) by {
        reveal(is_exponential);
        assert(series(0real, 0) == 1real);
        lemma_term(0real, 1);
        assert(1real * term(0real, 1) == 1real * 0real);
    }
    lemma_sum(f, r, -r);
    lemma_sum(f, r / 2real, r / 2real);
    let h = f(r / 2real);
    assert(r / 2real + r / 2real == r);
    assert(h * h >= 0real) by (nonlinear_arith);
    if f(r) == 0real {
        assert(0real * f(-r) == 0real) by (nonlinear_arith);
    }
}

/// The exponential of a number next to zero.
proof fn lemma_tiny(f: spec_fn(real) -> real, d: real)
    requires
        is_exponential(f),
        -(1real / 10000000real) <= d <= 1real / 10000000real,
    ensures
        -(1real / 10000000000000real) <= f(d) - (1real + d) <= 1real / 10000000000000real,
{
    reveal(is_exponential);
    lemma_term(d, 1);
    lemma_term(d, 2);
    assert(term(d, 0) == 1real && series(d, 0) == 1real);
    assert(1real * term(d, 1) == 1real * d);
    assert(2real * term(d, 2) == term(d, 1) * d);
    assert(series(d, 1) == 1real + d);
    lemma_product(d, d, 1real / 10000000real, 1real / 10000000real);
}

/// The exponential of an octave is next to two.
proof fn lemma_octave(f: spec_fn(real) -> real)
    requires
        is_exponential(f),
    ensures
        -(1real / 100000000000real) <= f(octave()) - 2real <= 1real / 100000000000real,
{
    let h = 47632711549real / 137438953472real;
    assert(term(h, 0) == 1real && series(h, 0) == 1real);
    lemma_term(h, 1);
    lemma_term(h, 2);
    lemma_term(h, 3);
    lemma_term(h, 4);
    lemma_term(h, 5);
    lemma_term(h, 6);
    lemma_term(h, 7);
    lemma_term(h, 8);
    lemma_term(h, 9);
    lemma_term(h, 10);
    lemma_term(h, 11);
    let g = f(h);
    assert(1414213562371real / 1000000000000real <= g <= 1414213562373real / 1000000000000real) by {
        lemma_series(f, h, 10);
        assert(1414213562371real / 1000000000000real + 1real / 1000000000000real / 2real <= series(
            h,
            10,
        ) <= 1414213562373real / 1000000000000real - 1real / 1000000000000real / 2real);
        assert(0real <= 2real * term(h, 11) <= 1real / 1000000000000real / 2real);
    }
    lemma_sum(f, h, h);
    assert(h + h == octave());
    assert(g * g >= 1414213562371real / 1000000000000real * 1414213562371real / 1000000000000real
        && g * g <= 1414213562373real / 1000000000000real * 1414213562373real / 1000000000000real)
        by (nonlinear_arith)
        requires
            1414213562371real / 1000000000000real <= g <= 1414213562373real / 1000000000000real,
    ;
}

/// The exponential of `n` octaves is next to `2^n`.
proof fn lemma_octaves(f: spec_fn(real) -> real, n: nat)
    requires
        is_exponential(f),
        n <= 127,
    ensures
        ({
            let e = n as real / 100000000000real;
            &&& f(n as real * octave()) <= power(n as int) * (1real + e)
            &&& f(n as real * octave()) >= power(n as int) * (1real - e)
        }),
    decreases n,
{
    let c = octave();
    lemma_power_step(n as int);
    if n == 0 {
        lemma_positive(f, 0real);
        lemma2_to64();
        assert(0real * c == 0real) by (nonlinear_arith);
        assert(power(0) == 1real);
    } else {
        let k = (n - 1) as nat;
        lemma_octaves(f, k);
        lemma_octave(f);
        lemma_power_step(k as int);
        lemma_positive(f, k as real * c);
        let (nr, kr) = (n as real, k as real);
        assert(nr == kr + 1real);
        assert(kr * c + c == nr * c) by (nonlinear_arith)
            requires
                nr == kr + 1real,
        ;
        lemma_sum(f, kr * c, c);
        let (x, y, p, d, e) = (
            f(kr * c),
            f(c),
            power(k as int),
            1real / 200000000000real,
            kr / 100000000000real,
        );
        assert(x * y <= p * (1real + e) * (2real * (1real + d))) by (nonlinear_arith)
            requires
                0real < x <= p * (1real + e),
                y <= 2real * (1real + d),
                d == 1real / 200000000000real,
        ;
        assert(x * y >= p * (1real - e) * (2real * (1real - d))) by (nonlinear_arith)
            requires
                x >= p * (1real - e),
                x > 0real,
                y >= 2real * (1real - d),
                d == 1real / 200000000000real,
        ;
        assert((1real + e) * (1real + d) <= 1real + nr / 100000000000real && (1real - e) * (1real - d)
            >= 1real - nr / 100000000000real) by (nonlinear_arith)
            requires
                e == kr / 100000000000real,
                d == 1real / 200000000000real,
                nr == kr + 1real,
                0real <= kr <= 127real,
        ;
        let (u, v) = ((1real + e) * (1real + d), (1real - e) * (1real - d));
        let (un, vn) = (1real + nr / 100000000000real, 1real - nr / 100000000000real);
        assert(p * (1real + e) * (2real * (1real + d)) == 2real * p * u) by (nonlinear_arith)
            requires
                u == (1real + e) * (1real + d),
        ;
        assert(p * (1real - e) * (2real * (1real - d)) == 2real * p * v) by (nonlinear_arith)
            requires
                v == (1real - e) * (1real - d),
        ;
        assert(2real * p * u <= 2real * p * un && 2real * p * v >= 2real * p * vn)
            by (nonlinear_arith)
            requires
                u <= un,
                v >= vn,
                p > 0real,
        ;
    }
}

proof fn lemma_inverse(x: real, y: real, lo: real, hi: real)
    requires
        x * y == 1real,
        lo <= x <= hi,
        y > 0real,
    ensures
        lo * y <= 1real <= hi * y,
{
    assert(lo * y <= x * y) by (nonlinear_arith)
        requires
            lo <= x,
            y > 0real,
    ;
    assert(x * y <= hi * y) by (nonlinear_arith)
        requires
            x <= hi,
            y > 0real,
    ;
}

/// The exponential of an octave down is next to one half.
proof fn lemma_octave_down(f: spec_fn(real) -> real)
    requires
        is_exponential(f),
    ensures
        -(1real / 100000000000real) <= f(-octave()) - 1real / 2real <= 1real / 100000000000real,
{
    lemma_octave(f);
    let c = octave();
    lemma_positive(f, c);
    lemma_positive(f, -c);
    lemma_inverse(f(c), f(-c), 2real - 1real / 100000000000real, 2real + 1real / 100000000000real);
}

/// The exponential of `n` octaves down is next to `2^-n`.
proof fn lemma_octaves_down(f: spec_fn(real) -> real, n: nat)
    requires
        is_exponential(f),
        n <= 127,
    ensures
        ({
            let e = 3real * n as real / 100000000000real;
            &&& f(n as real * -octave()) <= power(-(n as int)) * (1real + e)
            &&& f(n as real * -octave()) >= power(-(n as int)) * (1real - e)
        }),
    decreases n,
{
    let c = -octave();
    lemma_power_step(-(n as int));
    if n == 0 {
        lemma_positive(f, 0real);
        lemma2_to64();
        assert(0real * c == 0real) by (nonlinear_arith);
        assert(power(0) == 1real);
    } else {
        let k = (n - 1) as nat;
        lemma_octaves_down(f, k);
        lemma_octave_down(f);
        lemma_power_step(-(n as int));
        assert(power(-(k as int)) == 2real * power(-(n as int)));
        lemma_positive(f, k as real * c);
        let (nr, kr) = (n as real, k as real);
        assert(nr == kr + 1real);
        assert(kr * c + c == nr * c) by (nonlinear_arith)
            requires
                nr == kr + 1real,
        ;
        lemma_sum(f, kr * c, c);
        let (x, y, p, d, e) = (
            f(kr * c),
            f(c),
            power(-(k as int)),
            2real / 100000000000real,
            3real * kr / 100000000000real,
        );
        assert(x * y <= p * (1real + e) * (1real / 2real * (1real + d))) by (nonlinear_arith)
            requires
                0real < x <= p * (1real + e),
                y <= 1real / 2real * (1real + d),
                d == 2real / 100000000000real,
        ;
        assert(x * y >= p * (1real - e) * (1real / 2real * (1real - d))) by (nonlinear_arith)
            requires
                x >= p * (1real - e),
                x > 0real,
                y >= 1real / 2real * (1real - d),
                d == 2real / 100000000000real,
        ;
        assert((1real + e) * (1real + d) <= 1real + 3real * nr / 100000000000real && (1real - e) * (
        1real - d) >= 1real - 3real * nr / 100000000000real) by (nonlinear_arith)
            requires
                e == 3real * kr / 100000000000real,
                d == 2real / 100000000000real,
                nr == kr + 1real,
                0real <= kr <= 127real,
        ;
        let (u, v) = ((1real + e) * (1real + d), (1real - e) * (1real - d));
        let (un, vn) = (1real + 3real * nr / 100000000000real, 1real - 3real * nr / 100000000000real);
        assert(p * (1real + e) * (1real / 2real * (1real + d)) == 1real / 2real * p * u)
            by (nonlinear_arith)
            requires
                u == (1real + e) * (1real + d),
        ;
        assert(p * (1real - e) * (1real / 2real * (1real - d)) == 1real / 2real * p * v)
            by (nonlinear_arith)
            requires
                v == (1real - e) * (1real - d),
        ;
        assert(1real / 2real * p * u <= 1real / 2real * p * un && 1real / 2real * p * v
            >= 1real / 2real * p * vn)
            by (nonlinear_arith)
            requires
                u <= un,
                v >= vn,
                p > 0real,
        ;
    }
}

proof fn lemma_distributes(a: real, b: real, v: real)
    ensures
        (a + b) * v == a * v + b * v,
{
    assert((a + b) * v == a * v + b * v) by (nonlinear_arith);
}

proof fn lemma_associates(c: real, t: real, v: real)
    ensures
        (c * t) * v == c * (t * v),
{
    assert((c * t) * v == c * (t * v)) by (nonlinear_arith);
}

/// A sum of six products, times `v`.
proof fn lemma_step(
    s: real,
    v: real,
    c0: real,
    t0: real,
    c1: real,
    t1: real,
    c2: real,
    t2: real,
    c3: real,
    t3: real,
    c4: real,
    t4: real,
    c5: real,
    t5: real,
)
    requires
        s == c0 * t0 + c1 * t1 + c2 * t2 + c3 * t3 + c4 * t4 + c5 * t5,
    ensures
        s * v == c0 * (t0 * v) + c1 * (t1 * v) + c2 * (t2 * v) + c3 * (t3 * v) + c4 * (t4 * v) + c5
            * (t5 * v),
{
    let (a0, a1, a2, a3, a4, a5) = (c0 * t0, c1 * t1, c2 * t2, c3 * t3, c4 * t4, c5 * t5);
    let s1 = a0 + a1;
    let s2 = s1 + a2;
    let s3 = s2 + a3;
    let s4 = s3 + a4;
    let s5 = s4 + a5;
    lemma_distributes(a0, a1, v);
    lemma_distributes(s1, a2, v);
    lemma_distributes(s2, a3, v);
    lemma_distributes(s3, a4, v);
    lemma_distributes(s4, a5, v);
    lemma_associates(c0, t0, v);
    lemma_associates(c1, t1, v);
    lemma_associates(c2, t2, v);
    lemma_associates(c3, t3, v);
    lemma_associates(c4, t4, v);
    lemma_associates(c5, t5, v);
    assert(s == s5);
}

/// How far the exponential is from its series.
pub proof fn lemma_series(f: spec_fn(real) -> real, r: real, n: nat)
    requires
        is_exponential(f),
        -1real <= r <= 1real,
    ensures
        ({
            let next = term(r, n + 1);
            ||| -(2real * next) <= f(r) - series(r, n) <= 2real * next
            ||| 2real * next <= f(r) - series(r, n) <= -(2real * next)
        }),
{
    reveal(is_exponential);
}

/// The polynomial is next to the exponential.
proof fn lemma_exp_sum_near(f: spec_fn(real) -> real, v: real)
    requires
        is_exponential(f),
        -(3467real / 10000real) <= v <= 3467real / 10000real,
    ensures
        -(48real / 1000000000real) <= exp_sum(v) - f(v) <= 48real / 1000000000real,
        f(v) <= 14146real / 10000real,
{
    let t0 = term(v, 0);
    let t1 = term(v, 1);
    let t2 = term(v, 2);
    let t3 = term(v, 3);
    let t4 = term(v, 4);
    let t5 = term(v, 5);
    let t6 = term(v, 6);
    let t7 = term(v, 7);
    let t8 = term(v, 8);
    assert(t0 == 1real && series(v, 0) == 1real);
    lemma_term(v, 1);
    lemma_term(v, 2);
    lemma_term(v, 3);
    lemma_term(v, 4);
    lemma_term(v, 5);
    lemma_term(v, 6);
    lemma_term(v, 7);
    lemma_term(v, 8);
    assert(1real * t1 == 1real * v);
    lemma_product(t1, v, 3467real / 10000real, 3467real / 10000real);
    assert(2real * t2 == t1 * v);
    assert(-(12020089real / 200000000real) <= t2 <= 12020089real / 200000000real);
    lemma_product(t2, v, 12020089real / 200000000real, 3467real / 10000real);
    assert(3real * t3 == t2 * v);
    assert(-(3472804047real / 500000000000real) <= t3 <= 3472804047real / 500000000000real);
    lemma_product(t3, v, 3472804047real / 500000000000real, 3467real / 10000real);
    assert(4real * t4 == t3 * v);
    assert(-(301005291real / 500000000000real) <= t4 <= 301005291real / 500000000000real);
    lemma_product(t4, v, 301005291real / 500000000000real, 3467real / 10000real);
    assert(5real * t5 == t4 * v);
    assert(-(20871707real / 500000000000real) <= t5 <= 20871707real / 500000000000real);
    lemma_product(t5, v, 20871707real / 500000000000real, 3467real / 10000real);
    assert(6real * t6 == t5 * v);
    assert(-(1206037real / 500000000000real) <= t6 <= 1206037real / 500000000000real);
    lemma_product(t6, v, 1206037real / 500000000000real, 3467real / 10000real);
    assert(7real * t7 == t6 * v);
    assert(-(119467real / 1000000000000real) <= t7 <= 119467real / 1000000000000real);
    lemma_product(t7, v, 119467real / 1000000000000real, 3467real / 10000real);
    assert(8real * t8 == t7 * v);
    assert(-(2589real / 500000000000real) <= t8 <= 2589real / 500000000000real);
    let s1 = 13658471real / 68719476736real * v + 12010446real / 8589934592real;
    lemma_step(
        s1,
        v,
        1real * (13658471real / 68719476736real),
        t1,
        1real * (12010446real / 8589934592real),
        t0,
        0real,
        t0,
        0real,
        t0,
        0real,
        t0,
        0real,
        t0,
    );
    let s2 = s1 * v + 8947976real / 1073741824real;
    assert(s2 == 2real * (13658471real / 68719476736real) * t2
        + 1real * (12010446real / 8589934592real) * t1
        + 1real * (8947976real / 1073741824real) * t0);
    lemma_step(
        s2,
        v,
        2real * (13658471real / 68719476736real),
        t2,
        1real * (12010446real / 8589934592real),
        t1,
        1real * (8947976real / 1073741824real),
        t0,
        0real,
        t0,
        0real,
        t0,
        0real,
        t0,
    );
    let s3 = s2 * v + 11184577real / 268435456real;
    assert(s3 == 6real * (13658471real / 68719476736real) * t3
        + 2real * (12010446real / 8589934592real) * t2
        + 1real * (8947976real / 1073741824real) * t1
        + 1real * (11184577real / 268435456real) * t0);
    lemma_step(
        s3,
        v,
        6real * (13658471real / 68719476736real),
        t3,
        2real * (12010446real / 8589934592real),
        t2,
        1real * (8947976real / 1073741824real),
        t1,
        1real * (11184577real / 268435456real),
        t0,
        0real,
        t0,
        0real,
        t0,
    );
    let s4 = s3 * v + 11184810real / 67108864real;
    assert(s4 == 24real * (13658471real / 68719476736real) * t4
        + 6real * (12010446real / 8589934592real) * t3
        + 2real * (8947976real / 1073741824real) * t2
        + 1real * (11184577real / 268435456real) * t1
        + 1real * (11184810real / 67108864real) * t0);
    lemma_step(
        s4,
        v,
        24real * (13658471real / 68719476736real),
        t4,
        6real * (12010446real / 8589934592real),
        t3,
        2real * (8947976real / 1073741824real),
        t2,
        1real * (11184577real / 268435456real),
        t1,
        1real * (11184810real / 67108864real),
        t0,
        0real,
        t0,
    );
    assert(s4 * v == 120real * (13658471real / 68719476736real) * t5
        + 24real * (12010446real / 8589934592real) * t4
        + 6real * (8947976real / 1073741824real) * t3
        + 2real * (11184577real / 268435456real) * t2
        + 1real * (11184810real / 67108864real) * t1);
    let s5 = s4 * v + 8388609real / 16777216real;
    assert(s5 == 120real * (13658471real / 68719476736real) * t5
        + 24real * (12010446real / 8589934592real) * t4
        + 6real * (8947976real / 1073741824real) * t3
        + 2real * (11184577real / 268435456real) * t2
        + 1real * (11184810real / 67108864real) * t1
        + 1real * (8388609real / 16777216real) * t0);
    lemma_step(
        s5,
        v,
        120real * (13658471real / 68719476736real),
        t5,
        24real * (12010446real / 8589934592real),
        t4,
        6real * (8947976real / 1073741824real),
        t3,
        2real * (11184577real / 268435456real),
        t2,
        1real * (11184810real / 67108864real),
        t1,
        1real * (8388609real / 16777216real),
        t0,
    );
    let x = s5 * v;
    assert(x == 720real * (13658471real / 68719476736real) * t6
        + 120real * (12010446real / 8589934592real) * t5
        + 24real * (8947976real / 1073741824real) * t4
        + 6real * (11184577real / 268435456real) * t3
        + 2real * (11184810real / 67108864real) * t2
        + 1real * (8388609real / 16777216real) * t1);
    lemma_step(
        x,
        v,
        720real * (13658471real / 68719476736real),
        t6,
        120real * (12010446real / 8589934592real),
        t5,
        24real * (8947976real / 1073741824real),
        t4,
        6real * (11184577real / 268435456real),
        t3,
        2real * (11184810real / 67108864real),
        t2,
        1real * (8388609real / 16777216real),
        t1,
    );
    let y = x * v;
    assert(y == 5040real * (13658471real / 68719476736real) * t7
        + 720real * (12010446real / 8589934592real) * t6
        + 120real * (8947976real / 1073741824real) * t5
        + 24real * (11184577real / 268435456real) * t4
        + 6real * (11184810real / 67108864real) * t3
        + 2real * (8388609real / 16777216real) * t2);
    lemma_associates(s5, v, v);
    assert(exp_sum(v) == y + v + 1real);
    lemma_series(f, v, 7);
    assert(series(v, 7) == 1real + t1 + t2 + t3 + t4 + t5 + t6 + t7);
}

/// The polynomial is next to the exponential.
proof fn lemma_exp_sum(f: spec_fn(real) -> real, v: real)
    requires
        is_exponential(f),
        -(3467real / 10000real) <= v <= 3467real / 10000real,
    ensures
        -(48real / 1000000000real) <= exp_sum(v) - f(v) <= 48real / 1000000000real,
        7real / 10real <= f(v) <= 142real / 100real,
{
    lemma_exp_sum_near(f, v);
    lemma_exp_sum_near(f, -v);
    lemma_positive(f, v);
    lemma_positive(f, -v);
    lemma_inverse(f(-v), f(v), 0real, 14146real / 10000real);
}

/// What is next to `y` to within a share `e` is next to it so too when both are multiplied.
proof fn lemma_share(x: real, y: real, e: real, z: real)
    requires
        -(e * y) <= x - y <= e * y,
        z > 0real,
    ensures
        -(e * (y * z)) <= x * z - y * z <= e * (y * z),
{
    assert((x - y) * z <= (e * y) * z && (x - y) * z >= (-(e * y)) * z) by (nonlinear_arith)
        requires
            -(e * y) <= x - y <= e * y,
            z > 0real,
    ;
    assert((x - y) * z == x * z - y * z && (e * y) * z == e * (y * z) && (-(e * y)) * z == -(e * (y
        * z))) by (nonlinear_arith);
}

/// The exponential of a whole number of octaves is next to a power of two.
proof fn lemma_any_octaves(f: spec_fn(real) -> real, n: int)
    requires
        is_exponential(f),
        -127 <= n <= 127,
    ensures
        ({
            let g = f(n as real * octave());
            let e = 4real / 1000000000real;
            -(e * power(n)) <= g - power(n) <= e * power(n)
        }),
{
    let m = if n < 0 {
        -n
    } else {
        n
    };
    let mr = m as real;
    let p = power(n);
    lemma_power_step(n);
    if n >= 0 {
        lemma_octaves(f, m as nat);
        lemma_small_share(p, mr / 100000000000real);
    } else {
        lemma_octaves_down(f, m as nat);
        assert(n as real == -mr);
        let c = octave();
        assert(mr * (-c) == (-mr) * c) by (nonlinear_arith);
        lemma_small_share(p, 3real * mr / 100000000000real);
    }
}

proof fn lemma_small_share(p: real, a: real)
    requires
        p > 0real,
        0real <= a <= 4real / 1000000000real,
    ensures
        p * (1real + a) <= p + 4real / 1000000000real * p,
        p * (1real - a) >= p - 4real / 1000000000real * p,
{
    assert(p * (1real + a) <= p + 4real / 1000000000real * p && p * (1real - a) >= p - 4real
        / 1000000000real * p) by (nonlinear_arith)
        requires
            p > 0real,
            0real <= a <= 4real / 1000000000real,
    ;
}

/// The polynomial is next to the exponential of the argument that it was given.
proof fn lemma_poly_near(f: spec_fn(real) -> real, r: F32, w: real)
    requires
        is_exponential(f),
        r.is_finite_spec(),
        -(3467real / 10000real) <= r.value() <= 3467real / 10000real,
        -(45real / 1000000000real) <= r.value() - w <= 45real / 1000000000real,
    ensures
        exp_poly(r).is_finite_spec(),
        f(w) > 0real,
        -(2252real / 10000000000real * f(w)) <= exp_poly(r).value() - f(w) <= 2252real
            / 10000000000real * f(w),
{
    let v = r.value();
    let d = w - v;
    lemma_exp_poly(r);
    lemma_exp_sum(f, v);
    lemma_tiny(f, d);
    lemma_sum(f, v, d);
    assert(v + d == w);
    lemma_positive(f, w);
    let (a, b, y) = (f(v), f(w), exp_poly(r).value());
    let g = f(d) - 1real;
    lemma_product(a, g, a, 4501real / 100000000000real);
    assert(a * f(d) == a + a * g) by (nonlinear_arith)
        requires
            g == f(d) - 1real,
    ;
    assert(a * (4501real / 100000000000real) == 4501real / 100000000000real * a);
    assert(b == a + a * g);
    assert(y - a <= 18real / 100000000real * a);
    assert(y - a >= -(18real / 100000000real * a));
}

/// Between the least and the largest argument the exponential is not cut off.
proof fn lemma_not_cut_off(x: F32) -> (n: int)
    requires
        between(x, -(11583653real / 131072real), 11583653real / 131072real),
    ensures
        exp_clamped(x) == x,
        -127 <= n <= 127,
        x.value() <= 86real ==> n <= 124,
        -86real <= x.value() ==> -124 <= n,
        exp_octaves(x).value() == n as real,
        exp_reduced(x, exp_octaves(x)).is_finite_spec(),
        -(3467real / 10000real) <= exp_reduced(x, exp_octaves(x)).value() <= 3467real / 10000real,
        -(45real / 1000000000real) <= exp_reduced(x, exp_octaves(x)).value() - (x.value() - n as real
            * octave()) <= 45real / 1000000000real,
{
    lemma_exp_constants();
    lemma_order(bits(EXP_LO), x);
    lemma_order(x, bits(EXP_HI));
    let n = lemma_reduction(x);
    let nr = n as real;
    assert(nr * octave() == nr * 355real / 512real - nr * 14581891real / 68719476736real)
        by (nonlinear_arith)
        requires
            octave() == 355real / 512real - 14581891real / 68719476736real,
    ;
    assert(x.value() <= 86real ==> nr < 125real);
    assert(-86real <= x.value() ==> -125real < nr);
    n
}

/// The computed exponential of a number between the least and the largest argument, about -88.376
/// and 88.376, is within a share of 4.5e-7 of the exponential, and from -86 within a share of 2.9e-7.
pub proof fn law_exp_is_near_the_exponential(f: spec_fn(real) -> real, x: F32)
    requires
        is_exponential(f),
        between(x, -(11583653real / 131072real), 11583653real / 131072real),
    ensures
        exp_of(x).is_finite_spec(),
        -(45real / 100000000real * f(x.value())) <= exp_of(x).value() - f(x.value()) <= 45real
            / 100000000real * f(x.value()),
        -86real <= x.value() ==> -(29real / 100000000real * f(x.value())) <= exp_of(x).value() - f(
            x.value(),
        ) <= 29real / 100000000real * f(x.value()),
{
    lemma_exp_near(f, x);
}

proof fn lemma_exp_near(f: spec_fn(real) -> real, x: F32)
    requires
        is_exponential(f),
        between(x, -(11583653real / 131072real), 11583653real / 131072real),
    ensures
        f(x.value()) > 0real,
        exp_of(x).is_finite_spec(),
        exp_of(x).value() <= 3real / 2real * power(127),
        x.value() <= 86real ==> exp_of(x).value() <= power(125),
        -(45real / 100000000real * f(x.value())) <= exp_of(x).value() - f(x.value()) <= 45real
            / 100000000real * f(x.value()),
        -86real <= x.value() ==> -(29real / 100000000real * f(x.value())) <= exp_of(x).value() - f(
            x.value(),
        ) <= 29real / 100000000real * f(x.value()),
{
    let n = lemma_exp(x);
    let m = lemma_not_cut_off(x);
    assert(n == m);
    let r = exp_reduced(x, exp_octaves(x));
    let c = n as real * octave();
    let w = x.value() - c;
    lemma_poly_near(f, r, w);
    lemma_exp_poly(r);
    lemma_any_octaves(f, n);
    lemma_power_step(n);
    let (y, b, p, g) = (exp_poly(r).value(), f(w), power(n), f(c));
    lemma_share(y, b, 2252real / 10000000000real, p);
    lemma_share(g, p, 4real / 1000000000real, b);
    lemma_sum(f, w, c);
    assert(w + c == x.value());
    let (q, e) = (b * p, b * g);
    assert(g * b == e && p * b == q) by (nonlinear_arith)
        requires
            e == b * g,
            q == b * p,
    ;
    assert(f(x.value()) == e);
    lemma_positive(f, x.value());
    assert(q > 0real) by (nonlinear_arith)
        requires
            q == b * p,
            b > 0real,
            p > 0real,
    ;
    let z = y * p;
    assert(-(23real / 100000000real * e) <= z - e <= 23real / 100000000real * e);
    lemma_finite_and_near(exp_of(x), z, y, n);
    if x.value() <= 86real {
        lemma_power_monotonic(n, 124);
        lemma_power_step(124);
    }
}

/// A result `y * 2^n` with `y` next to one.
proof fn lemma_finite_and_near(r: F32, z: real, y: real, n: int)
    requires
        is_rounding(r, z),
        is_near(r, z),
        z == y * power(n),
        58real / 100real <= y <= 143real / 100real,
        -127 <= n <= 127,
    ensures
        r.is_finite_spec(),
        r.value() <= 3real / 2real * power(n) <= 3real / 2real * power(127),
        -(21real / 100000000real * z) <= r.value() - z <= 21real / 100000000real * z,
        -124 <= n ==> -(z / 16777216real) <= r.value() - z <= z / 16777216real,
{
    let p = power(n);
    lemma_power_step(n);
    lemma2_to64();
    lemma2_to64_rest();
    assert(58real / 100real * p <= z <= 143real / 100real * p) by (nonlinear_arith)
        requires
            z == y * p,
            58real / 100real <= y <= 143real / 100real,
            p > 0real,
    ;
    // it is finite
    lemma_power_monotonic(n, 127);
    lemma_power_adds(104, 23);
    let u = power(104);
    lemma_power_step(104);
    assert(power(23) == 8388608real);
    assert(u * power(23) == 8388608real * u) by (nonlinear_arith)
        requires
            power(23) == 8388608real,
    ;
    let top = bits(0x7f7f_ffff);
    assert(top.sig() == 0xff_ffff && top.exp() == 104 && !top.is_neg_spec());
    lemma_zero();
    assert(top.value() == 16777215real * u);
    lemma_within(r, z, F32::zero_spec(), top);
    // the last place is not the least one
    reveal(is_near);
    lemma_power_monotonic(-127, n);
    lemma_power_adds(-127, -23);
    assert(power(-23) == 1real / 8388608real);
    let v = power(-127);
    lemma_power_monotonic(-127, -127);
    assert(v * power(-23) == v / 8388608real) by (nonlinear_arith)
        requires
            power(-23) == 1real / 8388608real,
    ;
    if -124 <= n {
        lemma_power_monotonic(-124, n);
        lemma_power_step(-127);
        lemma_power_step(-126);
        lemma_power_step(-125);
    }
    assert(power(-24) == 1real / 16777216real);
    assert(z * power(-24) == z / 16777216real) by (nonlinear_arith)
        requires
            power(-24) == 1real / 16777216real,
    ;
}

// ------------------------------------------------------------------ sigmoid and tanh

/// From a number to the next one up is one last place.
pub proof fn lemma_next(x: F32)
    requires
        x.bits < 0x7f7f_ffff,
    ensures
        bits((x.bits + 1) as u32).is_finite_spec(),
        bits((x.bits + 1) as u32).value() == x.value() + power(x.exp()),
{
    let y = bits((x.bits + 1) as u32);
    let p = power(x.exp());
    let s = x.sig() as real;
    assert(y.mag() == x.mag() + 1);
    assert((s + 1real) * p == s * p + p) by (nonlinear_arith);
    if y.exp() == x.exp() {
        assert(y.sig() == x.sig() + 1);
    } else {
        assert(x.sig() == 0xff_ffff && y.sig() == 0x80_0000 && y.exp() == x.exp() + 1);
        lemma_power_step(x.exp());
        assert(8388608real * (2real * p) == 16777216real * p);
    }
}

/// A value between zero and the number with pattern `top` is rounded by at most the last place of
/// the numbers below `top`.
proof fn lemma_faithful(r: F32, x: real, top: u32, e: int)
    requires
        top == 0x3f80_0000 && e == -24 || top == 0x3f00_0000 && e == -25,
        is_rounding(r, x),
        0real <= x <= bits(top).value(),
    ensures
        r.is_finite_spec(),
        0real <= r.value() <= bits(top).value(),
        -power(e) <= r.value() - x <= power(e),
{
    lemma_zero();
    assert(bits(top).is_finite_spec());
    lemma_within(r, x, F32::zero_spec(), bits(top));
    lemma_order(F32::zero_spec(), r);
    lemma_order(r, bits(top));
    lemma_power_step(e);
    let m = r.mag() as u32;
    let a = bits(m);
    assert(a.mag() == r.mag());
    assert(a.value() == r.value()) by {
        if r.is_neg_spec() {
            assert(r.sig() == 0 && a.sig() == 0);
            let p = power(-149);
            assert(0real * p == 0real) by (nonlinear_arith);
        }
    }
    if m > 0 {
        let low = bits((m - 1) as u32);
        lemma_next(low);
        assert(low.exp() <= e);
        lemma_power_monotonic(low.exp(), e);
        lemma_no_number_between(r, x, low);
    }
    if m < top {
        let high = bits((m + 1) as u32);
        lemma_next(a);
        assert(a.exp() <= e);
        lemma_power_monotonic(a.exp(), e);
        lemma_no_number_between(r, x, high);
    }
}

/// A value between the smallest normal number and one is rounded by less than the share of a last
/// place.
proof fn lemma_faithful_normal(r: F32, x: real)
    requires
        is_rounding(r, x),
        power(-126) <= x <= 1real,
    ensures
        r.is_finite_spec(),
        -(x / 8388608real) <= r.value() - x <= x / 8388608real,
{
    lemma_units();
    let lo = bits(0x0080_0000);
    lemma2_to64();
    lemma_power_adds(23, -149);
    assert(power(23) == 8388608real);
    assert(power(23) * power(-149) == 8388608real * power(-149)) by (nonlinear_arith)
        requires
            power(23) == 8388608real,
    ;
    assert(lo.sig() == 0x80_0000 && lo.exp() == -149 && !lo.is_neg_spec());
    assert(lo.value() == power(-126));
    lemma_power_monotonic(-126, -126);
    lemma_within(r, x, lo, bits(ONE));
    lemma_order(lo, r);
    lemma_order(r, bits(ONE));
    if r.value() > x {
        let low = bits((r.bits - 1) as u32);
        lemma_next(low);
        lemma_no_number_between(r, x, low);
        assert(low.order() < r.order());
        assert(low.value() < x);
        lemma_last_place(low);
        assert(r.value() - x <= x / 8388608real);
    } else if r.value() < x {
        let high = bits((r.bits + 1) as u32);
        lemma_next(r);
        lemma_no_number_between(r, x, high);
        assert(r.order() < high.order());
        assert(x < high.value());
        lemma_last_place(r);
        assert(x - r.value() <= x / 8388608real);
    }
}

/// A value from a quarter of the smallest normal number to one is rounded by a small share.
proof fn lemma_faithful_share(r: F32, x: real)
    requires
        is_rounding(r, x),
        power(-128) <= x <= 1real,
    ensures
        r.is_finite_spec(),
        -(x / 2097152real) <= r.value() - x <= x / 2097152real,
        power(-126) <= x ==> -(x / 8388608real) <= r.value() - x <= x / 8388608real,
{
    if power(-126) <= x {
        lemma_faithful_normal(r, x);
        lemma_power_monotonic(-126, -126);
    } else {
        let (lo, hi) = (bits(0x0020_0000), bits(0x0080_0000));
        lemma2_to64();
        lemma_power_adds(21, -149);
        lemma_power_adds(23, -149);
        let p = power(-149);
        assert(power(21) == 2097152real && power(23) == 8388608real);
        assert(power(21) * p == 2097152real * p && power(23) * p == 8388608real * p)
            by (nonlinear_arith)
            requires
                power(21) == 2097152real,
                power(23) == 8388608real,
        ;
        assert(lo.sig() == 0x20_0000 && lo.exp() == -149 && !lo.is_neg_spec());
        assert(hi.sig() == 0x80_0000 && hi.exp() == -149 && !hi.is_neg_spec());
        assert(lo.value() == power(-128) && hi.value() == power(-126));
        lemma_within(r, x, lo, hi);
        lemma_order(lo, r);
        lemma_order(r, hi);
        lemma_power_monotonic(-149, -149);
        if r.value() > x {
            let low = bits((r.bits - 1) as u32);
            lemma_next(low);
            lemma_no_number_between(r, x, low);
            assert(low.order() < r.order());
        } else if r.value() < x {
            let high = bits((r.bits + 1) as u32);
            lemma_next(r);
            lemma_no_number_between(r, x, high);
            assert(r.order() < high.order());
        }
    }
}

/// The last place of a normal number is a small share of it.
pub proof fn lemma_last_place(x: F32)
    requires
        0x0080_0000 <= x.bits < 0x7f80_0000,
    ensures
        8388608real * power(x.exp()) <= x.value(),
{
    let (s, p) = (x.sig() as real, power(x.exp()));
    assert(x.sig() >= 0x80_0000);
    lemma_power_monotonic(x.exp(), x.exp());
    assert(8388608real * p <= s * p) by (nonlinear_arith)
        requires
            s >= 8388608real,
            p >= 0real,
    ;
}

/// `1 / (1 + e)` on reals: how far it moves when `1 + e` moves.
proof fn lemma_reciprocal(d: real, dd: real, g: real, s: real, k: real)
    requires
        g * d == 1real,
        s * dd == 1real,
        d > 0real,
        dd > 0real,
        -(k * dd) <= d - dd <= k * dd,
        0real <= k <= 1real / 1000000real,
    ensures
        0real < g,
        0real < s,
        -(10000011real / 10000000real * k * s) <= g - s <= 10000011real / 10000000real * k * s,
{
    assert(g > 0real) by (nonlinear_arith)
        requires
            g * d == 1real,
            d > 0real,
    ;
    assert(s > 0real) by (nonlinear_arith)
        requires
            s * dd == 1real,
            dd > 0real,
    ;
    let q = d * s;
    // q is next to one
    lemma_share(d, dd, k, s);
    assert(dd * s == 1real) by (nonlinear_arith)
        requires
            s * dd == 1real,
    ;
    assert(k * (dd * s) == k * 1real);
    assert(-k <= q - 1real <= k);
    // g * q == s
    assert(g * q == s) by (nonlinear_arith)
        requires
            g * d == 1real,
            q == d * s,
    {
        assert(g * (d * s) == (g * d) * s);
    }
    assert(-(k * g) <= g * (1real - q) <= k * g) by (nonlinear_arith)
        requires
            -k <= q - 1real <= k,
            g > 0real,
    ;
    assert(g - s == g * (1real - q)) by (nonlinear_arith)
        requires
            g * q == s,
    ;
    assert(g * (1real - k) <= s) by (nonlinear_arith)
        requires
            -(k * g) <= g - s <= k * g,
    ;
    assert(k * g <= 1real / 1000000real * g) by (nonlinear_arith)
        requires
            0real <= k <= 1real / 1000000real,
            g > 0real,
    ;
    assert(g <= 10000011real / 10000000real * s);
    assert(k * g <= 10000011real / 10000000real * k * s) by (nonlinear_arith)
        requires
            g <= 10000011real / 10000000real * s,
            k >= 0real,
    ;
}

/// The share by which `1 + e` may be off, for an `e` with the share that the computed exponential
/// has and a sum that is rounded once.
proof fn lemma_one_more_near(e: F32, x: real, d: F32)
    requires
        e.is_finite_spec(),
        x > 0real,
        -(29real / 100000000real * x) <= e.value() - x <= 29real / 100000000real * x,
        e.value() <= 3real / 2real * power(127),
        d == bits(ONE).add_spec(e),
    ensures
        d.is_finite_spec(),
        1real <= d.value() <= power(128),
        e.value() <= power(125) ==> d.value() <= power(126),
        ({
            let m = (1real + x) / 16777216real + 2901real / 10000000000real * x;
            -m <= d.value() - (1real + x) <= m
        }),
{
    lemma_units();
    lemma_add(bits(ONE), e);
    let y = 1real + e.value();
    lemma2_to64();
    lemma2_to64_rest();
    lemma_power_adds(104, 23);
    lemma_power_adds(104, 24);
    let u = power(104);
    lemma_power_step(104);
    lemma_power_monotonic(0, 104);
    assert(power(23) == 8388608real && power(24) == 16777216real && power(0) == 1real);
    assert(u * power(23) == 8388608real * u && u * power(24) == 16777216real * u)
        by (nonlinear_arith)
        requires
            power(23) == 8388608real,
            power(24) == 16777216real,
    ;
    let top = bits(0x7f7f_ffff);
    assert(top.sig() == 0xff_ffff && top.exp() == 104 && !top.is_neg_spec());
    assert(top.value() == 16777215real * u);
    lemma_within(d, y, bits(ONE), top);
    lemma_power_step(125);
    lemma_power_monotonic(1, 125);
    assert(power(1) == 2real);
    reveal(is_near);
    assert(power(-24) == 1real / 16777216real);
    assert(y * power(-24) == y / 16777216real) by (nonlinear_arith)
        requires
            power(-24) == 1real / 16777216real,
    ;
    lemma_power_monotonic(-150, -24);
}

/// `1 / (1 + x)` on reals.
pub open spec fn logistic(x: real) -> real {
    1real / (1real + x)
}

/// How far `1 / d` is from `1 / (1 + x)`, for a `d` that is off by at most the share of a computed
/// exponential and a rounded sum.
proof fn lemma_logistic(d: real, x: real)
    requires
        x > 0real,
        d >= 1real,
        ({
            let m = (1real + x) / 16777216real + 2901real / 10000000000real * x;
            -m <= d - (1real + x) <= m
        }),
    ensures
        0real < logistic(x) < 1real,
        0real < 1real / d <= 1real,
        ({
            let s = logistic(x);
            let k = 1real / 16777216real + 2901real / 10000000000real * (1real - s);
            let m = 10000011real / 10000000real * k * s;
            -m <= 1real / d - s <= m
        }),
{
    let dd = 1real + x;
    let (g, s) = (1real / d, 1real / dd);
    assert(g * d == 1real && 0real < g <= 1real) by (nonlinear_arith)
        requires
            g == 1real / d,
            d >= 1real,
    ;
    assert(s * dd == 1real && 0real < s < 1real) by (nonlinear_arith)
        requires
            s == 1real / dd,
            dd > 1real,
    ;
    let k = 1real / 16777216real + 2901real / 10000000000real * (1real - s);
    assert(k * dd == dd / 16777216real + 2901real / 10000000000real * x) by (nonlinear_arith)
        requires
            k == 1real / 16777216real + 2901real / 10000000000real * (1real - s),
            s * dd == 1real,
            dd == 1real + x,
    ;
    lemma_reciprocal(d, dd, g, s, k);
}

/// The computed logistic function where its exponential is not cut off.
proof fn lemma_sigmoid_near(f: spec_fn(real) -> real, x: F32)
    requires
        is_exponential(f),
        between(x, -(11583653real / 131072real), 80real),
    ensures
        sigmoid_of(x).is_finite_spec(),
        -(2real / 10000000real) < sigmoid_of(x).value() - logistic(f(-x.value())) < 2real
            / 10000000real,
{
    let m = F32::zero_spec().sub_spec(x);
    lemma_negated(x);
    lemma_exp_near(f, m);
    let e = exp_of(m);
    let v = f(-x.value());
    let d = bits(ONE).add_spec(e);
    lemma_one_more_near(e, v, d);
    lemma_logistic(d.value(), v);
    let s = logistic(v);
    let k = 1real / 16777216real + 2901real / 10000000000real * (1real - s);
    let t = s - 6real / 10real;
    assert(t * t >= 0real) by (nonlinear_arith);
    assert(k * s == 1real / 16777216real * s + 2901real / 10000000000real * (s - s * s))
        by (nonlinear_arith)
        requires
            k == 1real / 16777216real + 2901real / 10000000000real * (1real - s),
    ;
    assert(t * t == s * s - 12real / 10real * s + 36real / 100real) by (nonlinear_arith)
        requires
            t == s - 6real / 10real,
    ;
    assert(k * s <= 1061real / 10000000000real);
    assert(10000011real / 10000000real * k * s == 10000011real / 10000000real * (k * s))
        by (nonlinear_arith);
    lemma_units();
    lemma_zero();
    assert(!d.is_zero_spec()) by {
        lemma_order(d, F32::zero_spec());
    }
    lemma_div(bits(ONE), d);
    let q = bits(ONE).div_spec(d);
    lemma_faithful(q, 1real / d.value(), 0x3f80_0000, -24);
    lemma2_to64();
    assert(power(-24) == 1real / 16777216real);
    assert(sigmoid_of(x) == q) by {
        reveal(sigmoid_of);
        lemma_bits(bits(SIGMOID_LO), 17, 131072);
        lemma_order(bits(SIGMOID_LO), x);
    }
}

/// The same, as a share, up to 80.
proof fn lemma_sigmoid_share(f: spec_fn(real) -> real, x: F32)
    requires
        is_exponential(f),
        between(x, -(11583653real / 131072real), 80real),
    ensures
        sigmoid_of(x).is_finite_spec(),
        ({
            let s = logistic(f(-x.value()));
            let k = if x.value() < -86real {
                9real / 10000000real
            } else {
                5real / 10000000real
            };
            s > 0real && -(k * s) <= sigmoid_of(x).value() - s <= k * s
        }),
{
    let m = F32::zero_spec().sub_spec(x);
    lemma_negated(x);
    lemma_exp_near(f, m);
    let e = exp_of(m);
    let v = f(-x.value());
    let d = bits(ONE).add_spec(e);
    lemma_one_more_near(e, v, d);
    lemma_logistic(d.value(), v);
    let s = logistic(v);
    let k = 1real / 16777216real + 2901real / 10000000000real * (1real - s);
    assert(10000011real / 10000000real * k * s <= 35real / 100000000real * s) by (nonlinear_arith)
        requires
            10000011real / 10000000real * k <= 35real / 100000000real,
            s >= 0real,
    ;
    lemma_units();
    lemma_zero();
    assert(!d.is_zero_spec()) by {
        lemma_order(d, F32::zero_spec());
    }
    lemma_div(bits(ONE), d);
    let q = bits(ONE).div_spec(d);
    let g = 1real / d.value();
    lemma_over(d.value(), 128);
    if x.value() >= -86real {
        lemma_over(d.value(), 126);
    }
    lemma_faithful_share(q, g);
    assert(sigmoid_of(x) == q) by {
        reveal(sigmoid_of);
        lemma2_to64();
        lemma_bits(bits(SIGMOID_LO), 17, 131072);
        lemma_order(bits(SIGMOID_LO), x);
    }
}

proof fn lemma_over(d: real, n: int)
    requires
        1real <= d <= power(n),
    ensures
        power(-n) <= 1real / d,
{
    let (g, big, small) = (1real / d, power(n), power(-n));
    lemma_power_adds(n, -n);
    assert(power(0) == 1real) by {
        lemma2_to64();
    }
    assert(small <= g) by (nonlinear_arith)
        requires
            g == 1real / d,
            1real <= d <= big,
            big * small == 1real,
    {
        assert(g * d == 1real);
        assert(g > 0real);
        assert(g * d <= g * big);
        assert((g - small) * big >= 0real);
    }
}

/// The exponential of what is not negative is at least one.
proof fn lemma_at_least_one(f: spec_fn(real) -> real, b: real, k: nat)
    requires
        is_exponential(f),
        0real <= b,
        b <= power(k as int) / 4real,
    ensures
        f(b) >= 1real,
    decreases k,
{
    lemma2_to64();
    if k == 0 {
        assert(power(0) == 1real);
        lemma_series(f, b, 1);
        lemma_term(b, 1);
        lemma_term(b, 2);
        assert(term(b, 0) == 1real && series(b, 0) == 1real);
        assert(1real * term(b, 1) == 1real * b);
        assert(2real * term(b, 2) == term(b, 1) * b);
        assert(0real <= b * b <= b) by (nonlinear_arith)
            requires
                0real <= b <= 1real / 4real,
        ;
    } else {
        lemma_power_step(k - 1);
        let h = f(b / 2real);
        lemma_at_least_one(f, b / 2real, (k - 1) as nat);
        lemma_sum(f, b / 2real, b / 2real);
        assert(b / 2real + b / 2real == b);
        assert(h * h >= 1real) by (nonlinear_arith)
            requires
                h >= 1real,
        ;
    }
}

/// The exponential from 5/4 to 80 is at least 3.488.
proof fn lemma_large(f: spec_fn(real) -> real, b: real)
    requires
        is_exponential(f),
        5real / 4real <= b <= 80real,
    ensures
        f(b) >= 3488real / 1000real,
{
    let q = 5real / 16real;
    lemma_series(f, q, 4);
    assert(term(q, 0) == 1real && series(q, 0) == 1real);
    lemma_term(q, 1);
    lemma_term(q, 2);
    lemma_term(q, 3);
    lemma_term(q, 4);
    lemma_term(q, 5);
    let a = f(q);
    assert(a >= 13667real / 10000real);
    lemma_sum(f, q, q);
    let c = f(5real / 8real);
    assert(c >= 18678real / 10000real) by (nonlinear_arith)
        requires
            c == a * a,
            a >= 13667real / 10000real,
    ;
    lemma_sum(f, 5real / 8real, 5real / 8real);
    let e = f(5real / 4real);
    assert(e >= 3488real / 1000real) by (nonlinear_arith)
        requires
            e == c * c,
            c >= 18678real / 10000real,
    ;
    let r = b - 5real / 4real;
    lemma2_to64();
    assert(power(9) == 512real);
    lemma_at_least_one(f, r, 9);
    lemma_sum(f, 5real / 4real, r);
    assert(5real / 4real + r == b);
    let g = f(r);
    assert(e * g >= e) by (nonlinear_arith)
        requires
            e >= 0real,
            g >= 1real,
    ;
}

// ------------------------------------------------------------------ far from zero

/// From 40 on the exponential is very large.
proof fn lemma_grown(f: spec_fn(real) -> real, b: real)
    requires
        is_exponential(f),
        40real <= b <= power(130),
    ensures
        f(b) >= 100000000000000000real,
{
    lemma_large(f, 5real / 4real);
    lemma_squared(f, 5real / 4real, 3488real / 1000real);
    lemma_squared(f, 5real / 2real, 12real);
    lemma_squared(f, 5real, 144real);
    lemma_squared(f, 10real, 20736real);
    lemma_squared(f, 20real, 429981696real);
    lemma_power_step(130);
    lemma_power_step(131);
    lemma_at_least_one(f, b - 40real, 132);
    lemma_sum(f, 40real, b - 40real);
    let (x, y) = (f(40real), f(b - 40real));
    assert(x * y >= 100000000000000000real) by (nonlinear_arith)
        requires
            x >= 100000000000000000real,
            y >= 1real,
    ;
}

proof fn lemma_squared(f: spec_fn(real) -> real, b: real, c: real)
    requires
        is_exponential(f),
        f(b) >= c > 0real,
    ensures
        f(2real * b) >= c * c,
{
    lemma_sum(f, b, b);
    assert(b + b == 2real * b);
    let x = f(b);
    assert(x * x >= c * c) by (nonlinear_arith)
        requires
            x >= c > 0real,
    ;
}

/// No number is larger than 2^128.
pub proof fn lemma_bounded(x: F32)
    requires
        x.is_finite_spec(),
    ensures
        -power(128) <= x.value() <= power(128),
{
    let (s, p, u) = (x.sig() as real, power(x.exp()), power(104));
    lemma_power_monotonic(x.exp(), 104);
    lemma2_to64();
    lemma_power_adds(24, 104);
    assert(power(24) == 16777216real);
    assert(0real <= s * p <= power(24) * u) by (nonlinear_arith)
        requires
            0real <= s <= 16777216real,
            0real < p <= u,
            power(24) == 16777216real,
    ;
}

/// The computed exponential from 80 on is large, or infinite.
proof fn lemma_exp_far_up(x: F32)
    requires
        !x.is_nan_spec(),
        bits(0x42a0_0000).order() <= x.order(),
    ensures
        !exp_of(x).is_nan_spec(),
        bits(0x4e80_0000).order() <= exp_of(x).order(),
        bits(0x4e80_0000).value() == 1073741824real,
{
    let n = lemma_exp(x);
    let c = exp_clamped(x);
    lemma_exp_constants();
    lemma2_to64();
    let eighty = bits(0x42a0_0000);
    lemma_bits(eighty, 17, 131072);
    lemma_order(eighty, c);
    let m = lemma_reduction(c);
    let nr = n as real;
    assert(m as real == nr);
    assert(nr * octave() == nr * 355real / 512real - nr * 14581891real / 68719476736real)
        by (nonlinear_arith)
        requires
            octave() == 355real / 512real - 14581891real / 68719476736real,
    ;
    assert(nr > 31real);
    let r = exp_reduced(c, exp_octaves(c));
    lemma_exp_poly(r);
    let (y, p, q) = (exp_poly(r).value(), power(n), power(31));
    lemma_power_monotonic(31, n);
    assert(q == 2147483648real);
    assert(y * p >= 58real / 100real * q) by (nonlinear_arith)
        requires
            y >= 58real / 100real,
            p >= q > 0real,
    ;
    let big = bits(0x4e80_0000);
    lemma_power_step(7);
    assert(power(7) == 128real);
    assert(big.sig() == 0x80_0000 && big.exp() == 7 && !big.is_neg_spec());
    assert(big.value() == 8388608real * power(7));
    lemma_no_number_between(exp_of(x), y * p, big);
}

/// The computed exponential from -80 down is small.
proof fn lemma_exp_far_down(x: F32)
    requires
        !x.is_nan_spec(),
        x.order() <= bits(0xc2a0_0000).order(),
    ensures
        between(exp_of(x), 0real, 1real / 1073741824real),
{
    let n = lemma_exp(x);
    let c = exp_clamped(x);
    lemma_exp_constants();
    lemma2_to64();
    let eighty = bits(0xc2a0_0000);
    lemma_bits(eighty, 17, 131072);
    lemma_order(c, eighty);
    let m = lemma_reduction(c);
    let nr = n as real;
    assert(m as real == nr);
    assert(nr * octave() == nr * 355real / 512real - nr * 14581891real / 68719476736real)
        by (nonlinear_arith)
        requires
            octave() == 355real / 512real - 14581891real / 68719476736real,
    ;
    assert(nr < -31real);
    let r = exp_reduced(c, exp_octaves(c));
    lemma_exp_poly(r);
    let (y, p, q) = (exp_poly(r).value(), power(n), power(-31));
    lemma_power_monotonic(n, -31);
    assert(q == 1real / 2147483648real);
    assert(0real <= y * p <= 143real / 100real * q) by (nonlinear_arith)
        requires
            0real <= y <= 143real / 100real,
            0real < p <= q,
    ;
    let small = bits(0x3080_0000);
    lemma2_to64_rest();
    lemma_bits(small, 53, 9007199254740992);
    lemma_zero();
    lemma_within(exp_of(x), y * p, F32::zero_spec(), small);
}

/// The computed logistic function from 80 on.
proof fn lemma_sigmoid_far_up(f: spec_fn(real) -> real, x: F32)
    requires
        is_exponential(f),
        x.is_finite_spec(),
        x.value() >= 80real,
    ensures
        between(sigmoid_of(x), 1real - 1real / 8388608real, 1real),
        1real - 1real / 100000000000000000real <= logistic(f(-x.value())) <= 1real,
{
    let m = F32::zero_spec().sub_spec(x);
    lemma_negated(x);
    lemma2_to64();
    lemma_bits(bits(0xc2a0_0000), 17, 131072);
    lemma_order(m, bits(0xc2a0_0000));
    lemma_exp_far_down(m);
    let e = exp_of(m);
    lemma_units();
    lemma_zero();
    let one = bits(ONE);
    let d = one.add_spec(e);
    lemma_add(one, e);
    let above = bits(0x3f80_0001);
    lemma_bits(above, 23, 8388608);
    lemma_within(d, 1real + e.value(), one, above);
    assert(!d.is_zero_spec()) by {
        lemma_order(d, F32::zero_spec());
    }
    lemma_div(one, d);
    let q = one.div_spec(d);
    let below = bits(0x3f7f_fffe);
    lemma_bits(below, 24, 16777216);
    let (g, dv) = (1real / d.value(), d.value());
    assert(1real - 1real / 8388608real <= g <= 1real) by (nonlinear_arith)
        requires
            g == 1real / dv,
            1real <= dv <= 1real + 1real / 8388608real,
    {
        assert(g * dv == 1real);
        assert(g <= 1real);
        assert(g * dv <= g + g * (1real / 8388608real));
    }
    lemma_within(q, g, below, one);
    // the function itself
    lemma_bounded(x);
    lemma_power_monotonic(128, 130);
    let v = x.value();
    lemma_grown(f, v);
    lemma_positive(f, v);
    lemma_positive(f, -v);
    let (a, b) = (f(v), f(-v));
    assert(0real < b <= 1real / 100000000000000000real) by (nonlinear_arith)
        requires
            a * b == 1real,
            a >= 100000000000000000real,
            b > 0real,
    ;
    let s = logistic(b);
    assert(1real - b <= s <= 1real) by (nonlinear_arith)
        requires
            s == 1real / (1real + b),
            b > 0real,
    {
        assert(s * (1real + b) == 1real);
    }
    assert(sigmoid_of(x) == q) by {
        reveal(sigmoid_of);
        lemma_bits(bits(SIGMOID_LO), 17, 131072);
        lemma_order(bits(SIGMOID_LO), x);
    }
}

/// The computed logistic function from -80 down.
proof fn lemma_sigmoid_far_down(f: spec_fn(real) -> real, x: F32)
    requires
        is_exponential(f),
        x.is_finite_spec(),
        x.value() <= -80real,
    ensures
        between(sigmoid_of(x), 0real, 1real / 100000000real),
        0real <= logistic(f(-x.value())) <= 1real / 100000000real,
{
    lemma_units();
    lemma_zero();
    let zero = F32::zero_spec();
    let one = bits(ONE);
    let m = zero.sub_spec(x);
    lemma_negated(x);
    lemma2_to64();
    lemma2_to64_rest();
    let eighty = bits(0x42a0_0000);
    lemma_bits(eighty, 17, 131072);
    lemma_order(eighty, m);
    lemma_exp_far_up(m);
    let e = exp_of(m);
    let d = one.add_spec(e);
    let q = one.div_spec(d);
    let big = bits(0x4e80_0000);
    if e.is_inf_spec() {
        reveal(F32::add_spec);
        reveal(F32::div_spec);
        assert(q.is_zero_spec());
    } else {
        lemma_order(big, e);
        lemma_add(one, e);
        lemma_no_number_between(d, 1real + e.value(), big);
        if d.is_inf_spec() {
            reveal(F32::div_spec);
            assert(q.is_zero_spec());
        } else {
            lemma_order(big, d);
            assert(!d.is_zero_spec()) by {
                lemma_order(d, zero);
            }
            lemma_div(one, d);
            let small = bits(0x3080_0000);
            lemma_bits(small, 53, 9007199254740992);
            let (g, dv) = (1real / d.value(), d.value());
            assert(0real <= g <= 1real / 1073741824real) by (nonlinear_arith)
                requires
                    g == 1real / dv,
                    dv >= 1073741824real,
            {
                assert(g * dv == 1real);
            }
            lemma_within(q, g, zero, small);
        }
    }
    assert(q.is_finite_spec() && 0real <= q.value() <= 1real / 1073741824real) by {
        if q.is_zero_spec() {
            assert(q.sig() == 0);
            let p = power(q.exp());
            assert(0real * p == 0real) by (nonlinear_arith);
        }
    }
    assert(sigmoid_of(x) == q || sigmoid_of(x) == zero) by {
        reveal(sigmoid_of);
    }
    // the function itself
    lemma_bounded(x);
    lemma_power_monotonic(128, 130);
    let v = f(-x.value());
    lemma_grown(f, -x.value());
    let s = logistic(v);
    assert(0real <= s <= 1real / 100000000real) by (nonlinear_arith)
        requires
            s == 1real / (1real + v),
            v >= 100000000000000000real,
    {
        assert(s * (1real + v) == 1real);
    }
}

/// The computed logistic function of a number is less than 2e-7 from `1 / (1 + e^-x)`.
pub proof fn law_sigmoid_is_near_the_logistic_function(f: spec_fn(real) -> real, x: F32)
    requires
        is_exponential(f),
        x.is_finite_spec(),
    ensures
        sigmoid_of(x).is_finite_spec(),
        -(2real / 10000000real) < sigmoid_of(x).value() - logistic(f(-x.value())) < 2real
            / 10000000real,
{
    if x.value() > 80real {
        lemma_sigmoid_far_up(f, x);
    } else if x.value() < -80real {
        lemma_sigmoid_far_down(f, x);
    } else {
        lemma_sigmoid_near(f, x);
    }
}

/// The computed logistic function of a number from about -88.376, where its exponential would be
/// cut off, is within a share of 9e-7 of `1 / (1 + e^-x)`, and from -86 within a share of 5e-7.
pub proof fn law_sigmoid_is_a_share_from_the_logistic_function(f: spec_fn(real) -> real, x: F32)
    requires
        is_exponential(f),
        x.is_finite_spec(),
        x.value() >= -(11583653real / 131072real),
    ensures
        sigmoid_of(x).is_finite_spec(),
        ({
            let s = logistic(f(-x.value()));
            let k = if x.value() < -86real {
                9real / 10000000real
            } else {
                5real / 10000000real
            };
            s > 0real && -(k * s) <= sigmoid_of(x).value() - s <= k * s
        }),
{
    if x.value() <= 80real {
        lemma_sigmoid_share(f, x);
    } else {
        lemma_sigmoid_far_up(f, x);
        let s = logistic(f(-x.value()));
        assert(5real / 10000000real * s >= 4real / 10000000real);
    }
}

/// `1 - 2 / (1 + x)` on reals.
pub open spec fn hyperbolic(x: real) -> real {
    1real - 2real * logistic(x)
}

/// A number added to itself is twice the number.
proof fn lemma_twice(x: F32)
    requires
        between(x, -40real, 40real),
        x.exp() <= 99,
    ensures
        between(x.add_spec(x), -80real, 80real),
        x.add_spec(x).value() == 2real * x.value(),
{
    let k = with_sign(x.is_neg_spec(), x.sig());
    let e = x.exp() + 1;
    lemma_dyadic(k, e);
    lemma_power_step(x.exp());
    let c = dyadic(k, e);
    let (a, p) = (x.sig() as real, power(x.exp()));
    assert(a * (2real * p) == 2real * (a * p) && (-a) * (2real * p) == -(2real * (a * p)))
        by (nonlinear_arith);
    assert(c.value() == 2real * x.value());
    lemma_add(x, x);
    lemma_within(x.add_spec(x), x.value() + x.value(), c, c);
}

/// The computed hyperbolic tangent for sizes of at least 0.625.
proof fn lemma_tanh_large_near(f: spec_fn(real) -> real, x: F32)
    requires
        is_exponential(f),
        between(x, 5real / 8real, 40real),
    ensures
        tanh_large(x).is_finite_spec(),
        -(2real / 10000000real) < tanh_large(x).value() - hyperbolic(f(2real * x.value())) < 2real
            / 10000000real,
        hyperbolic(f(2real * x.value())) >= 55real / 100real,
{
    lemma_units();
    lemma_zero();
    lemma_small_exponent(x);
    lemma_twice(x);
    let m = x.add_spec(x);
    lemma_exp_near(f, m);
    let e = exp_of(m);
    let v = f(2real * x.value());
    lemma_large(f, 2real * x.value());
    let d = e.add_spec(bits(ONE));
    law_addition_commutes(e, bits(ONE));
    lemma_one_more_near(e, v, d);
    lemma_logistic(d.value(), v);
    let s = logistic(v);
    let dd = 1real + v;
    assert(s <= 22282real / 100000real) by (nonlinear_arith)
        requires
            s == 1real / dd,
            dd >= 4488real / 1000real,
    ;
    let k = 1real / 16777216real + 2901real / 10000000000real * (1real - s);
    let a = 22282real / 100000real;
    assert(s - s * s <= a - a * a) by (nonlinear_arith)
        requires
            0real < s <= a,
            a == 22282real / 100000real,
    {
        assert((a - s) * (1real - a - s) >= 0real);
        assert((a - s) * (1real - a - s) == a - a * a - s + s * s);
    }
    assert(a * a == 22282real / 100000real * 22282real / 100000real);
    assert(k * s == 1real / 16777216real * s + 2901real / 10000000000real * (s - s * s))
        by (nonlinear_arith)
        requires
            k == 1real / 16777216real + 2901real / 10000000000real * (1real - s),
    ;
    assert(k * s <= 6353real / 100000000000real);
    assert(10000011real / 10000000real * k * s == 10000011real / 10000000real * (k * s))
        by (nonlinear_arith);
    let g = 1real / d.value();
    assert(2real / d.value() == 2real * g) by (nonlinear_arith)
        requires
            g == 1real / d.value(),
            d.value() >= 1real,
    ;
    // the quotient
    assert(!d.is_zero_spec()) by {
        lemma_order(d, F32::zero_spec());
    }
    lemma_div(bits(TWO), d);
    let q = bits(TWO).div_spec(d);
    lemma2_to64();
    lemma_bits(bits(0x3f00_0000), 24, 16777216);
    lemma_faithful(q, 2real * g, 0x3f00_0000, -25);
    assert(power(-25) == 1real / 33554432real && power(0) == 1real);
    // the difference
    lemma_neg(q);
    lemma_add(bits(ONE), q.neg_spec());
    let t = tanh_large(x);
    lemma_within(t, 1real - q.value(), F32::zero_spec(), bits(ONE));
    if q.value() == 0real {
        lemma_within(t, 1real, bits(ONE), bits(ONE));
    } else {
        lemma_add_below(bits(ONE), q.neg_spec(), 0);
    }
}

/// The same far from zero.
proof fn lemma_tanh_far(f: spec_fn(real) -> real, x: F32)
    requires
        is_exponential(f),
        x.is_finite_spec(),
        x.value() >= 40real,
    ensures
        tanh_large(x).is_finite_spec(),
        1real - 1real / 16777216real <= tanh_large(x).value() <= 1real,
        1real - 1real / 10000000000000000real <= hyperbolic(f(2real * x.value())) <= 1real,
{
    lemma_units();
    lemma_zero();
    lemma2_to64();
    let zero = F32::zero_spec();
    let one = bits(ONE);
    let m = x.add_spec(x);
    let eighty = bits(0x42a0_0000);
    lemma_bits(eighty, 17, 131072);
    lemma_add(x, x);
    lemma_no_number_between(m, x.value() + x.value(), eighty);
    lemma_exp_far_up(m);
    let e = exp_of(m);
    let d = e.add_spec(one);
    let q = bits(TWO).div_spec(d);
    let t = tanh_large(x);
    let big = bits(0x4e80_0000);
    if e.is_inf_spec() {
        reveal(F32::add_spec);
        reveal(F32::div_spec);
        assert(q.is_zero_spec());
    } else {
        lemma_order(big, e);
        lemma_add(e, one);
        lemma_no_number_between(d, e.value() + 1real, big);
        if d.is_inf_spec() {
            reveal(F32::div_spec);
            assert(q.is_zero_spec());
        } else {
            lemma_order(big, d);
            assert(!d.is_zero_spec()) by {
                lemma_order(d, zero);
            }
            lemma_div(bits(TWO), d);
            let small = bits(0x3100_0000);
            lemma2_to64_rest();
            lemma_bits(small, 52, 4503599627370496);
            let (g, dv) = (2real / d.value(), d.value());
            assert(0real <= g <= 1real / 536870912real) by (nonlinear_arith)
                requires
                    g == 2real / dv,
                    dv >= 1073741824real,
            {
                assert(g * dv == 2real);
            }
            lemma_within(q, g, zero, small);
        }
    }
    assert(q.is_finite_spec() && 0real <= q.value() <= 1real / 536870912real) by {
        if q.is_zero_spec() {
            assert(q.sig() == 0);
            let p = power(q.exp());
            assert(0real * p == 0real) by (nonlinear_arith);
        }
    }
    lemma_neg(q);
    lemma_add(one, q.neg_spec());
    let below = bits(0x3f7f_ffff);
    lemma_bits(below, 24, 16777216);
    lemma_within(t, 1real - q.value(), below, one);
    // the function itself
    lemma_bounded(x);
    lemma_power_step(128);
    lemma_power_monotonic(129, 130);
    let v = f(2real * x.value());
    lemma_grown(f, 2real * x.value());
    let s = logistic(v);
    assert(0real <= s <= 1real / 100000000000000000real) by (nonlinear_arith)
        requires
            s == 1real / (1real + v),
            v >= 100000000000000000real,
    {
        assert(s * (1real + v) == 1real);
    }
}

/// The computed hyperbolic tangent for sizes of at least 0.625, however large.
proof fn lemma_tanh_above(f: spec_fn(real) -> real, x: F32)
    requires
        is_exponential(f),
        x.is_finite_spec(),
        x.value() >= 5real / 8real,
    ensures
        tanh_large(x).is_finite_spec(),
        -(2real / 10000000real) < tanh_large(x).value() - hyperbolic(f(2real * x.value())) < 2real
            / 10000000real,
        hyperbolic(f(2real * x.value())) >= 55real / 100real,
{
    if x.value() <= 40real {
        lemma_tanh_large_near(f, x);
    } else {
        lemma_tanh_far(f, x);
    }
}

/// A number between -40 and 40 has a small exponent.
proof fn lemma_small_exponent(x: F32)
    requires
        between(x, -40real, 40real),
    ensures
        x.exp() <= 99,
{
    lemma2_to64();
    let (hi, lo) = (bits(0x4220_0000), bits(0xc220_0000));
    lemma_bits(hi, 18, 262144);
    lemma_bits(lo, 18, 262144);
    lemma_order(x, hi);
    lemma_order(lo, x);
}

/// The other sign turns the hyperbolic tangent's sign.
proof fn lemma_odd(x: real, y: real)
    requires
        x > 0real,
        x * y == 1real,
    ensures
        hyperbolic(y) == -hyperbolic(x),
{
    assert(y > 0real) by (nonlinear_arith)
        requires
            x * y == 1real,
            x > 0real,
    ;
    let (s, d) = (1real / (1real + x), 1real + y);
    assert(s * (1real + x) == 1real) by (nonlinear_arith)
        requires
            s == 1real / (1real + x),
            x > 0real,
    ;
    let u = s * d;
    assert(u * x == s * (1real + x)) by (nonlinear_arith)
        requires
            u == s * d,
            d == 1real + y,
            x * y == 1real,
    {
        assert((s * d) * x == s * (d * x));
        assert(d * x == x + x * y) by (nonlinear_arith)
            requires
                d == 1real + y,
        ;
    }
    assert(u == y) by (nonlinear_arith)
        requires
            u * x == 1real,
            x * y == 1real,
            x > 0real,
    {
        assert((u - y) * x == 0real);
    }
    assert((1real - s) * d == 1real) by (nonlinear_arith)
        requires
            s * d == y,
            d == 1real + y,
    ;
    assert(1real / d == 1real - s) by (nonlinear_arith)
        requires
            (1real - s) * d == 1real,
            d > 0real,
    ;
}

/// Next to zero the hyperbolic tangent is the number itself, to within a share of it.
proof fn lemma_tanh_small_near(f: spec_fn(real) -> real, v: real, a: real)
    requires
        is_exponential(f),
        -(1real / 4000real) <= v <= 1real / 4000real,
        a == if v < 0real {
            -v
        } else {
            v
        },
    ensures
        -(3real / 10000000real * a) <= v - hyperbolic(f(2real * v)) <= 3real / 10000000real * a,
{
    let r = 2real * v;
    let x = f(r);
    lemma_positive(f, r);
    lemma_series(f, r, 2);
    assert(term(r, 0) == 1real && series(r, 0) == 1real);
    lemma_term(r, 1);
    lemma_term(r, 2);
    lemma_term(r, 3);
    let (t1, t2, t3) = (term(r, 1), term(r, 2), term(r, 3));
    assert(1real * t1 == 1real * r);
    assert(2real * t2 == t1 * r);
    assert(3real * t3 == t2 * r);
    lemma_product(r, r, 1real / 2000real, 1real / 2000real);
    lemma_product(t2, r, 1real / 8000000real, 2real * a);
    let d = x - (1real + r + t2);
    assert(-(17real / 100000000real * a) <= d <= 17real / 100000000real * a);
    // v * (x + 1) - (x - 1)
    let w = v * (x + 1real) - (x - 1real);
    assert(t2 == 2real * (v * v)) by (nonlinear_arith)
        requires
            2real * t2 == r * r,
            r == 2real * v,
    ;
    let c = v * t2;
    assert(w == c + v * d - d) by (nonlinear_arith)
        requires
            w == v * (x + 1real) - (x - 1real),
            x == 1real + r + t2 + d,
            r == 2real * v,
            t2 == 2real * (v * v),
            c == v * t2,
    ;
    lemma_product(t2, v, 1real / 8000000real, a);
    assert(c == t2 * v) by (nonlinear_arith)
        requires
            c == v * t2,
    ;
    lemma_product(v, d, 1real / 4000real, 17real / 100000000real * a);
    assert(-(3real / 10000000real * a) <= w <= 3real / 10000000real * a);
    let s = logistic(x);
    assert(s * (1real + x) == 1real && 0real < s < 1real) by (nonlinear_arith)
        requires
            s == 1real / (1real + x),
            x > 0real,
    ;
    let h = hyperbolic(x);
    assert(v - h == w * s) by (nonlinear_arith)
        requires
            h == 1real - 2real * s,
            w == v * (x + 1real) - (x - 1real),
            s * (1real + x) == 1real,
    {
        assert(w * s == v * (s * (1real + x)) - (x - 1real) * s);
        assert((x - 1real) * s == s * (1real + x) - 2real * s);
    }
    lemma_product(w, s, 3real / 10000000real * a, 1real);
}

// ------------------------------------------------------------------ tanh between 2.44e-4 and 0.625

/// The even terms of the series up to `v^10 / 10!`.
spec fn even_sum(v: real) -> real {
    term(v, 0) + term(v, 2) + term(v, 4) + term(v, 6) + term(v, 8) + term(v, 10)
}

/// The odd terms of the series up to `v^11 / 11!`, each over `v`.
spec fn odd_sum(v: real) -> real {
    term(v, 0) + term(v, 2) / 3real + term(v, 4) / 5real + term(v, 6) / 7real + term(v, 8) / 9real
        + term(v, 10) / 11real
}

/// Two terms on.
proof fn lemma_even_step(v: real, i: nat, p: real, q: real)
    requires
        p == (i + 1) as real,
        q == (i + 2) as real,
    ensures
        term(v, i) * (v * v) == p * (q * term(v, i + 2)),
{
    lemma_term(v, i + 1);
    lemma_term(v, i + 2);
    let (a, b, c) = (term(v, i), term(v, i + 1), term(v, i + 2));
    lemma_associates(a, v, v);
    lemma_associates(p, b, v);
    assert(a * v == p * b);
    assert(b * v == q * c);
    assert((a * v) * v == (p * b) * v);
}

/// The polynomial times the even terms gives the odd ones over `v`.
#[verifier::rlimit(100)]
#[verifier::spinoff_prover]
proof fn lemma_tanh_identity(v: real)
    requires
        -(5real / 8real) <= v <= 5real / 8real,
    ensures
        -(2real / 100000000real) <= tanh_sum(v * v) * even_sum(v) - odd_sum(v) <= 2real
            / 100000000real,
{
    let z = v * v;
    lemma_product(v, v, 5real / 8real, 5real / 8real);
    let e0 = term(v, 0);
    let e1 = term(v, 2);
    let e2 = term(v, 4);
    let e3 = term(v, 6);
    let e4 = term(v, 8);
    let e5 = term(v, 10);
    let e6 = term(v, 12);
    let e7 = term(v, 14);
    let e8 = term(v, 16);
    let e9 = term(v, 18);
    let e10 = term(v, 20);
    let e11 = term(v, 22);
    let e12 = term(v, 24);
    let e13 = term(v, 26);
    let e14 = term(v, 28);
    assert(e0 == 1real);
    lemma_even_step(v, 0, 1real, 2real);
    assert(e0 * z == 2real * e1);
    lemma_product(e0, z, 1real, 25real / 64real);
    assert(-(25real / 128real) <= e1 <= 25real / 128real);
    lemma_even_step(v, 2, 3real, 4real);
    assert(e1 * z == 12real * e2);
    lemma_product(e1, z, 25real / 128real, 25real / 64real);
    assert(-(635782877604167real / 100000000000000000real) <= e2 <= 635782877604167real / 100000000000000000real);
    lemma_even_step(v, 4, 5real, 6real);
    assert(e2 * z == 30real * e3);
    lemma_product(e2, z, 635782877604167real / 100000000000000000real, 25real / 64real);
    assert(-(331136915418837real / 4000000000000000000real) <= e3 <= 331136915418837real / 4000000000000000000real);
    lemma_even_step(v, 6, 7real, 8real);
    assert(e3 * z == 56real * e4);
    lemma_product(e3, z, 331136915418837real / 4000000000000000000real, 25real / 64real);
    assert(-(11549139070132429real / 20000000000000000000000real) <= e4 <= 11549139070132429real / 20000000000000000000000real);
    lemma_even_step(v, 8, 9real, 10real);
    assert(e4 * z == 90real * e5);
    lemma_product(e4, z, 11549139070132429real / 20000000000000000000000real, 25real / 64real);
    assert(-(250632358292804449real / 100000000000000000000000000real) <= e5 <= 250632358292804449real / 100000000000000000000000000real);
    lemma_even_step(v, 10, 11real, 12real);
    assert(e5 * z == 132real * e6);
    lemma_product(e5, z, 250632358292804449real / 100000000000000000000000000real, 25real / 64real);
    assert(-(741691401197929833real / 100000000000000000000000000000real) <= e6 <= 741691401197929833real / 100000000000000000000000000000real);
    lemma_even_step(v, 12, 13real, 14real);
    assert(e6 * z == 182real * e7);
    lemma_product(e6, z, 741691401197929833real / 100000000000000000000000000000real, 25real / 64real);
    assert(-(795942867013575113real / 50000000000000000000000000000000real) <= e7 <= 795942867013575113real / 50000000000000000000000000000000real);
    lemma_even_step(v, 14, 15real, 16real);
    assert(e7 * z == 240real * e8);
    lemma_product(e7, z, 795942867013575113real / 50000000000000000000000000000000real, 25real / 64real);
    assert(-(2590959853559814821real / 100000000000000000000000000000000000real) <= e8 <= 2590959853559814821real / 100000000000000000000000000000000000real);
    lemma_even_step(v, 16, 17real, 18real);
    assert(e8 * z == 306real * e9);
    lemma_product(e8, z, 2590959853559814821real / 100000000000000000000000000000000000real, 25real / 64real);
    assert(-(661499145618825271real / 20000000000000000000000000000000000000real) <= e9 <= 661499145618825271real / 20000000000000000000000000000000000000real);
    lemma_even_step(v, 18, 19real, 20real);
    assert(e9 * z == 380real * e10);
    lemma_product(e9, z, 661499145618825271real / 20000000000000000000000000000000000000real, 25real / 64real);
    assert(-(3399975049438863441real / 100000000000000000000000000000000000000000real) <= e10 <= 3399975049438863441real / 100000000000000000000000000000000000000000real);
    lemma_even_step(v, 20, 21real, 22real);
    assert(e10 * z == 462real * e11);
    lemma_product(e10, z, 3399975049438863441real / 100000000000000000000000000000000000000000real, 25real / 64real);
    assert(-(574941668262794819real / 20000000000000000000000000000000000000000000real) <= e11 <= 574941668262794819real / 20000000000000000000000000000000000000000000real);
    lemma_even_step(v, 22, 23real, 24real);
    assert(e11 * z == 552real * e12);
    lemma_product(e11, z, 574941668262794819real / 20000000000000000000000000000000000000000000real, 25real / 64real);
    assert(-(31785918982839989real / 1562500000000000000000000000000000000000000000real) <= e12 <= 31785918982839989real / 1562500000000000000000000000000000000000000000real);
    lemma_even_step(v, 24, 25real, 26real);
    assert(e12 * z == 650real * e13);
    lemma_product(e12, z, 31785918982839989real / 1562500000000000000000000000000000000000000000real, 25real / 64real);
    assert(-(1222535345493845731real / 100000000000000000000000000000000000000000000000000real) <= e13 <= 1222535345493845731real / 100000000000000000000000000000000000000000000000000real);
    lemma_even_step(v, 26, 27real, 28real);
    assert(e13 * z == 756real * e14);
    lemma_product(e13, z, 1222535345493845731real / 100000000000000000000000000000000000000000000000000real, 25real / 64real);
    assert(-(631683689594621017real / 100000000000000000000000000000000000000000000000000000real) <= e14 <= 631683689594621017real / 100000000000000000000000000000000000000000000000000000real);
    let c0 = even_sum(v);
    lemma_step(
        c0,
        z,
        1real,
        e0,
        1real,
        e1,
        1real,
        e2,
        1real,
        e3,
        1real,
        e4,
        1real,
        e5,
    );
    let c1 = c0 * z;
    assert(c1 == 2real * e1
        + 12real * e2
        + 30real * e3
        + 56real * e4
        + 90real * e5
        + 132real * e6);
    lemma_step(
        c1,
        z,
        2real,
        e1,
        12real,
        e2,
        30real,
        e3,
        56real,
        e4,
        90real,
        e5,
        132real,
        e6,
    );
    let c2 = c1 * z;
    assert(c2 == 24real * e2
        + 360real * e3
        + 1680real * e4
        + 5040real * e5
        + 11880real * e6
        + 24024real * e7);
    lemma_step(
        c2,
        z,
        24real,
        e2,
        360real,
        e3,
        1680real,
        e4,
        5040real,
        e5,
        11880real,
        e6,
        24024real,
        e7,
    );
    let c3 = c2 * z;
    assert(c3 == 720real * e3
        + 20160real * e4
        + 151200real * e5
        + 665280real * e6
        + 2162160real * e7
        + 5765760real * e8);
    lemma_step(
        c3,
        z,
        720real,
        e3,
        20160real,
        e4,
        151200real,
        e5,
        665280real,
        e6,
        2162160real,
        e7,
        5765760real,
        e8,
    );
    let c4 = c3 * z;
    assert(c4 == 40320real * e4
        + 1814400real * e5
        + 19958400real * e6
        + 121080960real * e7
        + 518918400real * e8
        + 1764322560real * e9);
    lemma_step(
        c4,
        z,
        40320real,
        e4,
        1814400real,
        e5,
        19958400real,
        e6,
        121080960real,
        e7,
        518918400real,
        e8,
        1764322560real,
        e9,
    );
    let c5 = c4 * z;
    assert(c5 == 3628800real * e5
        + 239500800real * e6
        + 3632428800real * e7
        + 29059430400real * e8
        + 158789030400real * e9
        + 670442572800real * e10);
    lemma_step(
        c5,
        z,
        3628800real,
        e5,
        239500800real,
        e6,
        3632428800real,
        e7,
        29059430400real,
        e8,
        158789030400real,
        e9,
        670442572800real,
        e10,
    );
    let c6 = c5 * z;
    assert(c6 == 479001600real * e6
        + 43589145600real * e7
        + 871782912000real * e8
        + 8892185702400real * e9
        + 60339831552000real * e10
        + 309744468633600real * e11);
    lemma_step(
        c6,
        z,
        479001600real,
        e6,
        43589145600real,
        e7,
        871782912000real,
        e8,
        8892185702400real,
        e9,
        60339831552000real,
        e10,
        309744468633600real,
        e11,
    );
    let c7 = c6 * z;
    assert(c7 == 87178291200real * e7
        + 10461394944000real * e8
        + 266765571072000real * e9
        + 3379030566912000real * e10
        + 27877002177024000real * e11
        + 170978946685747200real * e12);
    lemma_step(
        c7,
        z,
        87178291200real,
        e7,
        10461394944000real,
        e8,
        266765571072000real,
        e9,
        3379030566912000real,
        e10,
        27877002177024000real,
        e11,
        170978946685747200real,
        e12,
    );
    let c8 = c7 * z;
    assert(c8 == 20922789888000real * e8
        + 3201186852864000real * e9
        + 101370917007360000real * e10
        + 1561112121913344000real * e11
        + 15388105201717248000real * e12
        + 111136315345735680000real * e13);
    lemma_step(
        c8,
        z,
        20922789888000real,
        e8,
        3201186852864000real,
        e9,
        101370917007360000real,
        e10,
        1561112121913344000real,
        e11,
        15388105201717248000real,
        e12,
        111136315345735680000real,
        e13,
    );
    let c9 = c8 * z;
    assert(c9 == 6402373705728000real * e9
        + 1216451004088320000real * e10
        + 46833363657400320000real * e11
        + 861733891296165888000real * e12
        + 10002268381116211200000real * e13
        + 84019054401376174080000real * e14);
    let s9 = -(16432828real / 68719476736real);
    let w9 = s9 * c0;
    let s8 = s9 * z + 10136594real / 17179869184real;
    let w8 = s8 * c0;
    lemma_distributes(s9 * z, 10136594real / 17179869184real, c0);
    lemma_swaps(s9, z, c0);
    lemma_step(
        w9,
        z,
        -(16432828real / 68719476736real),
        c0,
        0real,
        c0,
        0real,
        c0,
        0real,
        c0,
        0real,
        c0,
        0real,
        c0,
    );
    assert(w8 == (-(16432828real / 68719476736real)) * c1
        + (10136594real / 17179869184real) * c0);
    let s7 = s8 * z + -(12505522real / 8589934592real);
    let w7 = s7 * c0;
    lemma_distributes(s8 * z, -(12505522real / 8589934592real), c0);
    lemma_swaps(s8, z, c0);
    lemma_step(
        w8,
        z,
        -(16432828real / 68719476736real),
        c1,
        10136594real / 17179869184real,
        c0,
        0real,
        c0,
        0real,
        c0,
        0real,
        c0,
        0real,
        c0,
    );
    assert(w7 == (-(16432828real / 68719476736real)) * c2
        + (10136594real / 17179869184real) * c1
        + (-(12505522real / 8589934592real)) * c0);
    let s6 = s7 * z + 15428072real / 4294967296real;
    let w6 = s6 * c0;
    lemma_distributes(s7 * z, 15428072real / 4294967296real, c0);
    lemma_swaps(s7, z, c0);
    lemma_step(
        w7,
        z,
        -(16432828real / 68719476736real),
        c2,
        10136594real / 17179869184real,
        c1,
        -(12505522real / 8589934592real),
        c0,
        0real,
        c0,
        0real,
        c0,
        0real,
        c0,
    );
    assert(w6 == (-(16432828real / 68719476736real)) * c3
        + (10136594real / 17179869184real) * c2
        + (-(12505522real / 8589934592real)) * c1
        + (15428072real / 4294967296real) * c0);
    let s5 = s6 * z + -(9516827real / 1073741824real);
    let w5 = s5 * c0;
    lemma_distributes(s6 * z, -(9516827real / 1073741824real), c0);
    lemma_swaps(s6, z, c0);
    lemma_step(
        w6,
        z,
        -(16432828real / 68719476736real),
        c3,
        10136594real / 17179869184real,
        c2,
        -(12505522real / 8589934592real),
        c1,
        15428072real / 4294967296real,
        c0,
        0real,
        c0,
        0real,
        c0,
    );
    assert(w5 == (-(16432828real / 68719476736real)) * c4
        + (10136594real / 17179869184real) * c3
        + (-(12505522real / 8589934592real)) * c2
        + (15428072real / 4294967296real) * c1
        + (-(9516827real / 1073741824real)) * c0);
    let s4 = s5 * z + 11741092real / 536870912real;
    let w4 = s4 * c0;
    lemma_distributes(s5 * z, 11741092real / 536870912real, c0);
    lemma_swaps(s5, z, c0);
    lemma_step(
        w5,
        z,
        -(16432828real / 68719476736real),
        c4,
        10136594real / 17179869184real,
        c3,
        -(12505522real / 8589934592real),
        c2,
        15428072real / 4294967296real,
        c1,
        -(9516827real / 1073741824real),
        c0,
        0real,
        c0,
    );
    assert(w4 == (-(16432828real / 68719476736real)) * c5
        + (10136594real / 17179869184real) * c4
        + (-(12505522real / 8589934592real)) * c3
        + (15428072real / 4294967296real) * c2
        + (-(9516827real / 1073741824real)) * c1
        + (11741092real / 536870912real) * c0);
    let s3 = s4 * z + -(14486993real / 268435456real);
    let w3 = s3 * c0;
    lemma_distributes(s4 * z, -(14486993real / 268435456real), c0);
    lemma_swaps(s4, z, c0);
    lemma_step(
        w4,
        z,
        -(16432828real / 68719476736real),
        c5,
        10136594real / 17179869184real,
        c4,
        -(12505522real / 8589934592real),
        c3,
        15428072real / 4294967296real,
        c2,
        -(9516827real / 1073741824real),
        c1,
        11741092real / 536870912real,
        c0,
    );
    assert(w3 == (-(16432828real / 68719476736real)) * c6
        + (10136594real / 17179869184real) * c5
        + (-(12505522real / 8589934592real)) * c4
        + (15428072real / 4294967296real) * c3
        + (-(9516827real / 1073741824real)) * c2
        + (11741092real / 536870912real) * c1
        + (-(14486993real / 268435456real)) * c0);
    let s2 = s3 * z + 8947849real / 67108864real;
    let w2 = s2 * c0;
    lemma_distributes(s3 * z, 8947849real / 67108864real, c0);
    lemma_swaps(s3, z, c0);
    let a2 = (-(16432828real / 68719476736real)) * c6
        + (10136594real / 17179869184real) * c5
        + (-(12505522real / 8589934592real)) * c4
        + (15428072real / 4294967296real) * c3
        + (-(9516827real / 1073741824real)) * c2
        + (11741092real / 536870912real) * c1;
    let b2 = (-(14486993real / 268435456real)) * c0;
    lemma_distributes(a2, b2, z);
    lemma_step(
        a2,
        z,
        -(16432828real / 68719476736real),
        c6,
        10136594real / 17179869184real,
        c5,
        -(12505522real / 8589934592real),
        c4,
        15428072real / 4294967296real,
        c3,
        -(9516827real / 1073741824real),
        c2,
        11741092real / 536870912real,
        c1,
    );
    lemma_step(
        b2,
        z,
        -(14486993real / 268435456real),
        c0,
        0real,
        c0,
        0real,
        c0,
        0real,
        c0,
        0real,
        c0,
        0real,
        c0,
    );
    assert(w3 == a2 + b2);
    assert(w2 == (-(16432828real / 68719476736real)) * c7
        + (10136594real / 17179869184real) * c6
        + (-(12505522real / 8589934592real)) * c5
        + (15428072real / 4294967296real) * c4
        + (-(9516827real / 1073741824real)) * c3
        + (11741092real / 536870912real) * c2
        + (-(14486993real / 268435456real)) * c1
        + (8947849real / 67108864real) * c0);
    let s1 = s2 * z + -(11184811real / 33554432real);
    let w1 = s1 * c0;
    lemma_distributes(s2 * z, -(11184811real / 33554432real), c0);
    lemma_swaps(s2, z, c0);
    let a1 = (-(16432828real / 68719476736real)) * c7
        + (10136594real / 17179869184real) * c6
        + (-(12505522real / 8589934592real)) * c5
        + (15428072real / 4294967296real) * c4
        + (-(9516827real / 1073741824real)) * c3
        + (11741092real / 536870912real) * c2;
    let b1 = (-(14486993real / 268435456real)) * c1 + (8947849real / 67108864real) * c0;
    lemma_distributes(a1, b1, z);
    lemma_step(
        a1,
        z,
        -(16432828real / 68719476736real),
        c7,
        10136594real / 17179869184real,
        c6,
        -(12505522real / 8589934592real),
        c5,
        15428072real / 4294967296real,
        c4,
        -(9516827real / 1073741824real),
        c3,
        11741092real / 536870912real,
        c2,
    );
    lemma_step(
        b1,
        z,
        -(14486993real / 268435456real),
        c1,
        8947849real / 67108864real,
        c0,
        0real,
        c0,
        0real,
        c0,
        0real,
        c0,
        0real,
        c0,
    );
    assert(w2 == a1 + b1);
    assert(w1 == (-(16432828real / 68719476736real)) * c8
        + (10136594real / 17179869184real) * c7
        + (-(12505522real / 8589934592real)) * c6
        + (15428072real / 4294967296real) * c5
        + (-(9516827real / 1073741824real)) * c4
        + (11741092real / 536870912real) * c3
        + (-(14486993real / 268435456real)) * c2
        + (8947849real / 67108864real) * c1
        + (-(11184811real / 33554432real)) * c0);
    let a0 = (-(16432828real / 68719476736real)) * c8
        + (10136594real / 17179869184real) * c7
        + (-(12505522real / 8589934592real)) * c6
        + (15428072real / 4294967296real) * c5
        + (-(9516827real / 1073741824real)) * c4
        + (11741092real / 536870912real) * c3;
    let b0 = (-(14486993real / 268435456real)) * c2
        + (8947849real / 67108864real) * c1
        + (-(11184811real / 33554432real)) * c0;
    lemma_distributes(a0, b0, z);
    lemma_step(
        a0,
        z,
        -(16432828real / 68719476736real),
        c8,
        10136594real / 17179869184real,
        c7,
        -(12505522real / 8589934592real),
        c6,
        15428072real / 4294967296real,
        c5,
        -(9516827real / 1073741824real),
        c4,
        11741092real / 536870912real,
        c3,
    );
    lemma_step(
        b0,
        z,
        -(14486993real / 268435456real),
        c2,
        8947849real / 67108864real,
        c1,
        -(11184811real / 33554432real),
        c0,
        0real,
        c0,
        0real,
        c0,
        0real,
        c0,
    );
    assert(w1 == a0 + b0);
    assert(horner_sum(z) == s1);
    lemma_distributes(1real, s1 * z, c0);
    lemma_swaps(s1, z, c0);
    assert(tanh_sum(z) * c0 == c0 + w1 * z);
    let g = c0 + w1 * z - odd_sum(v);
    assert(odd_sum(v) == e0 + e1 / 3real + e2 / 5real + e3 / 7real + e4 / 9real + e5 / 11real);
    assert(w1 * z == a0 * z + b0 * z);
    assert(w1 * z == (-(11184811real / 33554432real)) * c1 + (8947849real / 67108864real) * c2 + (-(14486993real / 268435456real)) * c3 + (11741092real / 536870912real) * c4 + (-(9516827real / 1073741824real)) * c5 + (15428072real / 4294967296real) * c6 + (-(12505522real / 8589934592real)) * c7 + (10136594real / 17179869184real) * c8 + (-(16432828real / 68719476736real)) * c9);
    let g0 = c0 - odd_sum(v);
    assert(g0 == 0real + (2real / 3real) * e1
        + (4real / 5real) * e2
        + (6real / 7real) * e3
        + (8real / 9real) * e4
        + (10real / 11real) * e5);
    lemma_minus(11184811real / 33554432real, c1);
    let g1 = g0 + (-(11184811real / 33554432real)) * c1;
    assert(g1 == 0real - (1real / 50331648real) * e1
        - (134217733real / 41943040real) * e2
        - (1073741859real / 117440512real) * e3
        - (671088661real / 37748736real) * e4
        - (5368709285real / 184549376real) * e5
        - (369098763real / 8388608real) * e6);
    let g2 = g1 + (8947849real / 67108864real) * c2;
    assert(g2 == 0real - (1real / 50331648real) * e1
        + (1real / 20971520real) * e2
        + (4563403011real / 117440512real) * e3
        + (1946157161real / 9437184real) * e4
        + (118648477855real / 184549376real) * e5
        + (6459228501real / 4194304real) * e6
        + (26870390547real / 8388608real) * e7);
    lemma_minus(14486993real / 268435456real, c3);
    let g3 = g2 + (-(14486993real / 268435456real)) * c3;
    assert(g3 == 0real - (1real / 50331648real) * e1
        + (1real / 20971520real) * e2
        + (27real / 14680064real) * e3
        - (33285996511real / 37748736real) * e4
        - (1387274444495real / 184549376real) * e5
        - (72066531867real / 2097152real) * e6
        - (1903959017961real / 16777216real) * e7
        - (652566599685real / 2097152real) * e8);
    let g4 = g3 + (11741092real / 536870912real) * c4;
    assert(g4 == 0real - (1real / 50331648real) * e1
        + (1real / 20971520real) * e2
        + (27real / 14680064real) * e3
        - (691real / 37748736real) * e4
        + (5935644635905real / 184549376real) * e5
        + (843298353183real / 2097152real) * e6
        + (42521750069799real / 16777216real) * e7
        + (23146920411615real / 2097152real) * e8
        + (20229563959605real / 524288real) * e9);
    lemma_minus(9516827real / 1073741824real, c5);
    let g5 = g4 + (-(9516827real / 1073741824real)) * c5;
    assert(g5 == 0real - (1real / 50331648real) * e1
        + (1real / 20971520real) * e2
        + (27real / 14680064real) * e3
        - (691real / 37748736real) * e4
        - (363995real / 184549376real) * e5
        - (1804217698371real / 1048576real) * e6
        - (497621944921101real / 16777216real) * e7
        - (516996774579285real / 2097152real) * e8
        - (2870581220361855real / 2097152real) * e9
        - (6230943338645025real / 1048576real) * e10);
    let g6 = g5 + (15428072real / 4294967296real) * c6;
    assert(g6 == 0real - (1real / 50331648real) * e1
        + (1real / 20971520real) * e2
        + (27real / 14680064real) * e3
        - (691real / 37748736real) * e4
        - (363995real / 184549376real) * e5
        - (1103421real / 1048576real) * e6
        + (2129317417326099real / 16777216real) * e7
        + (6050351631038715real / 2097152real) * e8
        + (64116372516941745real / 2097152real) * e9
        + (221046221127206475real / 1048576real) * e10
        + (291672361064509425real / 262144real) * e11);
    lemma_minus(12505522real / 8589934592real, c7);
    let g7 = g6 + (-(12505522real / 8589934592real)) * c7;
    assert(g7 == 0real - (1real / 50331648real) * e1
        + (1real / 20971520real) * e2
        + (27real / 14680064real) * e3
        - (691real / 37748736real) * e4
        - (363995real / 184549376real) * e5
        - (1103421real / 1048576real) * e6
        + (935833899real / 16777216real) * e7
        - (25889395591344285real / 2097152real) * e8
        - (750347181653824755real / 2097152real) * e9
        - (4937222955287648025real / 1048576real) * e10
        - (41389031261164511925real / 1048576real) * e11
        - (65252105081647909425real / 262144real) * e12);
    let g8 = g7 + (10136594real / 17179869184real) * c8;
    assert(g8 == 0real - (1real / 50331648real) * e1
        + (1real / 20971520real) * e2
        + (27real / 14680064real) * e3
        - (691real / 37748736real) * e4
        - (363995real / 184549376real) * e5
        - (1103421real / 1048576real) * e6
        + (935833899real / 16777216real) * e7
        - (12480753285real / 2097152real) * e8
        + (3210728434266598245real / 2097152real) * e9
        + (57779807630119049475real / 1048576real) * e10
        + (924453239754098629575real / 1048576real) * e11
        + (578714801408634065175real / 65536real) * e12
        + (17189692799616885673125real / 262144real) * e13);
    lemma_minus(16432828real / 68719476736real, c9);
    let g9 = g8 + (-(16432828real / 68719476736real)) * c9;
    assert(g9 == 0real - (1real / 50331648real) * e1
        + (1real / 20971520real) * e2
        + (27real / 14680064real) * e3
        - (691real / 37748736real) * e4
        - (363995real / 184549376real) * e5
        - (1103421real / 1048576real) * e6
        + (935833899real / 16777216real) * e7
        - (12480753285real / 2097152real) * e8
        + (1325564485245real / 2097152real) * e9
        - (247239267696581685525real / 1048576real) * e10
        - (10818781160323879667925real / 1048576real) * e11
        - (6463002379340520488475real / 32768real) * e12
        - (304907571959416156355625real / 131072real) * e13
        - (2633420314217486633214375real / 131072real) * e14);
    assert(g == g9);
    assert(-(2real / 100000000real) <= g <= 2real / 100000000real);
    assert(tanh_sum(v * v) * even_sum(v) == tanh_sum(z) * c0);
}

proof fn lemma_minus(a: real, b: real)
    ensures
        (-a) * b == -(a * b),
{
    assert((-a) * b == -(a * b)) by (nonlinear_arith);
}

proof fn lemma_swaps(s: real, z: real, c: real)
    ensures
        (s * z) * c == (s * c) * z,
{
    assert((s * z) * c == (s * c) * z) by (nonlinear_arith);
}

/// The other sign of the argument turns the odd terms.
proof fn lemma_turned(v: real, n: nat)
    ensures
        term(-v, n) == if n % 2 == 0 {
            term(v, n)
        } else {
            -term(v, n)
        },
    decreases n,
{
    if n > 0 {
        lemma_turned(v, (n - 1) as nat);
        let (a, k) = (term(v, (n - 1) as nat), n as real);
        assert((-a) * (-v) / k == a * v / k && a * (-v) / k == -(a * v / k)) by (nonlinear_arith)
            requires
                k > 0real,
        ;
    }
}

/// Half the sum and half the difference of the exponentials of `v` and `-v`.
proof fn lemma_halves(f: spec_fn(real) -> real, v: real, a: real)
    requires
        is_exponential(f),
        -(5real / 8real) <= v <= 5real / 8real,
        -a <= v <= a,
    ensures
        ({
            let d = 1real / 1000000000real;
            let c = (f(v) + f(-v)) / 2real - even_sum(v);
            let s = (f(v) - f(-v)) / 2real - odd_sum(v) * v;
            -d <= c <= d && -(d * a) <= s <= d * a
        }),
{
    assert(term(v, 0) == 1real && series(v, 0) == 1real);
    assert(term(-v, 0) == 1real && series(-v, 0) == 1real);
    lemma_term(v, 1);
    lemma_term(-v, 1);
    lemma_turned(v, 1);
    lemma_term(v, 2);
    lemma_term(-v, 2);
    lemma_turned(v, 2);
    lemma_term(v, 3);
    lemma_term(-v, 3);
    lemma_turned(v, 3);
    lemma_term(v, 4);
    lemma_term(-v, 4);
    lemma_turned(v, 4);
    lemma_term(v, 5);
    lemma_term(-v, 5);
    lemma_turned(v, 5);
    lemma_term(v, 6);
    lemma_term(-v, 6);
    lemma_turned(v, 6);
    lemma_term(v, 7);
    lemma_term(-v, 7);
    lemma_turned(v, 7);
    lemma_term(v, 8);
    lemma_term(-v, 8);
    lemma_turned(v, 8);
    lemma_term(v, 9);
    lemma_term(-v, 9);
    lemma_turned(v, 9);
    lemma_term(v, 10);
    lemma_term(-v, 10);
    lemma_turned(v, 10);
    lemma_term(v, 11);
    lemma_term(-v, 11);
    lemma_turned(v, 11);
    lemma_term(v, 12);
    lemma_term(-v, 12);
    lemma_turned(v, 12);
    lemma_product(term(v, 0), v, 1real, 5real / 8real);
    assert(1real * term(v, 1) == term(v, 0) * v);
    assert(-(5real / 8real) <= term(v, 1) <= 5real / 8real);
    lemma_product(term(v, 1), v, 5real / 8real, 5real / 8real);
    assert(2real * term(v, 2) == term(v, 1) * v);
    assert(-(25real / 128real) <= term(v, 2) <= 25real / 128real);
    lemma_product(term(v, 2), v, 25real / 128real, 5real / 8real);
    assert(3real * term(v, 3) == term(v, 2) * v);
    assert(-(40690104167real / 1000000000000real) <= term(v, 3) <= 40690104167real / 1000000000000real);
    lemma_product(term(v, 3), v, 40690104167real / 1000000000000real, 5real / 8real);
    assert(4real * term(v, 4) == term(v, 3) * v);
    assert(-(6357828777real / 1000000000000real) <= term(v, 4) <= 6357828777real / 1000000000000real);
    lemma_product(term(v, 4), v, 6357828777real / 1000000000000real, 5real / 8real);
    assert(5real * term(v, 5) == term(v, 4) * v);
    assert(-(397364299real / 500000000000real) <= term(v, 5) <= 397364299real / 500000000000real);
    lemma_product(term(v, 5), v, 397364299real / 500000000000real, 5real / 8real);
    assert(6real * term(v, 6) == term(v, 5) * v);
    assert(-(82784229real / 1000000000000real) <= term(v, 6) <= 82784229real / 1000000000000real);
    lemma_product(term(v, 6), v, 82784229real / 1000000000000real, 5real / 8real);
    assert(7real * term(v, 7) == term(v, 6) * v);
    assert(-(147829real / 20000000000real) <= term(v, 7) <= 147829real / 20000000000real);
    lemma_product(term(v, 7), v, 147829real / 20000000000real, 5real / 8real);
    assert(8real * term(v, 8) == term(v, 7) * v);
    assert(-(288729real / 500000000000real) <= term(v, 8) <= 288729real / 500000000000real);
    lemma_product(term(v, 8), v, 288729real / 500000000000real, 5real / 8real);
    assert(9real * term(v, 9) == term(v, 8) * v);
    assert(-(20051real / 500000000000real) <= term(v, 9) <= 20051real / 500000000000real);
    lemma_product(term(v, 9), v, 20051real / 500000000000real, 5real / 8real);
    assert(10real * term(v, 10) == term(v, 9) * v);
    assert(-(2507real / 1000000000000real) <= term(v, 10) <= 2507real / 1000000000000real);
    lemma_product(term(v, 10), v, 2507real / 1000000000000real, 5real / 8real);
    assert(11real * term(v, 11) == term(v, 10) * v);
    assert(-(143real / 1000000000000real) <= term(v, 11) <= 143real / 1000000000000real);
    lemma_product(term(v, 11), v, 143real / 1000000000000real, 5real / 8real);
    assert(12real * term(v, 12) == term(v, 11) * v);
    assert(-(1real / 125000000000real) <= term(v, 12) <= 1real / 125000000000real);
    lemma_product(term(v, 11), v, 143real / 1000000000000real, a);
    lemma_series(f, v, 11);
    lemma_series(f, -v, 11);
    lemma_step(
        odd_sum(v),
        v,
        1real,
        term(v, 0),
        1real / 3real,
        term(v, 2),
        1real / 5real,
        term(v, 4),
        1real / 7real,
        term(v, 6),
        1real / 9real,
        term(v, 8),
        1real / 11real,
        term(v, 10),
    );
}

/// The odd polynomial is next to the hyperbolic tangent, to within a share of the argument.
proof fn lemma_tanh_sum_near(f: spec_fn(real) -> real, v: real, s: real)
    requires
        is_exponential(f),
        -(5real / 8real) <= v <= 5real / 8real,
        -s <= v <= s,
    ensures
        -(3real / 100000000real * s) <= v * tanh_sum(v * v) - hyperbolic(f(2real * v)) <= 3real
            / 100000000real * s,
{
    let (a, b, x) = (f(v), f(-v), f(2real * v));
    lemma_positive(f, v);
    lemma_positive(f, -v);
    lemma_positive(f, 2real * v);
    lemma_sum(f, v, v);
    assert(v + v == 2real * v);
    lemma_halves(f, v, s);
    lemma_tanh_identity(v);
    lemma_quotient(a, b, x);
    let (p, c, o, h) = (tanh_sum(v * v), even_sum(v), odd_sum(v), hyperbolic(x));
    let (ch, sh) = ((a + b) / 2real, (a - b) / 2real);
    let g = p * c - o;
    let t = v * p;
    let (dc, ds) = (ch - c, sh - o * v);
    // t * ch - sh == v * g + t * dc - ds
    assert(t * c == v * (p * c)) by (nonlinear_arith)
        requires
            t == v * p,
    ;
    assert(v * (g + o) == v * g + o * v) by (nonlinear_arith);
    assert(t * ch == t * c + t * dc) by (nonlinear_arith)
        requires
            dc == ch - c,
    ;
    lemma_product(g, v, 2real / 100000000real, s);
    assert(g * v == v * g) by (nonlinear_arith);
    lemma_product(v, v, 5real / 8real, 5real / 8real);
    lemma_tanh_sum_bounded(v * v);
    lemma_product(p, v, 2real, s);
    assert(p * v == t) by (nonlinear_arith)
        requires
            t == v * p,
    ;
    lemma_product(t, dc, 2real * s, 1real / 1000000000real);
    let w = t * ch - sh;
    let b = 3real / 100000000real * s;
    assert(-b <= w <= b);
    assert(w == (t - h) * ch) by (nonlinear_arith)
        requires
            w == t * ch - sh,
            h * ch == sh,
    ;
    let e = t - h;
    assert(-b <= e <= b) by (nonlinear_arith)
        requires
            -b <= e * ch <= b,
            b >= 0real,
            ch >= 1real,
    ;
}

/// The hyperbolic tangent as a quotient of a difference and a sum.
proof fn lemma_quotient(a: real, b: real, x: real)
    requires
        a > 0real,
        b > 0real,
        a * b == 1real,
        x == a * a,
    ensures
        hyperbolic(x) * ((a + b) / 2real) == (a - b) / 2real,
        (a + b) / 2real >= 1real,
{
    assert(x > 0real) by (nonlinear_arith)
        requires
            x == a * a,
            a > 0real,
    ;
    let (s, d) = (logistic(x), a + b);
    assert(s * (1real + x) == 1real) by (nonlinear_arith)
        requires
            s == 1real / (1real + x),
            x > 0real,
    ;
    assert(d * a == 1real + x) by (nonlinear_arith)
        requires
            d == a + b,
            a * b == 1real,
            x == a * a,
    ;
    let u = s * d;
    lemma_associates(s, d, a);
    assert(u * a == 1real);
    assert(u == b) by (nonlinear_arith)
        requires
            u * a == 1real,
            a * b == 1real,
            a > 0real,
    {
        assert((u - b) * a == 0real);
    }
    let h = hyperbolic(x);
    assert(h * d == d - 2real * u) by (nonlinear_arith)
        requires
            h == 1real - 2real * s,
            u == s * d,
    ;
    assert(h * (d / 2real) == (h * d) / 2real) by (nonlinear_arith);
    let q = a - 1real;
    assert(q * q >= 0real) by (nonlinear_arith);
    assert(q * q == x - 2real * a + 1real) by (nonlinear_arith)
        requires
            q == a - 1real,
            x == a * a,
    ;
    assert(d >= 2real) by (nonlinear_arith)
        requires
            d * a >= 2real * a,
            a > 0real,
    ;
}

/// What the odd polynomial multiplies by is not large.
proof fn lemma_tanh_sum_bounded(z: real)
    requires
        -(25real / 64real) <= z <= 25real / 64real,
    ensures
        -2real <= tanh_sum(z) <= 2real,
{
    let s9 = -(16432828real / 68719476736real);
    lemma_product(s9, z, 1real, 25real / 64real);
    let s8 = s9 * z + 10136594real / 17179869184real;
    lemma_product(s8, z, 1real, 25real / 64real);
    let s7 = s8 * z + -(12505522real / 8589934592real);
    lemma_product(s7, z, 1real, 25real / 64real);
    let s6 = s7 * z + 15428072real / 4294967296real;
    lemma_product(s6, z, 1real, 25real / 64real);
    let s5 = s6 * z + -(9516827real / 1073741824real);
    lemma_product(s5, z, 1real, 25real / 64real);
    let s4 = s5 * z + 11741092real / 536870912real;
    lemma_product(s4, z, 1real, 25real / 64real);
    let s3 = s4 * z + -(14486993real / 268435456real);
    lemma_product(s3, z, 1real, 25real / 64real);
    let s2 = s3 * z + 8947849real / 67108864real;
    lemma_product(s2, z, 1real, 25real / 64real);
    let s1 = s2 * z + -(11184811real / 33554432real);
    lemma_product(s1, z, 1real, 25real / 64real);
}

/// The computed hyperbolic tangent of a number is less than 2e-7
/// from `1 - 2 / (1 + e^2x)`.
#[verifier::spinoff_prover]
#[verifier::rlimit(50)]
pub proof fn law_tanh_is_near_the_hyperbolic_tangent(f: spec_fn(real) -> real, x: F32)
    requires
        is_exponential(f),
        x.is_finite_spec(),
    ensures
        tanh_of(x).is_finite_spec(),
        -(2real / 10000000real) < tanh_of(x).value() - hyperbolic(f(2real * x.value())) < 2real
            / 10000000real,
{
    reveal(tanh_of);
    let size = x.abs_spec();
    let v = x.value();
    assert(size.mag() == x.mag() && !size.is_neg_spec());
    assert(size.value() == if x.is_neg_spec() {
        -v
    } else {
        v
    });
    lemma_zero();
    lemma_order(F32::zero_spec(), size);
    lemma_tanh_constants();
    lemma_order(bits(TANH_MEDIUM), size);
    lemma2_to64();
    lemma2_to64_rest();
    lemma_bits(bits(TANH_SMALL), 36, 68719476736);
    if size.lt_spec(bits(TANH_SMALL)) {
        lemma_order(size, bits(TANH_SMALL));
        lemma_tanh_small_near(f, v, size.value());
    } else if size.lt_spec(bits(TANH_MEDIUM)) {
        lemma_tanh_poly(x);
        lemma_tanh_sum_near(f, v, size.value());
    } else {
        lemma_tanh_above(f, size);
        let t = tanh_large(size);
        lemma_neg(t);
        if x.is_neg_spec() {
            lemma_positive(f, 2real * size.value());
            assert(-(2real * size.value()) == 2real * v);
            lemma_odd(f(2real * size.value()), f(2real * v));
        }
    }
}

/// The computed hyperbolic tangent of a number is within a share of 4e-7 of
/// `1 - 2 / (1 + e^2x)`.
#[verifier::spinoff_prover]
#[verifier::rlimit(50)]
pub proof fn law_tanh_is_a_share_from_the_hyperbolic_tangent(f: spec_fn(real) -> real, x: F32)
    requires
        is_exponential(f),
        x.is_finite_spec(),
    ensures
        tanh_of(x).is_finite_spec(),
        ({
            let h = hyperbolic(f(2real * x.value()));
            let size = if h < 0real {
                -h
            } else {
                h
            };
            -(4real / 10000000real * size) <= tanh_of(x).value() - h <= 4real / 10000000real * size
        }),
{
    reveal(tanh_of);
    let size = x.abs_spec();
    let v = x.value();
    assert(size.mag() == x.mag() && !size.is_neg_spec());
    assert(size.value() == if x.is_neg_spec() {
        -v
    } else {
        v
    });
    lemma_zero();
    lemma_order(F32::zero_spec(), size);
    lemma_tanh_constants();
    lemma_order(bits(TANH_MEDIUM), size);
    lemma2_to64();
    lemma2_to64_rest();
    lemma_bits(bits(TANH_SMALL), 36, 68719476736);
    lemma_order(size, bits(TANH_SMALL));
    lemma_order(bits(TANH_SMALL), size);
    if size.lt_spec(bits(TANH_SMALL)) {
        lemma_tanh_small_near(f, v, size.value());
    } else if size.lt_spec(bits(TANH_MEDIUM)) {
        lemma_tanh_poly_share(x, size.value());
        lemma_tanh_sum_near(f, v, size.value());
        let p = tanh_sum(v * v);
        lemma_product(1real - p, v, 16real / 100real, size.value());
        assert((1real - p) * v == v - v * p) by (nonlinear_arith);
    } else {
        lemma_tanh_above(f, size);
        let t = tanh_large(size);
        lemma_neg(t);
        if x.is_neg_spec() {
            lemma_positive(f, 2real * size.value());
            assert(-(2real * size.value()) == 2real * v);
            lemma_odd(f(2real * size.value()), f(2real * v));
        }
    }
}

} // verus!
