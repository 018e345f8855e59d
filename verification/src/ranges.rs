//! Between which bounds the activation functions, the recurrent state and the outputs of the
//! stages stay.

use crate::bank::{gl_of, BankView};
use crate::decoders::{
    df_dec_of, df_recurrent_of, erb_dec_of, erb_eight_of, erb_sixteen_of, erb_start_of,
    erb_thirty_two_of,
};
use crate::encoder::{encode_of, EncOutView, LSNR_FLOOR, LSNR_SPAN};
use crate::float::{law_addition_commutes, round32, F32};
use crate::layers::{channels_at, frames_first_of, frames_of, mixed_of};
use crate::nn::{
    conv1x3_of, dot_of, gates_of, gemm_of, gru_of, gru_state, gru_states, lemma_gru_len,
    lemma_pointwise_len, matvec_packed_of, pointwise_of, relu_seq,
};
use crate::rounding::lemma_round_to_scaled;
use crate::rows::{lemma_place, row_of, rows};
use crate::simd::{
    bits, exp_clamped, exp_octaves, exp_of, exp_poly, exp_reduced, exp_scale, relu_of, sigmoid_of,
    tanh_of, tanh_poly, C1, C2, EXP_HI, EXP_LO, HALF, LOG2EF, ONE, P0, P1, P2, P3, P4, P5,
    SIGMOID_LO, T1, T2, T3, T4, T5, T6, T7, T8, T9, TANH_MEDIUM, TANH_SMALL, TWO,
};
use crate::values::{
    dyadic, is_near, is_rounding, lemma_add, lemma_add_below, lemma_close, lemma_div, lemma_dyadic,
    lemma_floor, lemma_mul, lemma_mul_add, lemma_neg, lemma_no_number_between, lemma_order,
    lemma_power_adds, lemma_power_monotonic, lemma_power_step, lemma_scaled, lemma_within, power,
};
use vstd::arithmetic::power2::*;
use vstd::prelude::*;

verus! {

/// -1.0.
pub const MINUS_ONE: u32 = 0xbf80_0000;

// ------------------------------------------------------------------ exponential

/// A number whose last place is `1 / d`.
pub proof fn lemma_bits(x: F32, k: nat, d: nat)
    requires
        k > 0,
        x.exp() == -(k as int),
        pow2(k) == d,
    ensures
        x.value() == if x.is_neg_spec() {
            -(x.sig() as real / d as real)
        } else {
            x.sig() as real / d as real
        },
{
    lemma_pow2_pos(k);
    let (s, p) = (x.sig() as real, d as real);
    assert(s * (1real / p) == s / p) by (nonlinear_arith)
        requires
            p > 0real,
    ;
}

/// What the constants of the exponential stand for.
pub proof fn lemma_exp_constants()
    ensures
        bits(EXP_HI).value() == 11583653real / 131072real,
        bits(EXP_LO).value() == -(11583653real / 131072real),
        bits(LOG2EF).value() == 12102203real / 8388608real,
        bits(C1).value() == 355real / 512real,
        bits(C2).value() == -(14581891real / 68719476736real),
        bits(P0).value() == 13658471real / 68719476736real,
        bits(P1).value() == 12010446real / 8589934592real,
        bits(P2).value() == 8947976real / 1073741824real,
        bits(P3).value() == 11184577real / 268435456real,
        bits(P4).value() == 11184810real / 67108864real,
        bits(P5).value() == 8388609real / 16777216real,
        bits(HALF).value() == 1real / 2real,
        bits(ONE).value() == 1real,
        bits(EXP_HI).is_finite_spec(),
        bits(EXP_LO).is_finite_spec(),
        bits(LOG2EF).is_finite_spec(),
        bits(C1).is_finite_spec(),
        bits(C2).is_finite_spec(),
        bits(P0).is_finite_spec(),
        bits(P1).is_finite_spec(),
        bits(P2).is_finite_spec(),
        bits(P3).is_finite_spec(),
        bits(P4).is_finite_spec(),
        bits(P5).is_finite_spec(),
        bits(HALF).is_finite_spec(),
        bits(ONE).is_finite_spec(),
{
    lemma2_to64();
    lemma2_to64_rest();
    lemma_bits(bits(EXP_HI), 17, 131072);
    lemma_bits(bits(EXP_LO), 17, 131072);
    lemma_bits(bits(LOG2EF), 23, 8388608);
    lemma_bits(bits(C1), 24, 16777216);
    lemma_bits(bits(C2), 36, 68719476736);
    lemma_bits(bits(P0), 36, 68719476736);
    lemma_bits(bits(P1), 33, 8589934592);
    lemma_bits(bits(P2), 30, 1073741824);
    lemma_bits(bits(P3), 28, 268435456);
    lemma_bits(bits(P4), 26, 67108864);
    lemma_bits(bits(P5), 24, 16777216);
    lemma_bits(bits(HALF), 24, 16777216);
    lemma_bits(bits(ONE), 23, 8388608);
}

/// What the two parts of the natural logarithm of 2 stand for together.
pub open spec fn octave() -> real {
    355real / 512real - 14581891real / 68719476736real
}

/// The product of two reals of bounded size.
pub proof fn lemma_product(a: real, b: real, p: real, q: real)
    requires
        -p <= a <= p,
        -q <= b <= q,
    ensures
        -(p * q) <= a * b <= p * q,
{
    assert(-(p * q) <= a * b <= p * q) by (nonlinear_arith)
        requires
            -p <= a <= p,
            -q <= b <= q,
    ;
}

/// How the exponential's argument is split: `n` octaves, and a rest of at most half an octave.
pub proof fn lemma_reduction(c: F32) -> (n: int)
    requires
        c.is_finite_spec(),
        -(11583653real / 131072real) <= c.value() <= 11583653real / 131072real,
    ensures
        -127 <= n <= 127,
        exp_octaves(c).is_finite_spec(),
        exp_octaves(c).value() == n as real,
        exp_octaves(c).to_i32_spec() == n,
        exp_reduced(c, exp_octaves(c)).is_finite_spec(),
        -(3467real / 10000real) <= exp_reduced(c, exp_octaves(c)).value() <= 3467real / 10000real,
        -(45real / 1000000000real) <= exp_reduced(c, exp_octaves(c)).value() - (c.value() - n as real
            * octave()) <= 45real / 1000000000real,
{
    lemma_exp_constants();
    let v = c.value();
    let w = c.mul_add_spec(bits(LOG2EF), bits(HALF));
    lemma_mul_add(c, bits(LOG2EF), bits(HALF));
    let l = 12102203real / 8388608real;
    assert(v * bits(LOG2EF).value() == v * l);
    assert(-128real <= v * l + 1real / 2real <= 128real) by (nonlinear_arith)
        requires
            -(11583653real / 131072real) <= v <= 11583653real / 131072real,
            l == 12102203real / 8388608real,
    ;
    lemma_close(w, v * l + 1real / 2real, 128real);
    let n = lemma_floor(w);
    let f = exp_octaves(c);
    let nr = n as real;
    assert(v * l == v * 12102203real / 8388608real) by (nonlinear_arith)
        requires
            l == 12102203real / 8388608real,
    ;
    let d = 128real / 16777216real;
    assert(nr <= v * 12102203real / 8388608real + 1real / 2real + d);
    assert(nr > v * 12102203real / 8388608real - 1real / 2real - d);
    assert(nr < 128real && nr > -128real);
    assert(-127 <= n <= 127);
    let g = f.neg_spec();
    lemma_neg(f);
    // the leading digits
    let r1 = g.mul_add_spec(bits(C1), c);
    lemma_mul_add(g, bits(C1), c);
    let c1 = 355real / 512real;
    let e1 = v - nr * 355real / 512real;
    assert((-nr) * c1 + v == e1) by (nonlinear_arith)
        requires
            c1 == 355real / 512real,
            e1 == v - nr * 355real / 512real,
    ;
    lemma_close(r1, e1, 374real / 1000real);
    // the rest
    let r = g.mul_add_spec(bits(C2), r1);
    assert(r == exp_reduced(c, f));
    lemma_mul_add(g, bits(C2), r1);
    let c2 = -(14581891real / 68719476736real);
    let e2 = r1.value() + nr * 14581891real / 68719476736real;
    assert((-nr) * c2 + r1.value() == e2) by (nonlinear_arith)
        requires
            c2 == -(14581891real / 68719476736real),
            e2 == r1.value() + nr * 14581891real / 68719476736real,
    ;
    lemma_close(r, e2, 3467real / 10000real);
    assert(nr * octave() == nr * 355real / 512real - nr * 14581891real / 68719476736real)
        by (nonlinear_arith)
        requires
            octave() == 355real / 512real - 14581891real / 68719476736real,
    ;
    assert(-(3467real / 10000real) <= r.value() <= 3467real / 10000real);
    n
}

/// The polynomial on reals.
pub open spec fn exp_sum(v: real) -> real {
    let s1 = 13658471real / 68719476736real * v + 12010446real / 8589934592real;
    let s2 = s1 * v + 8947976real / 1073741824real;
    let s3 = s2 * v + 11184577real / 268435456real;
    let s4 = s3 * v + 11184810real / 67108864real;
    let s5 = s4 * v + 8388609real / 16777216real;
    s5 * (v * v) + v + 1real
}

/// How far the polynomial is from its exact sum.
pub proof fn lemma_exp_poly(r: F32)
    requires
        r.is_finite_spec(),
        -(3467real / 10000real) <= r.value() <= 3467real / 10000real,
    ensures
        exp_poly(r).is_finite_spec(),
        exp_poly(r).value() >= 58real / 100real,
        exp_poly(r).value() <= 143real / 100real,
        -((6real / 10real + exp_sum(r.value())) / 16777216real) <= exp_poly(r).value() - exp_sum(
            r.value(),
        ) <= (6real / 10real + exp_sum(r.value())) / 16777216real,
{
    lemma_exp_constants();
    let v = r.value();
    let p0 = 13658471real / 68719476736real;
    let z = r.mul_spec(r);
    lemma_mul(r, r);
    lemma_product(v, v, 3467real / 10000real, 3467real / 10000real);
    lemma_close(z, v * v, 1203real / 10000real);
    let y1 = bits(P0).mul_add_spec(r, bits(P1));
    lemma_mul_add(bits(P0), r, bits(P1));
    let s1 = p0 * v + 12010446real / 8589934592real;
    lemma_product(p0, v, 2real / 10000real, 3467real / 10000real);
    lemma_close(y1, s1, 15real / 10000real);
    let g1 = y1.value() - s1;
    let y2 = y1.mul_add_spec(r, bits(P2));
    lemma_mul_add(y1, r, bits(P2));
    let s2 = s1 * v + 8947976real / 1073741824real;
    lemma_product(y1.value(), v, 16real / 10000real, 3467real / 10000real);
    lemma_close(y2, y1.value() * v + 8947976real / 1073741824real, 89real / 10000real);
    lemma_product(g1, v, 15real / 10000real / 16777216real, 3467real / 10000real);
    assert(y1.value() * v == s1 * v + g1 * v) by (nonlinear_arith)
        requires
            y1.value() == s1 + g1,
    ;
    let g2 = y2.value() - s2;
    let y3 = y2.mul_add_spec(r, bits(P3));
    lemma_mul_add(y2, r, bits(P3));
    let s3 = s2 * v + 11184577real / 268435456real;
    lemma_product(y2.value(), v, 90real / 10000real, 3467real / 10000real);
    lemma_close(y3, y2.value() * v + 11184577real / 268435456real, 450real / 10000real);
    lemma_product(g2, v, 95real / 10000real / 16777216real, 3467real / 10000real);
    assert(y2.value() * v == s2 * v + g2 * v) by (nonlinear_arith)
        requires
            y2.value() == s2 + g2,
    ;
    let g3 = y3.value() - s3;
    let y4 = y3.mul_add_spec(r, bits(P4));
    lemma_mul_add(y3, r, bits(P4));
    let s4 = s3 * v + 11184810real / 67108864real;
    lemma_product(y3.value(), v, 451real / 10000real, 3467real / 10000real);
    lemma_close(y4, y3.value() * v + 11184810real / 67108864real, 1830real / 10000real);
    lemma_product(g3, v, 490real / 10000real / 16777216real, 3467real / 10000real);
    assert(y3.value() * v == s3 * v + g3 * v) by (nonlinear_arith)
        requires
            y3.value() == s3 + g3,
    ;
    let g4 = y4.value() - s4;
    let y5 = y4.mul_add_spec(r, bits(P5));
    lemma_mul_add(y4, r, bits(P5));
    let s5 = s4 * v + 8388609real / 16777216real;
    lemma_product(y4.value(), v, 1831real / 10000real, 3467real / 10000real);
    lemma_close(y5, y4.value() * v + 8388609real / 16777216real, 5700real / 10000real);
    lemma_product(g4, v, 2010real / 10000real / 16777216real, 3467real / 10000real);
    assert(y4.value() * v == s4 * v + g4 * v) by (nonlinear_arith)
        requires
            y4.value() == s4 + g4,
    ;
    let g5 = y5.value() - s5;
    let t = y5.mul_add_spec(z, r);
    lemma_mul_add(y5, z, r);
    let zv = z.value();
    let gz = zv - v * v;
    lemma_product(y5.value(), zv, 5701real / 10000real, 1204real / 10000real);
    lemma_close(t, y5.value() * zv + v, 4154real / 10000real);
    lemma_product(g5, zv, 6400real / 10000real / 16777216real, 1204real / 10000real);
    lemma_product(s5, gz, 5702real / 10000real, 1203real / 10000real / 16777216real);
    assert(y5.value() * zv == s5 * (v * v) + s5 * gz + g5 * zv) by (nonlinear_arith)
        requires
            y5.value() == s5 + g5,
            zv == v * v + gz,
    ;
    let gt = t.value() - (s5 * (v * v) + v);
    assert(-(59real / 100real / 16777216real) <= gt <= 59real / 100real / 16777216real);
    let e = t.add_spec(bits(ONE));
    lemma_add(t, bits(ONE));
    let x = t.value() + 1real;
    lemma_close(e, x, 142real / 100real);
    reveal(is_near);
    assert(e == exp_poly(r));
    assert(exp_sum(v) == s5 * (v * v) + v + 1real);
    lemma2_to64();
    assert(power(-24) == 1real / 16777216real);
    assert(x * power(-24) == x / 16777216real) by (nonlinear_arith)
        requires
            power(-24) == 1real / 16777216real,
    ;
    lemma_power_monotonic(-150, -64);
    lemma2_to64_rest();
    assert(power(-64) == 1real / 18446744073709551616real);
}

/// A power of two among the normal numbers.
proof fn lemma_exp_scale(k: int)
    requires
        -126 <= k <= 127,
    ensures
        exp_scale(k).is_finite_spec(),
        !exp_scale(k).is_neg_spec(),
        exp_scale(k).sig() == 0x80_0000,
        exp_scale(k).exp() == k - 23,
        exp_scale(k).value() == power(k),
{
    let x = exp_scale(k);
    let m = ((k + 127) * 0x80_0000) as nat;
    assert(x.mag() == m);
    assert(m / 0x80_0000 == k + 127 && m % 0x80_0000 == 0);
    lemma2_to64();
    lemma_scaled(1, 23, k);
    assert(1real * power(k) == power(k)) by (nonlinear_arith);
}

/// A power of two moves the point and rounds nothing, short of the ends of the numbers.
proof fn lemma_moves_the_point(y: F32, k: int)
    requires
        y.is_finite_spec(),
        -126 <= k <= 127,
        -149 <= y.exp() + k <= 100,
    ensures
        y.mul_spec(exp_scale(k)).is_finite_spec(),
        y.mul_spec(exp_scale(k)).value() == y.value() * power(k),
{
    reveal(F32::mul_spec);
    lemma_exp_scale(k);
    let m = y.sig();
    let e = y.exp() + k;
    lemma2_to64();
    lemma_round_to_scaled(24, -149, 0x7f80_0000, m, e, 23);
    assert(y.mul_spec(exp_scale(k)) == F32::pack(y.is_neg_spec(), round32(m, e)));
    lemma_dyadic(m as int, e);
    let d = dyadic(m as int, e);
    let r = y.mul_spec(exp_scale(k));
    assert(d.mag() == round32(m, e) && !d.is_neg_spec());
    assert(r.mag() == d.mag());
    lemma_power_adds(y.exp(), k);
    let (a, p, q) = (m as real, power(y.exp()), power(k));
    assert(a * (p * q) == (a * p) * q && (-(a * p)) * q == -((a * p) * q)) by (nonlinear_arith);
    if y.is_neg_spec() {
        assert(r.value() == -d.value());
    } else {
        assert(r.value() == d.value());
    }
}

/// A number between 1/2 and 2 has its last place 24 or 23 places behind the point.
proof fn lemma_unit_exponent(y: F32)
    requires
        y.is_finite_spec(),
        1real / 2real <= y.value() < 2real,
    ensures
        y.exp() == -24 || y.exp() == -23,
{
    lemma_exp_constants();
    let two = bits(0x4000_0000);
    lemma2_to64();
    lemma_bits(two, 22, 4194304);
    lemma_order(bits(HALF), y);
    lemma_order(two, y);
    assert(0x3f00_0000 <= y.bits < 0x4000_0000);
}

/// What the exponential of a number is rounded from: the polynomial times a power of two.
pub proof fn lemma_exp(x: F32) -> (n: int)
    requires
        !x.is_nan_spec(),
    ensures
        ({
            let c = exp_clamped(x);
            let y = exp_poly(exp_reduced(c, exp_octaves(c)));
            &&& c.is_finite_spec()
            &&& -(11583653real / 131072real) <= c.value() <= 11583653real / 131072real
            &&& -127 <= n <= 127
            &&& exp_octaves(c).value() == n as real
            &&& is_rounding(exp_of(x), y.value() * power(n))
            &&& is_near(exp_of(x), y.value() * power(n))
            &&& !exp_of(x).is_nan_spec()
            &&& exp_of(x).order() >= 0
        }),
{
    reveal(exp_of);
    lemma_exp_constants();
    let c = exp_clamped(x);
    assert(c.is_finite_spec());
    lemma_order(bits(EXP_LO), c);
    lemma_order(c, bits(EXP_HI));
    let n = lemma_reduction(c);
    let r = exp_reduced(c, exp_octaves(c));
    lemma_exp_poly(r);
    let y = exp_poly(r);
    lemma_unit_exponent(y);
    let h = n / 2;
    lemma_moves_the_point(y, h);
    let y2 = y.mul_spec(exp_scale(h));
    lemma_exp_scale(n - h);
    lemma_mul(y2, exp_scale(n - h));
    lemma_power_adds(h, n - h);
    let (a, p, q) = (y.value(), power(h), power(n - h));
    assert((a * p) * q == a * (p * q)) by (nonlinear_arith);
    lemma_power_step(n);
    let z = a * power(n);
    assert(z >= 0real) by (nonlinear_arith)
        requires
            z == a * power(n),
            a >= 0real,
            power(n) > 0real,
    ;
    lemma_zero();
    lemma_no_number_between(exp_of(x), z, F32::zero_spec());
    n
}

/// Zero stands for zero.
pub proof fn lemma_zero()
    ensures
        F32::zero_spec().is_finite_spec(),
        F32::zero_spec().value() == 0real,
{
    assert(0real * power(-149) == 0real) by (nonlinear_arith);
}

// ------------------------------------------------------------------ sigmoid and tanh

/// What the constants of the hyperbolic tangent stand for.
pub proof fn lemma_tanh_constants()
    ensures
        bits(T1).value() == -(11184811real / 33554432real),
        bits(T1).is_finite_spec(),
        bits(T2).value() == 8947849real / 67108864real,
        bits(T2).is_finite_spec(),
        bits(T3).value() == -(14486993real / 268435456real),
        bits(T3).is_finite_spec(),
        bits(T4).value() == 11741092real / 536870912real,
        bits(T4).is_finite_spec(),
        bits(T5).value() == -(9516827real / 1073741824real),
        bits(T5).is_finite_spec(),
        bits(T6).value() == 15428072real / 4294967296real,
        bits(T6).is_finite_spec(),
        bits(T7).value() == -(12505522real / 8589934592real),
        bits(T7).is_finite_spec(),
        bits(T8).value() == 10136594real / 17179869184real,
        bits(T8).is_finite_spec(),
        bits(T9).value() == -(16432828real / 68719476736real),
        bits(T9).is_finite_spec(),
        bits(TANH_MEDIUM).value() == 5real / 8real,
        bits(TANH_MEDIUM).is_finite_spec(),
{
    lemma2_to64();
    lemma2_to64_rest();
    lemma_bits(bits(T1), 25, 33554432);
    lemma_bits(bits(T2), 26, 67108864);
    lemma_bits(bits(T3), 28, 268435456);
    lemma_bits(bits(T4), 29, 536870912);
    lemma_bits(bits(T5), 30, 1073741824);
    lemma_bits(bits(T6), 32, 4294967296);
    lemma_bits(bits(T7), 33, 8589934592);
    lemma_bits(bits(T8), 34, 17179869184);
    lemma_bits(bits(T9), 36, 68719476736);
    lemma_bits(bits(TANH_MEDIUM), 24, 16777216);
}

/// What the small integers stand for.
pub proof fn lemma_units()
    ensures
        bits(ONE).value() == 1real,
        bits(ONE).is_finite_spec(),
        bits(TWO).value() == 2real,
        bits(TWO).is_finite_spec(),
        bits(MINUS_ONE).value() == -1real,
        bits(MINUS_ONE).is_finite_spec(),
{
    lemma2_to64();
    lemma_bits(bits(ONE), 23, 8388608);
    lemma_bits(bits(TWO), 22, 4194304);
    lemma_bits(bits(MINUS_ONE), 23, 8388608);
}

/// Whether a number is finite and between two bounds.
pub open spec fn between(x: F32, lo: real, hi: real) -> bool {
    x.is_finite_spec() && lo <= x.value() <= hi
}

/// `1 + e` for the exponential `e` of a number: infinite, or at least one.
proof fn lemma_one_more(e: F32, d: F32)
    requires
        !e.is_nan_spec(),
        e.order() >= 0,
        d == bits(ONE).add_spec(e),
    ensures
        d.is_inf_spec() && !d.is_neg_spec() || d.is_finite_spec() && d.value() >= 1real,
{
    lemma_units();
    if e.is_inf_spec() {
        reveal(F32::add_spec);
    } else {
        lemma_add(bits(ONE), e);
        lemma_zero();
        lemma_order(F32::zero_spec(), e);
        lemma_no_number_between(d, 1real + e.value(), bits(ONE));
        if d.is_finite_spec() {
            lemma_order(bits(ONE), d);
        }
    }
}

/// A positive number over one that is infinite or at least one.
proof fn lemma_part(a: F32, d: F32)
    requires
        a.is_finite_spec(),
        a.value() > 0real,
        d.is_inf_spec() && !d.is_neg_spec() || d.is_finite_spec() && d.value() >= 1real,
    ensures
        between(a.div_spec(d), 0real, a.value()),
        d.is_finite_spec() ==> is_rounding(a.div_spec(d), a.value() / d.value()),
{
    lemma_zero();
    let r = a.div_spec(d);
    if d.is_inf_spec() {
        reveal(F32::div_spec);
        assert(r.is_zero_spec());
        assert(r.sig() == 0);
        assert(0real * power(-149) == 0real) by (nonlinear_arith);
    } else {
        lemma_zero();
        lemma_order(d, F32::zero_spec());
        lemma_div(a, d);
        let (x, y) = (a.value(), d.value());
        assert(0real <= x / y <= x) by (nonlinear_arith)
            requires
                x > 0real,
                y >= 1real,
        ;
        lemma_within(r, x / y, F32::zero_spec(), a);
    }
}

/// The logistic function of a number, or of an infinity, lies between zero and one.
pub proof fn law_sigmoid_is_between_zero_and_one(x: F32)
    requires
        !x.is_nan_spec(),
    ensures
        between(sigmoid_of(x), 0real, 1real),
{
    reveal(sigmoid_of);
    lemma_units();
    lemma_zero();
    if !x.lt_spec(bits(SIGMOID_LO)) {
        let m = F32::zero_spec().sub_spec(x);
        lemma_negated(x);
        let n = lemma_exp(m);
        lemma_one_more(exp_of(m), bits(ONE).add_spec(exp_of(m)));
        lemma_part(bits(ONE), bits(ONE).add_spec(exp_of(m)));
    }
}

/// Zero less a number is the number with the other sign.
pub proof fn lemma_negated(x: F32)
    requires
        !x.is_nan_spec(),
    ensures
        !F32::zero_spec().sub_spec(x).is_nan_spec(),
        x.is_finite_spec() ==> F32::zero_spec().sub_spec(x).is_finite_spec()
            && F32::zero_spec().sub_spec(x).value() == -x.value(),
{
    lemma_neg(x);
    lemma_zero();
    if x.is_finite_spec() {
        let y = x.neg_spec();
        lemma_add(F32::zero_spec(), y);
        assert(0real + y.value() == y.value());
        lemma_within(F32::zero_spec().sub_spec(x), y.value(), y, y);
    } else {
        reveal(F32::add_spec);
    }
}

/// The polynomial on reals, over `z = x^2`: what `x` is multiplied by.
pub open spec fn tanh_sum(z: real) -> real {
    1real + horner_sum(z) * z
}

/// The Horner sum under the hyperbolic tangent's odd polynomial.
pub open spec fn tanh_horner(z: F32) -> F32 {
    let y = bits(T9).mul_add_spec(z, bits(T8));
    let y = y.mul_add_spec(z, bits(T7));
    let y = y.mul_add_spec(z, bits(T6));
    let y = y.mul_add_spec(z, bits(T5));
    let y = y.mul_add_spec(z, bits(T4));
    let y = y.mul_add_spec(z, bits(T3));
    let y = y.mul_add_spec(z, bits(T2));
    y.mul_add_spec(z, bits(T1))
}

/// The same on reals.
pub open spec fn horner_sum(zz: real) -> real {
    let s9 = -(16432828real / 68719476736real);
    let s8 = s9 * zz + 10136594real / 17179869184real;
    let s7 = s8 * zz + -(12505522real / 8589934592real);
    let s6 = s7 * zz + 15428072real / 4294967296real;
    let s5 = s6 * zz + -(9516827real / 1073741824real);
    let s4 = s5 * zz + 11741092real / 536870912real;
    let s3 = s4 * zz + -(14486993real / 268435456real);
    let s2 = s3 * zz + 8947849real / 67108864real;
    s2 * zz + -(11184811real / 33554432real)
}

#[verifier::rlimit(50)]
proof fn lemma_tanh_horner(z: F32, zz: real)
    requires
        z.is_finite_spec(),
        -(391real / 1000real) <= z.value() <= 391real / 1000real,
        -(391real / 1000real / 16777216real) <= z.value() - zz <= 391real / 1000real / 16777216real,
        -(391real / 1000real) <= zz <= 391real / 1000real,
    ensures
        between(tanh_horner(z), -(395273real / 1000000real), 395273real / 1000000real),
        -(542451real / 1000000real / 16777216real) <= tanh_horner(z).value() - horner_sum(zz)
            <= 542451real / 1000000real / 16777216real,
{
    lemma_tanh_constants();
    let s9 = -(16432828real / 68719476736real);
    let y9 = bits(T9);
    let y8 = y9.mul_add_spec(z, bits(T8));
    let s8 = s9 * zz + 10136594real / 17179869184real;
    lemma_horner(
        y9,
        z,
        bits(T8),
        y8,
        s9,
        zz,
        3real / 12500real,
        0real / 1real,
        137real / 200000real,
        779real / 1000000real,
    );
    let y7 = y8.mul_add_spec(z, bits(T7));
    let s7 = s8 * zz + -(12505522real / 8589934592real);
    lemma_horner(
        y8,
        z,
        bits(T7),
        y7,
        s8,
        zz,
        137real / 200000real,
        779real / 1000000real,
        69real / 40000real,
        1149real / 500000real,
    );
    let y6 = y7.mul_add_spec(z, bits(T6));
    let s6 = s7 * zz + 15428072real / 4294967296real;
    lemma_horner(
        y7,
        z,
        bits(T6),
        y6,
        s7,
        zz,
        69real / 40000real,
        1149real / 500000real,
        1067real / 250000real,
        5841real / 1000000real,
    );
    let y5 = y6.mul_add_spec(z, bits(T5));
    let s5 = s6 * zz + -(9516827real / 1073741824real);
    lemma_horner(
        y6,
        z,
        bits(T5),
        y5,
        s6,
        zz,
        1067real / 250000real,
        5841real / 1000000real,
        5267real / 500000real,
        14487real / 1000000real,
    );
    let y4 = y5.mul_add_spec(z, bits(T4));
    let s4 = s5 * zz + 11741092real / 536870912real;
    lemma_horner(
        y5,
        z,
        bits(T4),
        y4,
        s5,
        zz,
        5267real / 500000real,
        14487real / 1000000real,
        2599real / 100000real,
        17887real / 500000real,
    );
    let y3 = y4.mul_add_spec(z, bits(T3));
    let s3 = s4 * zz + -(14486993real / 268435456real);
    lemma_horner(
        y4,
        z,
        bits(T3),
        y3,
        s4,
        zz,
        2599real / 100000real,
        17887real / 500000real,
        16033real / 250000real,
        44141real / 500000real,
    );
    let y2 = y3.mul_add_spec(z, bits(T2));
    let s2 = s3 * zz + 8947849real / 67108864real;
    lemma_horner(
        y3,
        z,
        bits(T2),
        y2,
        s3,
        zz,
        16033real / 250000real,
        44141real / 500000real,
        15841real / 100000real,
        54501real / 250000real,
    );
    let y1 = y2.mul_add_spec(z, bits(T1));
    let s1 = s2 * zz + -(11184811real / 33554432real);
    lemma_horner(
        y2,
        z,
        bits(T1),
        y1,
        s2,
        zz,
        15841real / 100000real,
        54501real / 250000real,
        395273real / 1000000real,
        542451real / 1000000real,
    );
}

/// `z * p(z)` for the hyperbolic tangent's odd polynomial `x + x * z * p(z)`.
spec fn tanh_factor(x: F32) -> F32 {
    let z = x.mul_spec(x);
    tanh_horner(z).mul_spec(z)
}

/// How far that factor is from its exact sum.
proof fn lemma_tanh_factor(x: F32)
    requires
        x.is_finite_spec(),
        -(5real / 8real) <= x.value() <= 5real / 8real,
    ensures
        tanh_poly(x) == tanh_factor(x).mul_add_spec(x, x),
        tanh_factor(x).is_finite_spec(),
        -(4861real / 31250real) <= tanh_factor(x).value() <= 4861real / 31250real,
        -(53real / 100real / 16777216real) <= 1real + tanh_factor(x).value() - tanh_sum(
            x.value() * x.value(),
        ) <= 53real / 100real / 16777216real,
        84real / 100real <= tanh_sum(x.value() * x.value()) <= 116real / 100real,
{
    let v = x.value();
    let z = x.mul_spec(x);
    lemma_mul(x, x);
    lemma_product(v, v, 5real / 8real, 5real / 8real);
    let zz = v * v;
    lemma_close(z, zz, 25real / 64real);
    let zv = z.value();
    let gz = zv - zz;
    lemma_tanh_horner(z, zz);
    let y1 = tanh_horner(z);
    let s1 = horner_sum(zz);
    let w = y1.mul_spec(z);
    lemma_mul(y1, z);
    lemma_product(y1.value(), zv, 395273real / 1000000real, 391real / 1000real);
    lemma_close(w, y1.value() * zv, 19319real / 125000real);
    let g1 = y1.value() - s1;
    lemma_product(g1, zv, 542451real / 1000000real / 16777216real, 391real / 1000real);
    lemma_product(s1, gz, 396273real / 1000000real, 391real / 1000real / 16777216real);
    lemma_product(s1, zz, 396273real / 1000000real, 391real / 1000real);
    assert(y1.value() * zv == s1 * zz + s1 * gz + g1 * zv) by (nonlinear_arith)
        requires
            y1.value() == s1 + g1,
            zv == zz + gz,
    ;
    assert(tanh_sum(zz) == 1real + s1 * zz);
}

/// How far the hyperbolic tangent's odd polynomial is from its exact sum.
pub proof fn lemma_tanh_poly(x: F32)
    requires
        x.is_finite_spec(),
        -(5real / 8real) <= x.value() <= 5real / 8real,
    ensures
        between(tanh_poly(x), -1real, 1real),
        -(1real / 10000000real) <= tanh_poly(x).value() - x.value() * tanh_sum(
            x.value() * x.value(),
        ) <= 1real / 10000000real,
{
    let v = x.value();
    let w = tanh_factor(x);
    lemma_tanh_factor(x);
    lemma_mul_add(w, x, x);
    lemma_product(w.value(), v, 4861real / 31250real, 5real / 8real);
    lemma_close(tanh_poly(x), w.value() * v + v, 8real / 10real);
    let p = tanh_sum(v * v);
    let gw = 1real + w.value() - p;
    lemma_product(gw, v, 53real / 100real / 16777216real, 5real / 8real);
    assert(w.value() * v == v * p - v + gw * v) by (nonlinear_arith)
        requires
            w.value() == p - 1real + gw,
    ;
}

/// How far the hyperbolic tangent's odd polynomial is from its exact sum, as a share of the
/// argument, which is not next to zero.
pub proof fn lemma_tanh_poly_share(x: F32, a: real)
    requires
        x.is_finite_spec(),
        -(5real / 8real) <= x.value() <= 5real / 8real,
        a == x.value() || a == -x.value(),
        a >= 1real / 5000real,
    ensures
        tanh_poly(x).is_finite_spec(),
        -(11real / 100000000real * a) <= tanh_poly(x).value() - x.value() * tanh_sum(
            x.value() * x.value(),
        ) <= 11real / 100000000real * a,
        84real / 100real <= tanh_sum(x.value() * x.value()) <= 116real / 100real,
{
    let v = x.value();
    let w = tanh_factor(x);
    let r = tanh_poly(x);
    lemma_tanh_poly(x);
    lemma_tanh_factor(x);
    lemma_mul_add(w, x, x);
    lemma_product(w.value(), v, 4861real / 31250real, a);
    let p = tanh_sum(v * v);
    let gw = 1real + w.value() - p;
    lemma_product(gw, v, 4real / 100000000real, a);
    assert(w.value() * v == v * p - v + gw * v) by (nonlinear_arith)
        requires
            w.value() == p - 1real + gw,
    ;
    let y = w.value() * v + v;
    let size = if y < 0real {
        -y
    } else {
        y
    };
    assert(size <= 116real / 100real * a);
    assert(-(7real / 100000000real * a) <= r.value() - y <= 7real / 100000000real * a) by {
        reveal(is_near);
        lemma2_to64();
        assert(power(-24) == 1real / 16777216real);
        assert(size * power(-24) == size / 16777216real) by (nonlinear_arith)
            requires
                power(-24) == 1real / 16777216real,
        ;
        lemma2_to64_rest();
        lemma_power_monotonic(-150, -60);
        assert(power(-60) == 1real / 1152921504606846976real);
    }
    assert(y == v * p + gw * v);
}

/// One step of a Horner sum: how far the sum is off, in units of 2^-24, and how large it is.
proof fn lemma_horner(
    y: F32,
    z: F32,
    c: F32,
    r: F32,
    s: real,
    zz: real,
    b: real,
    e: real,
    b2: real,
    e2: real,
)
    requires
        y.is_finite_spec(),
        z.is_finite_spec(),
        c.is_finite_spec(),
        r == y.mul_add_spec(z, c),
        -b <= y.value() <= b,
        0real <= b <= 1real,
        -(e / 16777216real) <= y.value() - s <= e / 16777216real,
        0real <= e <= 1real,
        -(391real / 1000real) <= z.value() <= 391real / 1000real,
        -(391real / 1000real / 16777216real) <= z.value() - zz <= 391real / 1000real / 16777216real,
        -(391real / 1000real) <= zz <= 391real / 1000real,
        1real / 10000real <= b2 <= 1real,
        -(b2 - 1real / 1000000real - b * 391real / 1000real) <= c.value() <= b2 - 1real / 1000000real
            - b * 391real / 1000real,
        e2 >= e * 391real / 1000real + b * 391real / 1000real + b2,
    ensures
        r.is_finite_spec(),
        -b2 <= r.value() <= b2,
        -(e2 / 16777216real) <= r.value() - (s * zz + c.value()) <= e2 / 16777216real,
{
    let (yv, zv, cv) = (y.value(), z.value(), c.value());
    lemma_mul_add(y, z, c);
    lemma_product(yv, zv, b, 391real / 1000real);
    lemma_close(r, yv * zv + cv, b2 - 1real / 1000000real);
    let (gy, gz) = (yv - s, zv - zz);
    lemma_product(gy, zz, e / 16777216real, 391real / 1000real);
    lemma_product(yv, gz, b, 391real / 1000real / 16777216real);
    assert(yv * zv == s * zz + gy * zz + yv * gz) by (nonlinear_arith)
        requires
            yv == s + gy,
            zv == zz + gz,
    ;
    assert(e / 16777216real * (391real / 1000real) == e * 391real / 1000real / 16777216real);
    let k = 391real / 1000real / 16777216real;
    assert(b * k == b * 391real / 1000real / 16777216real) by (nonlinear_arith)
        requires
            k == 391real / 1000real / 16777216real,
    ;
}

/// The size of a number.
proof fn lemma_size(x: F32)
    ensures
        x.abs_spec().mag() == x.mag(),
        !x.abs_spec().is_neg_spec(),
        x.abs_spec().value() == if x.is_neg_spec() {
            -x.value()
        } else {
            x.value()
        },
{
}

/// `1 - 2 / (e^2x + 1)`.
pub open spec fn tanh_large(x: F32) -> F32 {
    bits(ONE).sub_spec(bits(TWO).div_spec(exp_of(x.add_spec(x)).add_spec(bits(ONE))))
}

proof fn lemma_tanh_large(x: F32)
    requires
        !x.is_nan_spec(),
    ensures
        between(tanh_large(x), -1real, 1real),
{
    lemma_units();
    let two = x.add_spec(x);
    assert(!two.is_nan_spec()) by {
        if x.is_inf_spec() {
            reveal(F32::add_spec);
        } else {
            lemma_add(x, x);
            lemma_zero();
            lemma_no_number_between(two, x.value() + x.value(), F32::zero_spec());
        }
    }
    let n = lemma_exp(two);
    let e = exp_of(two);
    law_addition_commutes(e, bits(ONE));
    let d = e.add_spec(bits(ONE));
    lemma_one_more(e, d);
    lemma_part(bits(TWO), d);
    let q = bits(TWO).div_spec(d);
    lemma_neg(q);
    lemma_add(bits(ONE), q.neg_spec());
    lemma_within(tanh_large(x), 1real - q.value(), bits(MINUS_ONE), bits(ONE));
}

/// The hyperbolic tangent of a number, or of an infinity, lies between minus one and one.
#[verifier::spinoff_prover]
#[verifier::rlimit(30)]
pub proof fn law_tanh_is_between_minus_one_and_one(x: F32)
    requires
        !x.is_nan_spec(),
    ensures
        between(tanh_of(x), -1real, 1real),
{
    reveal(tanh_of);
    lemma_tanh_constants();
    let size = x.abs_spec();
    lemma_size(x);
    if size.lt_spec(bits(TANH_MEDIUM)) {
        lemma_order(size, bits(TANH_MEDIUM));
        lemma_zero();
        lemma_order(F32::zero_spec(), size);
        lemma_tanh_poly(x);
    } else {
        if size.lt_spec(bits(TANH_SMALL)) {
            assert(bits(TANH_SMALL).order() < bits(TANH_MEDIUM).order());
        }
        lemma_tanh_large(size);
        lemma_neg(tanh_large(size));
    }
}

proof fn lemma_exp_of_nothing(x: F32)
    requires
        x.is_nan_spec(),
    ensures
        exp_of(x).is_nan_spec(),
{
    reveal(exp_of);
    reveal(F32::add_spec);
    reveal(F32::mul_spec);
    reveal(F32::mul_add_spec);
    let c = exp_clamped(x);
    assert(c == x);
    let n = exp_octaves(c);
    let r = exp_reduced(c, n);
    assert(r.is_nan_spec());
    assert(exp_poly(r).is_nan_spec());
}

/// What is not a number has no logistic function and no hyperbolic tangent.
pub proof fn law_nothing_comes_of_nothing(x: F32)
    requires
        x.is_nan_spec(),
    ensures
        sigmoid_of(x).is_nan_spec(),
        tanh_of(x).is_nan_spec(),
{
    reveal(sigmoid_of);
    reveal(tanh_of);
    let size = x.abs_spec();
    let (m, two) = (F32::zero_spec().sub_spec(x), size.add_spec(size));
    assert(m.is_nan_spec() && two.is_nan_spec()) by {
        reveal(F32::add_spec);
    }
    lemma_exp_of_nothing(m);
    lemma_exp_of_nothing(two);
    let (d, e) = (bits(ONE).add_spec(exp_of(m)), exp_of(two).add_spec(bits(ONE)));
    assert(d.is_nan_spec() && e.is_nan_spec()) by {
        reveal(F32::add_spec);
    }
    let q = bits(TWO).div_spec(e);
    assert(q.is_nan_spec() && bits(ONE).div_spec(d).is_nan_spec()) by {
        reveal(F32::div_spec);
    }
    lemma_neg(q);
    assert(bits(ONE).sub_spec(q).is_nan_spec()) by {
        reveal(F32::add_spec);
    }
}

// ------------------------------------------------------------------ the recurrent unit

/// `(1 - z) * n + z * h` in two roundings and a fused one.
proof fn lemma_blend(z: F32, n: F32, h: F32)
    requires
        between(z, 0real, 1real),
        between(n, -1real, 1real),
        between(h, -1real, 1real),
    ensures
        between(bits(ONE).sub_spec(z).mul_add_spec(n, z.mul_spec(h)), -1real, 1real),
{
    lemma_units();
    lemma_zero();
    let (zv, nv, hv) = (z.value(), n.value(), h.value());
    lemma_neg(z);
    // the share of the new state
    let a = bits(ONE).sub_spec(z);
    lemma_add(bits(ONE), z.neg_spec());
    lemma_within(a, 1real - zv, F32::zero_spec(), bits(ONE));
    lemma2_to64();
    assert(power(0) == 1real && power(-25) == 1real / 33554432real && power(1 - 25) == 1real
        / 16777216real);
    if zv == 0real {
        lemma_within(a, 1real, bits(ONE), bits(ONE));
    } else {
        lemma_add_below(bits(ONE), z.neg_spec(), 0);
    }
    let av = a.value();
    assert(av + zv <= 1real + 1real / 33554432real);
    // what is kept of the old one
    let p = z.mul_spec(h);
    lemma_mul(z, h);
    lemma_product(zv, hv, zv, 1real);
    lemma_within(p, zv * hv, z.neg_spec(), z);
    lemma_product(av, nv, av, 1real);
    let x = av * nv + p.value();
    let r = a.mul_add_spec(n, p);
    lemma_mul_add(a, n, p);
    lemma_close(r, x, 1real + 1real / 33554432real);
    // the nearest number to what is that little past one is one
    let (up, down) = (bits(0x3f80_0001), bits(0xbf80_0001));
    lemma_bits(up, 23, 8388608);
    lemma_bits(down, 23, 8388608);
    lemma_order(up, r);
    lemma_order(r, down);
    lemma_order(r, bits(ONE));
    lemma_order(bits(MINUS_ONE), r);
}

/// Whether the sums under the gates of a step are numbers or infinities.
pub open spec fn sums_are_numbers(xw: Seq<F32>, hr: Seq<F32>, rb: Seq<F32>, hs: int) -> bool {
    forall|k: int|
        #![trigger xw[k]]
        0 <= k < hs ==> {
            let r = sigmoid_of(xw[hs + k].add_spec(hr[hs + k]).add_spec(rb[hs + k]));
            &&& !xw[k].add_spec(hr[k]).add_spec(rb[k]).is_nan_spec()
            &&& !xw[2 * hs + k].add_spec(
                r.mul_spec(hr[2 * hs + k].add_spec(rb[2 * hs + k])),
            ).is_nan_spec()
        }
}

/// A step of the recurrent unit keeps the state between minus one and one.
pub proof fn law_gates_keep_the_state_small(
    xw: Seq<F32>,
    hr: Seq<F32>,
    rb: Seq<F32>,
    h: Seq<F32>,
    hs: nat,
)
    requires
        sums_are_numbers(xw, hr, rb, hs as int),
        forall|k: int| 0 <= k < hs ==> between(#[trigger] h[k], -1real, 1real),
    ensures
        forall|k: int|
            0 <= k < hs ==> between(#[trigger] gates_of(xw, hr, rb, h, hs)[k], -1real, 1real),
{
    assert forall|k: int| 0 <= k < hs implies between(
        #[trigger] gates_of(xw, hr, rb, h, hs)[k],
        -1real,
        1real,
    ) by {
        let n = hs as int;
        let z = xw[k].add_spec(hr[k]).add_spec(rb[k]);
        let r = sigmoid_of(xw[n + k].add_spec(hr[n + k]).add_spec(rb[n + k]));
        let c = xw[2 * n + k].add_spec(r.mul_spec(hr[2 * n + k].add_spec(rb[2 * n + k])));
        law_sigmoid_is_between_zero_and_one(z);
        law_tanh_is_between_minus_one_and_one(c);
        assert(between(h[k], -1real, 1real));
        lemma_blend(sigmoid_of(z), tanh_of(c), h[k]);
    }
}

/// Whether the sums under the gates of the first `n` steps are numbers or infinities.
pub open spec fn steps_are_numbers(xw: Seq<F32>, r: Seq<F32>, rb: Seq<F32>, hs: nat, n: nat) -> bool {
    forall|j: nat|
        #![trigger gru_state(xw, r, rb, hs, j)]
        j < n ==> sums_are_numbers(
            row_of(xw, j as int, 3 * hs as int),
            matvec_packed_of(r, 3 * hs, hs as int, gru_state(xw, r, rb, hs, j)),
            rb,
            hs as int,
        )
}

proof fn lemma_state_stays_small(xw: Seq<F32>, r: Seq<F32>, rb: Seq<F32>, hs: nat, t: nat, n: nat)
    requires
        steps_are_numbers(xw, r, rb, hs, t),
        n <= t,
    ensures
        forall|k: int|
            0 <= k < hs ==> between(#[trigger] gru_state(xw, r, rb, hs, n)[k], -1real, 1real),
    decreases n,
{
    lemma_zero();
    if n > 0 {
        let j = (n - 1) as nat;
        lemma_state_stays_small(xw, r, rb, hs, t, j);
        let h = gru_state(xw, r, rb, hs, j);
        law_gates_keep_the_state_small(
            row_of(xw, j as int, 3 * hs as int),
            matvec_packed_of(r, 3 * hs, hs as int, h),
            rb,
            h,
            hs,
        );
    } else {
        assert forall|k: int| 0 <= k < hs implies between(
            #[trigger] gru_state(xw, r, rb, hs, n)[k],
            -1real,
            1real,
        ) by {
            assert(gru_state(xw, r, rb, hs, n)[k] == F32::zero_spec());
        }
    }
}

/// Every output of the recurrent unit lies between minus one and one, as long as no sum under its
/// gates fails to be a number.
pub proof fn law_recurrent_outputs_are_small(
    x: Seq<F32>,
    t: nat,
    i: int,
    w: Seq<F32>,
    r: Seq<F32>,
    b: Seq<F32>,
    hs: nat,
)
    requires
        steps_are_numbers(
            gemm_of(x, t, i, w, 3 * hs, b.take(3 * hs as int)),
            r,
            b.skip(3 * hs as int),
            hs,
            t,
        ),
    ensures
        forall|j: int|
            0 <= j < t * hs ==> between(
                #[trigger] gru_of(x, t, i, w, r, b, hs)[j],
                -1real,
                1real,
            ),
{
    let xw = gemm_of(x, t, i, w, 3 * hs, b.take(3 * hs as int));
    let rb = b.skip(3 * hs as int);
    let g = gru_states(xw, r, rb, hs);
    let small = |v: F32| between(v, -1real, 1real);
    assert forall|ti: int, k: int| 0 <= ti < t && 0 <= k < g(ti).len() implies small(
        #[trigger] g(ti)[k],
    ) by {
        lemma_state_stays_small(xw, r, rb, hs, t, (ti + 1) as nat);
        assert(g(ti) == gru_state(xw, r, rb, hs, (ti + 1) as nat));
    }
    lemma_rows_all(t, g, small);
    lemma_gru_len(x, t, i, w, r, b, hs);
    assert forall|j: int| 0 <= j < t * hs implies between(
        #[trigger] gru_of(x, t, i, w, r, b, hs)[j],
        -1real,
        1real,
    ) by {
        assert(small(rows(t, g)[j]));
    }
}

// ------------------------------------------------------------------ the outputs of the stages

/// What holds of every place of every row holds of every place of the array.
proof fn lemma_rows_all(n: nat, row: spec_fn(int) -> Seq<F32>, p: spec_fn(F32) -> bool)
    requires
        forall|i: int, j: int| 0 <= i < n && 0 <= j < row(i).len() ==> p(#[trigger] row(i)[j]),
    ensures
        forall|k: int| 0 <= k < rows(n, row).len() ==> p(#[trigger] rows(n, row)[k]),
    decreases n,
{
    if n > 0 {
        lemma_rows_all((n - 1) as nat, row, p);
        let a = rows((n - 1) as nat, row);
        assert forall|k: int| 0 <= k < rows(n, row).len() implies p(#[trigger] rows(n, row)[k]) by {
            if k < a.len() {
                assert(rows(n, row)[k] == a[k]);
            } else {
                assert(rows(n, row)[k] == row(n - 1)[k - a.len()]);
            }
        }
    }
}

/// Every gain of the band mask lies between zero and one, unless it is not a number.
pub proof fn law_band_gains_are_shares(b: BankView, e: EncOutView, t: nat, i: int)
    requires
        0 <= i < erb_dec_of(b, e, t).len(),
    ensures
        erb_dec_of(b, e, t)[i].is_nan_spec() || between(erb_dec_of(b, e, t)[i], 0real, 1real),
{
    let y = erb_thirty_two_of(
        b,
        erb_sixteen_of(b, erb_eight_of(b, erb_start_of(b, e.emb, t), e, t), e, t),
        e,
        t,
    );
    let s = conv1x3_of(
        y,
        16,
        t,
        32,
        b.w.tensor("erb_dec/onnx::Conv_268"@),
        b.w.tensor("erb_dec/onnx::Conv_269"@),
        1,
    );
    assert(erb_dec_of(b, e, t)[i] == sigmoid_of(s[i]));
    if s[i].is_nan_spec() {
        law_nothing_comes_of_nothing(s[i]);
    } else {
        law_sigmoid_is_between_zero_and_one(s[i]);
    }
}

/// Every predicted SNR lies between -15 and 35 dB, unless it is not a number.
pub proof fn law_predicted_snr_is_bounded(
    b: BankView,
    feat_erb: Seq<F32>,
    feat_spec: Seq<F32>,
    t: nat,
    ti: int,
)
    requires
        0 <= ti < t,
    ensures
        ({
            let s = encode_of(b, feat_erb, feat_spec, t).lsnr[ti];
            s.is_nan_spec() || between(s, -15real, 35real)
        }),
{
    let emb = encode_of(b, feat_erb, feat_spec, t).emb;
    let d = dot_of(row_of(emb, ti, 128), b.w.tensor("enc/onnx::MatMul_365"@)).add_spec(
        b.w.tensor("enc/lsnr_fc.0.bias"@)[0],
    );
    let (span, floor) = (bits(LSNR_SPAN), bits(LSNR_FLOOR));
    let g = sigmoid_of(d);
    let m = g.mul_spec(span);
    let s = m.sub_spec(floor);
    assert(encode_of(b, feat_erb, feat_spec, t).lsnr[ti] == s);
    if d.is_nan_spec() {
        law_nothing_comes_of_nothing(d);
        reveal(F32::mul_spec);
        reveal(F32::add_spec);
    } else {
        law_sigmoid_is_between_zero_and_one(d);
        lemma2_to64();
        lemma_bits(span, 18, 262144);
        lemma_bits(floor, 20, 1048576);
        lemma_zero();
        lemma_mul(g, span);
        assert(0real <= g.value() * 50real <= 50real);
        lemma_within(m, g.value() * span.value(), F32::zero_spec(), span);
        lemma_neg(floor);
        lemma_add(m, floor.neg_spec());
        let top = bits(0x420c_0000);
        lemma_bits(top, 18, 262144);
        lemma_within(s, m.value() - 15real, floor.neg_spec(), top);
    }
}

proof fn lemma_relu(x: F32)
    ensures
        !relu_of(x).lt_spec(F32::zero_spec()),
{
}

/// No coefficient of the deep filter is less than -1.
pub proof fn law_filter_coefficients_are_bounded_below(b: BankView, e: EncOutView, t: nat, i: int)
    requires
        0 <= i < df_dec_of(b, e, t).len(),
    ensures
        !df_dec_of(b, e, t)[i].lt_spec(bits(MINUS_ONE)),
{
    let x = relu_seq(gl_of(b.w, e.emb, t, "df_dec/df_gru.linear_in.0.weight"@));
    let h = df_recurrent_of(b, x, t);
    let s = gl_of(b.w, h, t, "df_dec/df_out.0.weight"@);
    let (pw, pb) = ("df_dec/onnx::Conv_314"@, "df_dec/onnx::Conv_315"@);
    let cp = mixed_of(b, e.c0, t * 64, pw, pb, 10);
    let c = frames_first_of(cp, 10, t, 64);
    let g = tanh_of(s[i]);
    lemma_units();
    if s[i].is_nan_spec() {
        law_nothing_comes_of_nothing(s[i]);
    } else {
        law_tanh_is_between_minus_one_and_one(s[i]);
        lemma_order(bits(MINUS_ONE), g);
    }
    if i < c.len() {
        let positive = |v: F32| !v.lt_spec(F32::zero_spec());
        assert forall|j: int| 0 <= j < cp.len() implies positive(#[trigger] cp[j]) by {
            lemma_relu(
                pointwise_of(e.c0, 16, t * 64, b.w.tensor(pw), Some(b.w.tensor(pb)), 10)[j],
            );
        }
        lemma_pointwise_len(e.c0, 16, t * 64, b.w.tensor(pw), Some(b.w.tensor(pb)), 10);
        lemma_frames_all(cp, 10, t, 64, positive);
        let y = c[i];
        assert(positive(y));
        let r = g.add_spec(y);
        assert(df_dec_of(b, e, t)[i] == r);
        if g.is_nan_spec() || y.is_nan_spec() || y.is_inf_spec() {
            reveal(F32::add_spec);
        } else {
            lemma_zero();
            lemma_order(F32::zero_spec(), y);
            lemma_add(g, y);
            lemma_no_number_between(r, g.value() + y.value(), bits(MINUS_ONE));
        }
    } else {
        assert(df_dec_of(b, e, t)[i] == g);
    }
}

/// What holds of every place of a map holds of every place of it frame by frame.
proof fn lemma_frames_all(x: Seq<F32>, c: nat, t: nat, f: nat, p: spec_fn(F32) -> bool)
    requires
        c * t * f <= x.len(),
        forall|j: int| 0 <= j < x.len() ==> p(#[trigger] x[j]),
    ensures
        forall|k: int|
            0 <= k < frames_first_of(x, c, t, f).len() ==> p(
                #[trigger] frames_first_of(x, c, t, f)[k],
            ),
{
    let g = frames_of(x, c, t as int, f);
    assert forall|ti: int, j: int| 0 <= ti < t && 0 <= j < g(ti).len() implies p(
        #[trigger] g(ti)[j],
    ) by {
        let h = channels_at(x, c, t as int, f as int, ti);
        assert forall|fi: int, ch: int| 0 <= fi < f && 0 <= ch < h(fi).len() implies p(
            #[trigger] h(fi)[ch],
        ) by {
            lemma_place(ch, ti, c as int, t as int);
            lemma_place(ch * t + ti, fi, c as int * t, f as int);
            assert(h(fi)[ch] == x[(ch * t + ti) * f + fi]);
        }
        lemma_rows_all(f, h, p);
        assert(g(ti) == rows(f, h));
    }
    lemma_rows_all(t, g, p);
}

} // verus!
