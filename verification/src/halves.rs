//! What binary16 patterns stand for, and which numbers are too large for them.
use vstd::arithmetic::power2::*;
use vstd::prelude::*;

use crate::float::F32;
use crate::half::{
    half_exp, half_is_finite, half_mag, half_neg, half_sig, law_widening_is_exact, narrow,
    narrowed_over, round16, widen, widened_over,
};
use crate::rounding::{last_place, lemma_bit_len_unique, lemma_round_to_scaled, round_half_even};
use crate::values::{
    lemma_order, lemma_power_step, lemma_round_to_monotonic, lemma_scaled, lemma_sign, power,
};

verus! {

/// A binary16 pattern has a sign bit, five bits of an exponent and ten of a fraction. With a zero
/// exponent the fraction counts steps of 2^-24; with another one `e` up to 30, one and the fraction count
/// steps of `2^(e - 25)`. The exponent 31 is that of the infinities and of what is not a number.
pub proof fn law_binary16_patterns_stand_for(h: u16)
    ensures
        ({
            let (s, e, f) = (h as int / 32768, h as int / 1024 % 32, h as int % 1024);
            let v = if e == 0 {
                f as real * power(-24)
            } else {
                (1024 + f) as real * power(e - 25)
            };
            let w = widen(h);
            &&& w.is_neg_spec() == (s == 1)
            &&& e < 31 ==> w.is_finite_spec() && w.value() == if s == 1 {
                -v
            } else {
                v
            }
            &&& e == 31 && f == 0 ==> w.is_inf_spec()
            &&& e == 31 && f != 0 ==> w.is_nan_spec()
        }),
{
    let (e, f) = (h as int / 1024 % 32, h as int % 1024);
    assert(half_mag(h) == e * 1024 + f);
    if half_is_finite(h) {
        law_widening_is_exact(h);
        let w = widen(h);
        if half_mag(h) != 0 {
            lemma_scaled(half_sig(h) as int, (half_exp(h) - w.exp()) as nat, half_exp(h));
        } else {
            lemma_sign(w);
            let p = power(-24);
            assert(0real * p == 0real) by (nonlinear_arith);
        }
    }
}

proof fn lemma_round16_monotonic(m: nat, e: int, n: nat, f: int)
    requires
        m as real * power(e) <= n as real * power(f),
    ensures
        round16(m, e) <= round16(n, f),
{
    let g = if e < f {
        e
    } else {
        f
    };
    let (j, k) = ((e - g) as nat, (f - g) as nat);
    lemma_round_to_scaled(11, -24, 0x7c00, m, e, j);
    lemma_round_to_scaled(11, -24, 0x7c00, n, f, k);
    lemma_scaled(m as int, j, e);
    lemma_scaled(n as int, k, f);
    lemma_power_step(g);
    let (a, b) = (m * pow2(j), n * pow2(k));
    let (x, y, p) = (a as real, b as real, power(g));
    assert(x <= y) by (nonlinear_arith)
        requires
            x * p <= y * p,
            p > 0real,
    ;
    lemma_round_to_monotonic(11, -24, 0x7c00, a, b, g);
}

/// The number next below 65520 is not too large, and 65520 is.
proof fn lemma_border()
    ensures
        round16(0xff_efff, -8) == 0x7bff,
        round16(0xff_f000, -8) == 0x7c00,
{
    lemma2_to64();
    lemma_bit_len_unique(0xff_efff, 24);
    lemma_bit_len_unique(0xff_f000, 24);
    assert(pow2(13) == 8192);
    assert(pow2(10) == 1024);
    assert(last_place(11, -24, 0xff_efff, -8) == 5);
    assert(last_place(11, -24, 0xff_f000, -8) == 5);
    assert(round_half_even(0xff_efff, 13) == 2047);
    assert(round_half_even(0xff_f000, 13) == 2048);
    let (k, u) = ((5int - (-8)) as nat, (5int - (-24)) as nat);
    assert(k == 13 && u == 29);
    assert(round_half_even(0xff_efff, k) == 2047 && round_half_even(0xff_f000, k) == 2048);
    let p = pow2((11nat - 1) as nat);
    assert(p == 1024);
    assert(u * p == 29696) by (nonlinear_arith)
        requires
            u == 29,
            p == 1024,
    ;
}

/// A number is narrowed to an infinity of its sign if and only if it is 65520 or more off zero.
pub proof fn law_numbers_from_65520_on_are_too_large(x: F32)
    requires
        x.is_finite_spec(),
    ensures
        half_is_finite(narrow(x)) <==> -65520real < x.value() < 65520real,
        half_neg(narrow(x)) == x.is_neg_spec(),
        !half_is_finite(narrow(x)) ==> half_mag(narrow(x)) == 0x7c00,
{
    lemma_border();
    lemma_sign(x);
    lemma2_to64();
    let (top, c) = (F32 { bits: 0x477f_f000 }, F32 { bits: 0x477f_efff });
    assert(top.sig() == 0xff_f000 && top.exp() == -8);
    assert(c.sig() == 0xff_efff && c.exp() == -8);
    assert(power(-8) == 1real / 256real);
    assert(top.value() == 65520real);
    let v = x.sig() as real * power(x.exp());
    let a = x.abs_spec();
    assert(a.sig() == x.sig() && a.exp() == x.exp() && a.is_finite_spec());
    assert(a.value() == v);
    assert(round16(x.sig(), x.exp()) <= 0x7c00);
    if v >= 65520real {
        lemma_round16_monotonic(0xff_f000, -8, x.sig(), x.exp());
    } else {
        lemma_order(top, a);
        assert(a.order() < top.order());
        assert(a.order() <= c.order());
        lemma_order(a, c);
        lemma_round16_monotonic(x.sig(), x.exp(), 0xff_efff, -8);
    }
}

/// The infinities are narrowed to infinities, and what is not a number to a pattern that is not.
pub proof fn law_narrowing_without_numbers(x: F32)
    ensures
        half_neg(narrow(x)) == x.is_neg_spec(),
        x.is_inf_spec() ==> half_mag(narrow(x)) == 0x7c00,
        x.is_nan_spec() ==> half_mag(narrow(x)) > 0x7c00,
{
    assert(round16(x.sig(), x.exp()) <= 0x7c00);
}

/// Slices are narrowed and widened place by place, as far as both go; behind that nothing changes.
pub proof fn law_slices_convert_place_by_place(
    x: Seq<F32>,
    h: Seq<u16>,
    i: int,
)
    ensures
        narrowed_over(x, h).len() == h.len(),
        widened_over(h, x).len() == x.len(),
        0 <= i < h.len() && i < x.len() ==> narrowed_over(x, h)[i] == narrow(x[i]) && widened_over(h, x)[i]
            == widen(h[i]),
        x.len() <= i < h.len() ==> narrowed_over(x, h)[i] == h[i],
        h.len() <= i < x.len() ==> widened_over(h, x)[i] == x[i],
{
}

} // verus!
