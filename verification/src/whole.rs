//! Whole numbers near a number, cutting off, and what is not finite.
use vstd::arithmetic::div_mod::*;
use vstd::arithmetic::power2::*;
use vstd::prelude::*;

use crate::float::{with_sign, F32};
use crate::values::{
    dyadic, is_near, lemma_dyadic, lemma_neg, lemma_order, lemma_power_monotonic, lemma_power_step,
    lemma_round_signed, lemma_sign, lemma_within, power,
};

verus! {

// ------------------------------------------------------------------ whole numbers

/// A number of digits before and behind the point, with half of the last digit before it.
proof fn lemma_half_up(s: nat, k: nat)
    requires
        k > 0,
    ensures
        ({
            let n = (s + pow2((k - 1) as nat)) / pow2(k);
            let v = s as real * power(-(k as int));
            n as real - 1real / 2real <= v < n as real + 1real / 2real
        }),
{
    let (p, h) = (pow2(k) as int, pow2((k - 1) as nat) as int);
    lemma_pow2_pos(k);
    lemma_pow2_pos((k - 1) as nat);
    lemma_pow2_unfold(k);
    assert(p == 2 * h);
    lemma_fundamental_div_mod(s as int + h, p);
    let (n, r) = ((s + h) / p, (s + h) % p);
    let v = s as real * power(-(k as int));
    let (sr, pr, nr, rr, w) = (s as real, p as real, n as real, r as real, power(-(k as int)));
    assert(p * n == n * p) by (nonlinear_arith);
    let np = (n * p) as real;
    assert(np == nr * pr) by (nonlinear_arith)
        requires
            np == (n * p) as real,
            nr == n as real,
            pr == p as real,
    ;
    lemma_power_step(-(k as int));
    assert(sr == nr * pr + rr - pr / 2real);
    assert(w == 1real / pr);
    assert(pr * w == 1real) by (nonlinear_arith)
        requires
            w == 1real / pr,
            pr > 0real,
    ;
    assert(nr - 1real / 2real <= v < nr + 1real / 2real) by (nonlinear_arith)
        requires
            v == sr * w,
            sr == nr * pr + rr - pr / 2real,
            pr * w == 1real,
            0real <= rr < pr,
            w > 0real,
    ;
}

/// The nearest integer is no further off than one half, and lies away from zero where two are as near.
pub proof fn law_the_nearest_integer_is_near(x: F32)
    requires
        x.is_finite_spec(),
    ensures
        x.value() >= 0real ==> x.nearest_int() as real - 1real / 2real <= x.value() < x.nearest_int() as real
            + 1real / 2real,
        x.value() <= 0real ==> x.nearest_int() as real - 1real / 2real < x.value() <= x.nearest_int() as real
            + 1real / 2real,
{
    reveal(F32::nearest_int);
    lemma_sign(x);
    let v = x.sig() as real * power(x.exp());
    let m = if x.exp() >= 0 {
        x.sig() * pow2(x.exp() as nat)
    } else {
        (x.sig() + pow2((-x.exp() - 1) as nat)) / pow2((-x.exp()) as nat)
    };
    if x.exp() >= 0 {
        assert(m as real == v) by (nonlinear_arith)
            requires
                m == x.sig() * pow2(x.exp() as nat),
                v == x.sig() as real * (pow2(x.exp() as nat) as real),
        ;
    } else {
        lemma_half_up(x.sig(), (-x.exp()) as nat);
    }
    assert(m as real - 1real / 2real <= v < m as real + 1real / 2real);
    assert(x.nearest_int() == with_sign(x.is_neg_spec(), m));
    assert((-(m as int)) as real == -(m as real));
}

/// The nearest integer within limits: it lies within them, and on either side of it there is no nearer
/// one within them.
pub proof fn law_integers_within_limits_are_nearest(x: F32, lo: int, hi: int)
    requires
        x.is_finite_spec(),
        lo <= hi,
    ensures
        lo <= x.rounded_into(lo, hi) <= hi,
        x.rounded_into(lo, hi) > lo ==> x.rounded_into(lo, hi) as real - 1real / 2real <= x.value(),
        x.rounded_into(lo, hi) < hi ==> x.value() <= x.rounded_into(lo, hi) as real + 1real / 2real,
{
    law_the_nearest_integer_is_near(x);
}

/// An infinity gives the limit on its side, and what is not a number gives zero.
pub proof fn law_integers_without_a_number(x: F32, lo: int, hi: int)
    ensures
        x.is_nan_spec() ==> x.rounded_into(lo, hi) == 0,
        x.is_inf_spec() && x.is_neg_spec() ==> x.rounded_into(lo, hi) == lo,
        x.is_inf_spec() && !x.is_neg_spec() ==> x.rounded_into(lo, hi) == hi,
{
}

/// An integer as a number is off by at most a share of 2^-24.
pub proof fn law_integers_are_off_by_a_share(n: int)
    requires
        -0x1_0000_0000_0000_0000 <= n <= 0x1_0000_0000_0000_0000,
    ensures
        F32::of_int(n).is_finite_spec(),
        ({
            let size = if n < 0 {
                -n
            } else {
                n
            };
            -(size as real / 16777216real) <= F32::of_int(n).value() - n as real <= size as real
                / 16777216real
        }),
{
    reveal(F32::of_int);
    reveal(is_near);
    lemma2_to64();
    lemma2_to64_rest();
    let (x, p) = (n as real, power(0));
    assert(x * p == x) by (nonlinear_arith)
        requires
            p == 1real,
    ;
    lemma_round_signed(n, 0, false);
    lemma_dyadic(1, 64);
    lemma_dyadic(-1, 64);
    assert(power(64) == 18446744073709551616real);
    assert(1int as real * power(64) == power(64) && (-1int) as real * power(64) == -power(64)) by (nonlinear_arith);
    let r = F32::of_int(n);
    lemma_within(r, x, dyadic(-1, 64), dyadic(1, 64));
    let q = power(-24);
    assert(q == 1real / 16777216real);
    let y = if x < 0real {
        -x
    } else {
        x
    };
    assert(y * q == y / 16777216real) by (nonlinear_arith)
        requires
            q == 1real / 16777216real,
    ;
    if n == 0 {
        crate::shares::law_small_integers_are_numbers(0);
    } else {
        lemma_power_monotonic(-150, -24);
        assert(y >= 1real);
    }
}

/// The greatest integer not above a number, as a number and as an integer of 32 bits.
pub proof fn law_the_floor_is_the_greatest_integer_below(x: F32) -> (n: int)
    requires
        x.is_finite_spec(),
        -0x10_0000real <= x.value() <= 0x10_0000real,
    ensures
        n as real <= x.value() < n as real + 1real,
        x.floor_spec().is_finite_spec(),
        x.floor_spec().value() == n as real,
        x.floor_spec().to_i32_spec() == n,
{
    crate::values::lemma_floor(x)
}

// ------------------------------------------------------------------ order

/// One number is below another if and only if what it stands for is.
pub proof fn law_numbers_compare_as_their_values(x: F32, y: F32)
    requires
        x.is_finite_spec(),
        y.is_finite_spec(),
    ensures
        x.lt_spec(y) <==> x.value() < y.value(),
{
    lemma_order(y, x);
}

/// The infinities lie on either side of all numbers, and what is not a number compares with nothing.
pub proof fn law_comparisons_without_numbers(x: F32, y: F32)
    ensures
        x.is_nan_spec() || y.is_nan_spec() ==> !x.lt_spec(y),
        x.is_finite_spec() && y.is_inf_spec() ==> x.lt_spec(y) == !y.is_neg_spec(),
        x.is_inf_spec() && y.is_finite_spec() ==> x.lt_spec(y) == x.is_neg_spec(),
        x.is_inf_spec() && y.is_inf_spec() ==> x.lt_spec(y) == (x.is_neg_spec() && !y.is_neg_spec()),
{
}

/// A number is cut off to limits.
pub proof fn law_cutting_off_keeps_within_limits(x: F32, lo: F32, hi: F32)
    requires
        lo.is_finite_spec(),
        hi.is_finite_spec(),
        lo.value() <= hi.value(),
    ensures
        x.is_finite_spec() ==> x.clamp_spec(lo, hi).is_finite_spec() && x.clamp_spec(lo, hi).value()
            == if x.value() < lo.value() {
            lo.value()
        } else if x.value() > hi.value() {
            hi.value()
        } else {
            x.value()
        },
        x.is_inf_spec() ==> x.clamp_spec(lo, hi) == if x.is_neg_spec() {
            lo
        } else {
            hi
        },
        x.is_nan_spec() ==> x.clamp_spec(lo, hi) == x,
{
    if x.is_finite_spec() {
        lemma_order(lo, x);
        lemma_order(x, hi);
    }
}

/// The magnitude of a number is its distance from zero; the other sign is its mirror image.
pub proof fn law_magnitudes_and_mirror_images(x: F32)
    requires
        x.is_finite_spec(),
    ensures
        x.abs_spec().is_finite_spec(),
        x.abs_spec().value() == if x.value() < 0real {
            -x.value()
        } else {
            x.value()
        },
        x.neg_spec().is_finite_spec(),
        x.neg_spec().value() == -x.value(),
{
    lemma_sign(x);
    lemma_neg(x);
    assert(x.abs_spec().sig() == x.sig() && x.abs_spec().exp() == x.exp());
}

// ------------------------------------------------------------------ without numbers

/// Whether `x` is an infinity, the one below if and only if `neg`.
pub open spec fn infinite(x: F32, neg: bool) -> bool {
    x.is_inf_spec() && x.is_neg_spec() == neg
}

/// Nothing computed with what is not a number is a number.
pub proof fn law_no_number_comes_of_none(x: F32, y: F32, z: F32)
    requires
        x.is_nan_spec(),
    ensures
        x.add_spec(y).is_nan_spec() && y.add_spec(x).is_nan_spec(),
        x.sub_spec(y).is_nan_spec() && y.sub_spec(x).is_nan_spec(),
        x.mul_spec(y).is_nan_spec() && y.mul_spec(x).is_nan_spec(),
        x.div_spec(y).is_nan_spec() && y.div_spec(x).is_nan_spec(),
        x.mul_add_spec(y, z).is_nan_spec() && y.mul_add_spec(x, z).is_nan_spec() && y.mul_add_spec(z, x).is_nan_spec(),
        x.sqrt_spec().is_nan_spec(),
        x.floor_spec().is_nan_spec(),
{
    reveal(F32::add_spec);
    reveal(F32::mul_spec);
    reveal(F32::mul_add_spec);
    reveal(F32::div_spec);
    reveal(F32::sqrt_spec);
    lemma_neg(x);
}

/// Sums with an infinity.
pub proof fn law_sums_with_an_infinity(x: F32, y: F32)
    requires
        x.is_inf_spec(),
        !y.is_nan_spec(),
    ensures
        infinite(y, !x.is_neg_spec()) ==> x.add_spec(y).is_nan_spec(),
        !infinite(y, !x.is_neg_spec()) ==> infinite(x.add_spec(y), x.is_neg_spec()) && infinite(
            y.add_spec(x),
            x.is_neg_spec(),
        ),
{
    reveal(F32::add_spec);
}

/// Products with an infinity.
pub proof fn law_products_with_an_infinity(x: F32, y: F32, z: F32)
    requires
        x.is_inf_spec(),
        !y.is_nan_spec(),
        z.is_finite_spec(),
    ensures
        y.is_zero_spec() ==> x.mul_spec(y).is_nan_spec() && y.mul_spec(x).is_nan_spec() && x.mul_add_spec(
            y,
            z,
        ).is_nan_spec(),
        !y.is_zero_spec() ==> ({
            let neg = x.is_neg_spec() != y.is_neg_spec();
            infinite(x.mul_spec(y), neg) && infinite(y.mul_spec(x), neg) && infinite(
                x.mul_add_spec(y, z),
                neg,
            )
        }),
        y.is_finite_spec() ==> infinite(z.mul_add_spec(y, x), x.is_neg_spec()),
{
    reveal(F32::mul_spec);
    reveal(F32::mul_add_spec);
}

/// Quotients with an infinity, or by zero.
pub proof fn law_quotients_with_an_infinity_or_by_zero(x: F32, y: F32)
    requires
        !x.is_nan_spec(),
        !y.is_nan_spec(),
    ensures
        ({
            let neg = x.is_neg_spec() != y.is_neg_spec();
            &&& x.is_inf_spec() && y.is_inf_spec() ==> x.div_spec(y).is_nan_spec()
            &&& x.is_inf_spec() && !y.is_inf_spec() ==> infinite(x.div_spec(y), neg)
            &&& !x.is_inf_spec() && y.is_inf_spec() ==> x.div_spec(y).is_zero_spec() && x.div_spec(
                y,
            ).is_neg_spec() == neg
            &&& x.is_zero_spec() && y.is_zero_spec() ==> x.div_spec(y).is_nan_spec()
            &&& x.is_finite_spec() && !x.is_zero_spec() && y.is_zero_spec() ==> infinite(
                x.div_spec(y),
                neg,
            )
        }),
{
    reveal(F32::div_spec);
}

/// Roots of what is below zero, of zero and of an infinity.
pub proof fn law_roots_outside_the_numbers_above_zero(x: F32)
    ensures
        x.is_zero_spec() ==> x.sqrt_spec() == x,
        x.is_neg_spec() && !x.is_zero_spec() ==> x.sqrt_spec().is_nan_spec(),
        infinite(x, false) ==> infinite(x.sqrt_spec(), false),
{
    reveal(F32::sqrt_spec);
}

/// A product or a quotient, be it zero, has the minus if and only if just one of the operands has it.
pub proof fn law_signs_of_products_and_quotients(x: F32, y: F32)
    requires
        x.is_finite_spec(),
        y.is_finite_spec(),
    ensures
        x.mul_spec(y).is_neg_spec() == (x.is_neg_spec() != y.is_neg_spec()),
        !y.is_zero_spec() ==> x.div_spec(y).is_neg_spec() == (x.is_neg_spec() != y.is_neg_spec()),
{
    reveal(F32::mul_spec);
    reveal(F32::div_spec);
}

} // verus!
