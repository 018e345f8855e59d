//! Binary16 patterns: narrowing from binary32 and widening to it.

use crate::float::{round32, round_pack, round_place, F32};
use crate::rounding::{
    bit_len, last_place, lemma_bit_len_bounds, lemma_pow2_monotonic, lemma_round_to_exact,
    lemma_round_to_scaled, pattern_exp, pattern_sig, round_to,
};
use crate::values::{lemma_power_adds, lemma_power_step, lemma_round_to_value, lemma_scaled, power};
use vstd::arithmetic::mul::*;
use vstd::arithmetic::power2::*;
use vstd::prelude::*;

verus! {

pub open spec fn half_neg(h: u16) -> bool {
    h >= 0x8000
}

/// The pattern without its sign bit.
pub open spec fn half_mag(h: u16) -> nat {
    (h % 0x8000) as nat
}

pub open spec fn half_is_nan(h: u16) -> bool {
    half_mag(h) > 0x7c00
}

pub open spec fn half_is_finite(h: u16) -> bool {
    half_mag(h) < 0x7c00
}

/// The significand of a finite binary16 number, as an integer.
pub open spec fn half_sig(h: u16) -> nat {
    if half_mag(h) < 0x400 {
        half_mag(h)
    } else {
        half_mag(h) % 0x400 + 0x400
    }
}

/// The exponent of a finite binary16 number: its value is plus or minus `half_sig * 2^half_exp`.
pub open spec fn half_exp(h: u16) -> int {
    if half_mag(h) < 0x400 {
        -24
    } else {
        half_mag(h) / 0x400 - 25
    }
}

/// The binary16 pattern with this sign and magnitude pattern.
pub open spec fn half_pack(neg: bool, mag: nat) -> u16 {
    if neg {
        (mag + 0x8000) as u16
    } else {
        mag as u16
    }
}

/// The binary16 magnitude pattern nearest to `m * 2^e`.
pub open spec fn round16(m: nat, e: int) -> nat {
    round_to(11, -24, 0x7c00, m, e)
}

/// `x` narrowed to binary16: the nearest value, a tie to even, past the largest one infinity.
/// What is not a number keeps its sign and becomes the quiet pattern.
pub open spec fn narrow(x: F32) -> u16 {
    if x.is_nan_spec() {
        half_pack(x.is_neg_spec(), 0x7e00)
    } else if x.is_inf_spec() {
        half_pack(x.is_neg_spec(), 0x7c00)
    } else {
        half_pack(x.is_neg_spec(), round16(x.sig(), x.exp()))
    }
}

/// `h` widened to binary32: the same value. An infinity, and what is not a number, keep their
/// fraction bits at the top of the wider fraction.
pub open spec fn widen(h: u16) -> F32 {
    if half_is_finite(h) {
        F32::pack(half_neg(h), round32(half_sig(h), half_exp(h)))
    } else {
        F32::pack(
            half_neg(h),
            (0x7f80_0000 + (half_mag(h) - 0x7c00) * 0x2000) as nat,
        )
    }
}

/// Binary32 to binary16, round to nearest even.
pub fn f32_to_f16(x: F32) -> (r: u16)
    ensures
        r == narrow(x),
{
    let sign: u16 = if x.is_neg() {
        0x8000
    } else {
        0
    };
    if x.is_nan() {
        return sign + 0x7e00;
    }
    if x.is_inf() {
        return sign + 0x7c00;
    }
    let m = x.significand();
    if m == 0 {
        return sign;
    }
    proof {
        lemma2_to64();
    }
    let (u, q) = round_place(11, -24, m as u128, x.exponent());
    let pattern: u32 = (u + 24) as u32 * 0x400 + q;
    if pattern >= 0x7c00 {
        sign + 0x7c00
    } else {
        sign + pattern as u16
    }
}

/// Binary16 to binary32. Exact: every binary16 value is a binary32 value.
pub fn f16_to_f32(h: u16) -> (r: F32)
    ensures
        r == widen(h),
{
    let neg = h >= 0x8000;
    let mag: u16 = h % 0x8000;
    if mag >= 0x7c00 {
        F32::assemble(neg, 0x7f80_0000 + (mag - 0x7c00) as u32 * 0x2000)
    } else if mag < 0x400 {
        F32::assemble(neg, round_pack(mag as u128, -24))
    } else {
        F32::assemble(neg, round_pack((mag % 0x400 + 0x400) as u128, (mag / 0x400) as i32 - 25))
    }
}

/// `dst` with `src`, narrowed, over its beginning, as far as both go.
pub open spec fn narrowed_over(src: Seq<F32>, dst: Seq<u16>) -> Seq<u16> {
    Seq::new(
        dst.len(),
        |i: int|
            if i < src.len() {
                narrow(src[i])
            } else {
                dst[i]
            },
    )
}

/// `dst` with `src`, widened, over its beginning, as far as both go.
pub open spec fn widened_over(src: Seq<u16>, dst: Seq<F32>) -> Seq<F32> {
    Seq::new(
        dst.len(),
        |i: int|
            if i < src.len() {
                widen(src[i])
            } else {
                dst[i]
            },
    )
}

/// Narrows as many elements as both slices have.
pub fn to_f16(src: &[F32], dst: &mut [u16])
    ensures
        final(dst)@.len() == old(dst)@.len(),
        forall|i: int|
            0 <= i < old(dst)@.len() ==> #[trigger] final(dst)@[i] == if i < src@.len() {
                narrow(src@[i])
            } else {
                old(dst)@[i]
            },
        final(dst)@ == narrowed_over(src@, old(dst)@),
{
    let n = if src.len() < dst.len() {
        src.len()
    } else {
        dst.len()
    };
    for i in 0..n
        invariant
            n <= src@.len(),
            n <= dst@.len(),
            dst@.len() == old(dst)@.len(),
            n == src@.len() || n == dst@.len(),
            forall|j: int|
                0 <= j < dst@.len() ==> #[trigger] dst@[j] == if j < i {
                    narrow(src@[j])
                } else {
                    old(dst)@[j]
                },
    {
        dst[i] = f32_to_f16(src[i]);
    }
    assert(dst@ =~= narrowed_over(src@, old(dst)@));
}

/// Widens as many elements as both slices have.
pub fn from_f16(src: &[u16], dst: &mut [F32])
    ensures
        final(dst)@.len() == old(dst)@.len(),
        forall|i: int|
            0 <= i < old(dst)@.len() ==> #[trigger] final(dst)@[i] == if i < src@.len() {
                widen(src@[i])
            } else {
                old(dst)@[i]
            },
        final(dst)@ == widened_over(src@, old(dst)@),
{
    let n = if src.len() < dst.len() {
        src.len()
    } else {
        dst.len()
    };
    for i in 0..n
        invariant
            n <= src@.len(),
            n <= dst@.len(),
            dst@.len() == old(dst)@.len(),
            n == src@.len() || n == dst@.len(),
            forall|j: int|
                0 <= j < dst@.len() ==> #[trigger] dst@[j] == if j < i {
                    widen(src@[j])
                } else {
                    old(dst)@[j]
                },
    {
        dst[i] = f16_to_f32(src[i]);
    }
    assert(dst@ =~= widened_over(src@, old(dst)@));
}

// ------------------------------------------------------------------ laws

/// Widening keeps the value and the sign of every finite binary16 number.
pub proof fn law_widening_is_exact(h: u16)
    requires
        half_is_finite(h),
    ensures
        widen(h).is_finite_spec(),
        widen(h).is_neg_spec() == half_neg(h),
        widen(h).is_zero_spec() == (half_mag(h) == 0),
        half_mag(h) != 0 ==> widen(h).exp() <= half_exp(h) && widen(h).sig() == half_sig(h) * pow2(
            (half_exp(h) - widen(h).exp()) as nat,
        ),
{
    let m = half_sig(h);
    let e = half_exp(h);
    lemma2_to64();
    if m > 0 {
        lemma_bit_len_bounds(m);
        let bl = bit_len(m);
        if bl > 11 {
            lemma_pow2_monotonic(11, (bl - 1) as nat);
        }
        let u = bl + e - 24;
        let k = (24 - bl) as nat;
        let q = m * pow2(k);
        lemma_pow2_adds(bl, k);
        lemma_pow2_adds((bl - 1) as nat, k);
        lemma_pow2_pos(k);
        assert(pow2((bl - 1) as nat) * pow2(k) <= q < pow2(bl) * pow2(k)) by (nonlinear_arith)
            requires
                pow2((bl - 1) as nat) <= m < pow2(bl),
                q == m * pow2(k),
                pow2(k) > 0,
        ;
        assert(0x80_0000 <= q < 0x100_0000);
        assert(last_place(24, -149, m, e) == u);
        let mag = ((u + 149) * 0x80_0000 + q) as nat;
        assert(mag == round32(m, e));
        assert(mag / 0x80_0000 == u + 150);
        assert(mag % 0x80_0000 == q - 0x80_0000);
    }
}

/// Narrowing gives back what was widened. What is not a number comes back as the quiet pattern
/// of its sign.
pub proof fn law_narrowing_undoes_widening(h: u16)
    ensures
        !half_is_nan(h) ==> narrow(widen(h)) == h,
        half_is_nan(h) ==> narrow(widen(h)) == half_pack(half_neg(h), 0x7e00),
{
    if half_is_finite(h) {
        law_widening_is_exact(h);
        lemma2_to64();
        if half_mag(h) != 0 {
            let w = widen(h);
            let j = (half_exp(h) - w.exp()) as nat;
            lemma_round_to_scaled(11, -24, 0x7c00, half_sig(h), half_exp(h), j);
            lemma_round_to_exact(11, -24, 0x7c00, half_mag(h));
        }
    }
}

/// Narrowing a number that was narrowed before changes nothing.
pub proof fn law_narrowing_is_idempotent(x: F32)
    ensures
        narrow(widen(narrow(x))) == narrow(x),
{
    law_narrowing_undoes_widening(narrow(x));
    assert(round16(x.sig(), x.exp()) <= 0x7c00);
}

/// Narrowing a number and widening it again changes it by at most 2^-11 of its size; below the
/// least normal binary16 number, by at most 2^-25.
pub proof fn law_narrowing_is_accurate(x: F32)
    requires
        x.is_finite_spec(),
        half_is_finite(narrow(x)),
    ensures
        ({
            let r = widen(narrow(x));
            let size = x.abs_spec().value();
            let bound = if size >= power(-14) {
                size * power(-11)
            } else {
                power(-25)
            };
            r.is_finite_spec() && -bound <= r.value() - x.value() <= bound
        }),
{
    let h = narrow(x);
    let r = widen(h);
    let size = x.abs_spec().value();
    let p = round16(x.sig(), x.exp());
    lemma2_to64();
    assert(p <= 0x7c00);
    assert(half_mag(h) == p);
    law_widening_is_exact(h);
    lemma_round_to_value(11, -24, 0x7c00, x.sig(), x.exp());
    assert(x.abs_spec().mag() == x.mag());
    assert(size == x.sig() as real * power(x.exp()));
    // what is widened stands for the same
    let v = half_sig(h) as real * power(half_exp(h));
    assert(pattern_sig(11, p) == half_sig(h) && pattern_exp(11, -24, p) == half_exp(h));
    if p != 0 {
        lemma_scaled(half_sig(h) as int, (half_exp(h) - r.exp()) as nat, half_exp(h));
    } else {
        assert(r.sig() == 0 && half_sig(h) == 0);
        let (a, b) = (power(r.exp()), power(half_exp(h)));
        assert(0real * a == 0real && 0real * b == 0real) by (nonlinear_arith);
    }
    assert(r.sig() as real * power(r.exp()) == v);
    // the bounds
    lemma_power_adds(-14, -11);
    lemma_power_step(-11);
    lemma_power_step(-25);
    let (a, n, m) = (size, power(-11), power(-14));
    if size >= m {
        assert(a * n >= m * n) by (nonlinear_arith)
            requires
                a >= m,
                n > 0real,
        ;
    } else {
        assert(a * n <= m * n) by (nonlinear_arith)
            requires
                a <= m,
                n > 0real,
        ;
    }
}

} // verus!
