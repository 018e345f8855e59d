//! What the processor can do, and the activation functions.
//!
//! The exponential is the Cephes polynomial; sigmoid and tanh are built on it, tanh with an odd
//! polynomial of its own below 0.625. They are accurate to a few 1e-7 relative.

use crate::float::F32;
pub use crate::half::{f16_to_f32, f32_to_f16, from_f16, to_f16};
use vstd::prelude::*;

verus! {

/// The instruction sets that the processor was found to have. All are false off x86-64.
#[derive(Clone, Copy, PartialEq, Eq, Structural, Debug)]
pub struct CpuFeatures {
    pub avx2: bool,
    pub fma: bool,
    pub f16c: bool,
}

/// True if AVX2 and FMA are available.
pub fn has_avx2(cpu: CpuFeatures) -> (r: bool)
    ensures
        r == (cpu.avx2 && cpu.fma),
{
    cpu.avx2 && cpu.fma
}

/// True if AVX2, FMA and F16C are available.
pub fn has_f16c(cpu: CpuFeatures) -> (r: bool)
    ensures
        r == (cpu.avx2 && cpu.fma && cpu.f16c),
{
    has_avx2(cpu) && cpu.f16c
}

// ------------------------------------------------------------------ constants, as bit patterns

/// 88.37626: above this the exponential is cut off.
pub const EXP_HI: u32 = 0x42b0_c0a5;

/// -88.37626: below this the exponential is cut off.
pub const EXP_LO: u32 = 0xc2b0_c0a5;

/// 1.442695, the binary logarithm of e.
pub const LOG2EF: u32 = 0x3fb8_aa3b;

/// 0.6933594, the leading digits of the natural logarithm of 2.
pub const C1: u32 = 0x3f31_8000;

/// -2.1219444e-4, the rest of the natural logarithm of 2.
pub const C2: u32 = 0xb95e_8083;

/// 1.9875691e-4.
pub const P0: u32 = 0x3950_6967;

/// 1.3981999e-3.
pub const P1: u32 = 0x3ab7_43ce;

/// 8.333452e-3.
pub const P2: u32 = 0x3c08_8908;

/// 4.1665796e-2.
pub const P3: u32 = 0x3d2a_a9c1;

/// 1.6666665e-1.
pub const P4: u32 = 0x3e2a_aaaa;

/// 5.0000006e-1.
pub const P5: u32 = 0x3f00_0001;

/// 0.5.
pub const HALF: u32 = 0x3f00_0000;

/// 1.0.
pub const ONE: u32 = 0x3f80_0000;

/// 2.0.
pub const TWO: u32 = 0x4000_0000;

/// -88.72284: below this the exponential of the negated number is past the largest number.
pub const SIGMOID_LO: u32 = 0xc2b1_7218;

/// 2.44e-4: below this tanh is the identity.
pub const TANH_SMALL: u32 = 0x397f_da40;

/// 0.625: below this tanh is an odd polynomial.
pub const TANH_MEDIUM: u32 = 0x3f20_0000;

/// -3.3333334e-1, the coefficient of `x^3` in the series of the hyperbolic tangent.
pub const T1: u32 = 0xbeaa_aaab;

/// 1.3333334e-1, the coefficient of `x^5` in the series of the hyperbolic tangent.
pub const T2: u32 = 0x3e08_8889;

/// -5.3968254e-2, the coefficient of `x^7` in the series of the hyperbolic tangent.
pub const T3: u32 = 0xbd5d_0dd1;

/// 2.1869488e-2, the coefficient of `x^9` in the series of the hyperbolic tangent.
pub const T4: u32 = 0x3cb3_27a4;

/// -8.863236e-3, the coefficient of `x^11` in the series of the hyperbolic tangent.
pub const T5: u32 = 0xbc11_371b;

/// 3.592128e-3, the coefficient of `x^13` in the series of the hyperbolic tangent.
pub const T6: u32 = 0x3b6b_69e8;

/// -1.4558344e-3, the coefficient of `x^15` in the series of the hyperbolic tangent.
pub const T7: u32 = 0xbabe_d1b2;

/// 5.9002743e-4, the coefficient of `x^17` in the series of the hyperbolic tangent.
pub const T8: u32 = 0x3a1a_ac12;

/// -2.3912912e-4, the coefficient of `x^19` in the series of the hyperbolic tangent.
pub const T9: u32 = 0xb97a_bebc;

/// The number with this pattern.
pub open spec fn bits(b: u32) -> F32 {
    F32 { bits: b }
}

// ------------------------------------------------------------------ exponential

/// `x` cut off to `[EXP_LO, EXP_HI]`.
pub open spec fn exp_clamped(x: F32) -> F32 {
    let y = if x.lt_spec(bits(EXP_LO)) {
        bits(EXP_LO)
    } else {
        x
    };
    if bits(EXP_HI).lt_spec(y) {
        bits(EXP_HI)
    } else {
        y
    }
}

/// How many times `ln 2` goes into `x`, rounded.
pub open spec fn exp_octaves(x: F32) -> F32 {
    x.mul_add_spec(bits(LOG2EF), bits(HALF)).floor_spec()
}

/// What is left of `x` after `n` times `ln 2`.
pub open spec fn exp_reduced(x: F32, n: F32) -> F32 {
    n.neg_spec().mul_add_spec(bits(C2), n.neg_spec().mul_add_spec(bits(C1), x))
}

/// The polynomial: `1 + x + x^2 * p(x)` in Horner form.
pub open spec fn exp_poly(x: F32) -> F32 {
    let z = x.mul_spec(x);
    let y = bits(P0).mul_add_spec(x, bits(P1));
    let y = y.mul_add_spec(x, bits(P2));
    let y = y.mul_add_spec(x, bits(P3));
    let y = y.mul_add_spec(x, bits(P4));
    let y = y.mul_add_spec(x, bits(P5));
    y.mul_add_spec(z, x).add_spec(bits(ONE))
}

/// `2^n`, with `n` cut off to the exponents `[-126, 127]` of normal numbers.
pub open spec fn exp_scale(n: int) -> F32 {
    let field = if n < -126 {
        1
    } else if n > 127 {
        254
    } else {
        n + 127
    };
    F32::pack(false, (field * 0x80_0000) as nat)
}

/// `y * 2^n` in two steps, so that neither factor leaves the normal numbers.
pub open spec fn scaled_by_octaves(y: F32, n: int) -> F32 {
    y.mul_spec(exp_scale(n / 2)).mul_spec(exp_scale(n - n / 2))
}

/// The exponential of `x`.
#[verifier::opaque]
pub open spec fn exp_of(x: F32) -> F32 {
    let c = exp_clamped(x);
    let n = exp_octaves(c);
    scaled_by_octaves(exp_poly(exp_reduced(c, n)), n.to_i32_spec() as int)
}

/// `2^n`, with `n` cut off to the exponents `[-126, 127]` of normal numbers.
fn octaves(n: i64) -> (r: F32)
    requires
        -0x1_0000_0000 <= n <= 0x1_0000_0000,
    ensures
        r == exp_scale(n as int),
{
    let field: u32 = if n < -126 {
        1
    } else if n > 127 {
        254
    } else {
        (n + 127) as u32
    };
    F32::from_bits(field * 0x80_0000)
}

/// The exponential of `x`.
pub fn exp(x: F32) -> (r: F32)
    ensures
        r == exp_of(x),
{
    proof {
        reveal(exp_of);
    }
    let lo = F32::from_bits(EXP_LO);
    let hi = F32::from_bits(EXP_HI);
    let c = if x.lt(lo) {
        lo
    } else {
        x
    };
    let c = if hi.lt(c) {
        hi
    } else {
        c
    };
    let n = c.mul_add(F32::from_bits(LOG2EF), F32::from_bits(HALF)).floor();
    let neg = n.neg();
    let x = neg.mul_add(F32::from_bits(C1), c);
    let x = neg.mul_add(F32::from_bits(C2), x);
    let z = x.mul(x);
    let y = F32::from_bits(P0).mul_add(x, F32::from_bits(P1));
    let y = y.mul_add(x, F32::from_bits(P2));
    let y = y.mul_add(x, F32::from_bits(P3));
    let y = y.mul_add(x, F32::from_bits(P4));
    let y = y.mul_add(x, F32::from_bits(P5));
    let y = y.mul_add(z, x).add(F32::from_bits(ONE));
    let k: i64 = n.to_i32() as i64;
    let half: i64 = (k + 0x1_0000_0000) / 2 - 0x8000_0000;
    assert(half == k as int / 2);
    y.mul(octaves(half)).mul(octaves(k - half))
}

// ------------------------------------------------------------------ sigmoid and tanh

/// `1 / (1 + e^-x)`; zero where `e^-x` is past the largest number.
#[verifier::opaque]
pub open spec fn sigmoid_of(x: F32) -> F32 {
    if x.lt_spec(bits(SIGMOID_LO)) {
        F32::zero_spec()
    } else {
        bits(ONE).div_spec(bits(ONE).add_spec(exp_of(F32::zero_spec().sub_spec(x))))
    }
}

/// The odd polynomial: `x + x * z * p(z)` for `z = x^2`, in Horner form.
pub open spec fn tanh_poly(x: F32) -> F32 {
    let z = x.mul_spec(x);
    let y = bits(T9).mul_add_spec(z, bits(T8));
    let y = y.mul_add_spec(z, bits(T7));
    let y = y.mul_add_spec(z, bits(T6));
    let y = y.mul_add_spec(z, bits(T5));
    let y = y.mul_add_spec(z, bits(T4));
    let y = y.mul_add_spec(z, bits(T3));
    let y = y.mul_add_spec(z, bits(T2));
    let y = y.mul_add_spec(z, bits(T1));
    y.mul_spec(z).mul_add_spec(x, x)
}

/// `1 - 2 / (e^2x + 1)` for positive `x`, and the other sign for negative ones. That form cancels
/// near zero: there it is an odd polynomial, and nearest to zero `x` itself.
#[verifier::opaque]
pub open spec fn tanh_of(x: F32) -> F32 {
    let size = x.abs_spec();
    if size.lt_spec(bits(TANH_SMALL)) {
        x
    } else if size.lt_spec(bits(TANH_MEDIUM)) {
        tanh_poly(x)
    } else {
        let t = bits(ONE).sub_spec(
            bits(TWO).div_spec(exp_of(size.add_spec(size)).add_spec(bits(ONE))),
        );
        if x.is_neg_spec() && !x.is_nan_spec() {
            t.neg_spec()
        } else {
            t
        }
    }
}

/// `0` for a negative number, else the number.
pub open spec fn relu_of(x: F32) -> F32 {
    if x.lt_spec(F32::zero_spec()) {
        F32::zero_spec()
    } else {
        x
    }
}

/// The logistic function `1 / (1 + e^-x)`.
pub fn sigmoid(x: F32) -> (r: F32)
    ensures
        r == sigmoid_of(x),
{
    proof {
        reveal(sigmoid_of);
    }
    if x.lt(F32::from_bits(SIGMOID_LO)) {
        return F32::zero();
    }
    let one = F32::from_bits(ONE);
    let e = exp(F32::zero().sub(x));
    one.div(one.add(e))
}

/// The hyperbolic tangent.
pub fn tanh(x: F32) -> (r: F32)
    ensures
        r == tanh_of(x),
{
    proof {
        reveal(tanh_of);
    }
    let size = x.abs();
    if size.lt(F32::from_bits(TANH_SMALL)) {
        x
    } else if size.lt(F32::from_bits(TANH_MEDIUM)) {
        let z = x.mul(x);
        let y = F32::from_bits(T9).mul_add(z, F32::from_bits(T8));
        let y = y.mul_add(z, F32::from_bits(T7));
        let y = y.mul_add(z, F32::from_bits(T6));
        let y = y.mul_add(z, F32::from_bits(T5));
        let y = y.mul_add(z, F32::from_bits(T4));
        let y = y.mul_add(z, F32::from_bits(T3));
        let y = y.mul_add(z, F32::from_bits(T2));
        let y = y.mul_add(z, F32::from_bits(T1));
        y.mul(z).mul_add(x, x)
    } else {
        let one = F32::from_bits(ONE);
        let e = exp(size.add(size));
        let t = one.sub(F32::from_bits(TWO).div(e.add(one)));
        if x.is_neg() && !x.is_nan() {
            t.neg()
        } else {
            t
        }
    }
}

/// The logistic function of each number.
pub open spec fn sigmoid_seq(s: Seq<F32>) -> Seq<F32> {
    Seq::new(s.len(), |i: int| sigmoid_of(s[i]))
}

/// The hyperbolic tangent of each number.
pub open spec fn tanh_seq(s: Seq<F32>) -> Seq<F32> {
    Seq::new(s.len(), |i: int| tanh_of(s[i]))
}

/// Replaces each number by its logistic function.
pub fn sigmoid_slice(v: &mut [F32])
    ensures
        final(v)@ == sigmoid_seq(old(v)@),
{
    let n = v.len();
    for i in 0..n
        invariant
            n == v@.len(),
            n == old(v)@.len(),
            forall|j: int| 0 <= j < i ==> #[trigger] v@[j] == sigmoid_of(old(v)@[j]),
            forall|j: int| i <= j < n ==> #[trigger] v@[j] == old(v)@[j],
    {
        v[i] = sigmoid(v[i]);
    }
}

/// Replaces each number by its hyperbolic tangent.
pub fn tanh_slice(v: &mut [F32])
    ensures
        final(v)@ == tanh_seq(old(v)@),
{
    let n = v.len();
    for i in 0..n
        invariant
            n == v@.len(),
            n == old(v)@.len(),
            forall|j: int| 0 <= j < i ==> #[trigger] v@[j] == tanh_of(old(v)@[j]),
            forall|j: int| i <= j < n ==> #[trigger] v@[j] == old(v)@[j],
    {
        v[i] = tanh(v[i]);
    }
}

} // verus!
