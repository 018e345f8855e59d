//! Binary32 arithmetic on bit patterns.
//!
//! Every operation is correctly rounded: its result is the exact result of the operation on
//! the operands' values, rounded to the nearest binary32 value with ties to even. The result
//! is the same on every machine. A result that is not a number has the pattern
//! [`F32::nan`], whatever the patterns of the operands were.

use crate::rounding::{
    bit_len, last_place, lemma_bit_len_bounds, lemma_bit_len_shifted, lemma_pow2_monotonic,
    lemma_round_to_exact, lemma_round_to_scaled, lemma_sticky, round_half_even, round_to,
};
use vstd::arithmetic::div_mod::*;
use vstd::arithmetic::mul::*;
use vstd::arithmetic::power2::*;
use vstd::bits::*;
use vstd::prelude::*;

verus! {

/// A binary32 number, as its bit pattern: sign, 8 exponent bits, 23 fraction bits.
///
/// `==` compares patterns. It tells the two zeros apart, and a pattern that is not a number
/// equals itself.
#[derive(Clone, Copy, PartialEq, Eq, Structural, Debug)]
pub struct F32 {
    pub bits: u32,
}

/// The magnitude pattern of infinity.
pub const INF_MAG: u32 = 0x7f80_0000;

/// The magnitude pattern nearest to `m * 2^e`.
pub open spec fn round32(m: nat, e: int) -> nat {
    round_to(24, -149, 0x7f80_0000, m, e)
}

impl F32 {
    /// Whether the sign bit is set.
    pub open spec fn is_neg_spec(self) -> bool {
        self.bits >= 0x8000_0000
    }

    /// The pattern without its sign bit.
    pub open spec fn mag(self) -> nat {
        (self.bits % 0x8000_0000) as nat
    }

    /// Whether the pattern stands for no number.
    pub open spec fn is_nan_spec(self) -> bool {
        self.mag() > 0x7f80_0000
    }

    /// Whether this is an infinity.
    pub open spec fn is_inf_spec(self) -> bool {
        self.mag() == 0x7f80_0000
    }

    /// Whether this is a number.
    pub open spec fn is_finite_spec(self) -> bool {
        self.mag() < 0x7f80_0000
    }

    /// Whether this is a zero of either sign.
    pub open spec fn is_zero_spec(self) -> bool {
        self.mag() == 0
    }

    /// The significand of a finite number, as an integer.
    pub open spec fn sig(self) -> nat {
        if self.mag() < 0x80_0000 {
            self.mag()
        } else {
            self.mag() % 0x80_0000 + 0x80_0000
        }
    }

    /// The exponent of a finite number: its value is plus or minus `sig * 2^exp`.
    pub open spec fn exp(self) -> int {
        if self.mag() < 0x80_0000 {
            -149
        } else {
            self.mag() / 0x80_0000 - 150
        }
    }

    /// The number with this sign and magnitude pattern.
    pub open spec fn pack(neg: bool, mag: nat) -> F32 {
        if neg {
            F32 { bits: (mag + 0x8000_0000) as u32 }
        } else {
            F32 { bits: mag as u32 }
        }
    }

    /// The number with this sign and magnitude pattern.
    pub(crate) fn assemble(neg: bool, mag: u32) -> (r: F32)
        requires
            mag < 0x8000_0000,
        ensures
            r == F32::pack(neg, mag as nat),
    {
        if neg {
            F32 { bits: mag + 0x8000_0000 }
        } else {
            F32 { bits: mag }
        }
    }

    /// The pattern of a result that is not a number.
    pub open spec fn nan_spec() -> F32 {
        F32 { bits: 0x7fc0_0000 }
    }

    /// Positive zero.
    pub open spec fn zero_spec() -> F32 {
        F32 { bits: 0 }
    }
}

/// Plus or minus `m`.
pub open spec fn with_sign(neg: bool, m: nat) -> int {
    if neg {
        -(m as int)
    } else {
        m as int
    }
}

/// The exact value `s * 2^e`, rounded; a zero gets the sign asked for.
pub open spec fn round_signed(s: int, e: int, zero_neg: bool) -> F32 {
    if s == 0 {
        F32::pack(zero_neg, 0)
    } else if s > 0 {
        F32::pack(false, round32(s as nat, e))
    } else {
        F32::pack(true, round32((-s) as nat, e))
    }
}

/// The sum of two exact values `+-am * 2^ae` and `+-bm * 2^be`, rounded. An exact sum of zero
/// is negative only if both values are.
pub open spec fn round_sum(an: bool, am: nat, ae: int, bn: bool, bm: nat, be: int) -> F32 {
    let e = if ae < be {
        ae
    } else {
        be
    };
    let s = with_sign(an, am * pow2((ae - e) as nat)) + with_sign(bn, bm * pow2((be - e) as nat));
    round_signed(s, e, an && bn)
}

impl F32 {
    /// `self + o`.
    #[verifier::opaque]
    pub open spec fn add_spec(self, o: F32) -> F32 {
        if self.is_nan_spec() || o.is_nan_spec() {
            F32::nan_spec()
        } else if self.is_inf_spec() {
            if o.is_inf_spec() && o.is_neg_spec() != self.is_neg_spec() {
                F32::nan_spec()
            } else {
                self
            }
        } else if o.is_inf_spec() {
            o
        } else {
            round_sum(self.is_neg_spec(), self.sig(), self.exp(), o.is_neg_spec(), o.sig(), o.exp())
        }
    }

    /// `-self`: the other sign.
    pub open spec fn neg_spec(self) -> F32 {
        if self.bits >= 0x8000_0000 {
            F32 { bits: (self.bits - 0x8000_0000) as u32 }
        } else {
            F32 { bits: (self.bits + 0x8000_0000) as u32 }
        }
    }

    /// `self - o`.
    pub open spec fn sub_spec(self, o: F32) -> F32 {
        self.add_spec(o.neg_spec())
    }

    /// `self * o`.
    #[verifier::opaque]
    pub open spec fn mul_spec(self, o: F32) -> F32 {
        let neg = self.is_neg_spec() != o.is_neg_spec();
        if self.is_nan_spec() || o.is_nan_spec() {
            F32::nan_spec()
        } else if self.is_inf_spec() || o.is_inf_spec() {
            if self.is_zero_spec() || o.is_zero_spec() {
                F32::nan_spec()
            } else {
                F32::pack(neg, 0x7f80_0000)
            }
        } else {
            F32::pack(neg, round32(self.sig() * o.sig(), self.exp() + o.exp()))
        }
    }

    /// `self * b + c`, rounded once.
    #[verifier::opaque]
    pub open spec fn mul_add_spec(self, b: F32, c: F32) -> F32 {
        let neg = self.is_neg_spec() != b.is_neg_spec();
        if self.is_nan_spec() || b.is_nan_spec() || c.is_nan_spec() {
            F32::nan_spec()
        } else if self.is_inf_spec() || b.is_inf_spec() {
            if self.is_zero_spec() || b.is_zero_spec() {
                F32::nan_spec()
            } else if c.is_inf_spec() && c.is_neg_spec() != neg {
                F32::nan_spec()
            } else {
                F32::pack(neg, 0x7f80_0000)
            }
        } else if c.is_inf_spec() {
            c
        } else {
            round_sum(
                neg,
                self.sig() * b.sig(),
                self.exp() + b.exp(),
                c.is_neg_spec(),
                c.sig(),
                c.exp(),
            )
        }
    }
}

/// Twice the quotient of `n` by `d`, plus one if the division leaves a remainder.
pub open spec fn sticky_quotient(n: nat, d: nat) -> nat {
    2 * (n / d) + if n % d == 0 {
        0nat
    } else {
        1nat
    }
}

pub open spec fn is_root(n: nat, r: nat) -> bool {
    r * r <= n < (r + 1) * (r + 1)
}

/// The largest integer whose square is at most `n`.
pub open spec fn int_root(n: nat) -> nat {
    choose|r: nat| is_root(n, r)
}

/// Twice the integer root of `n`, plus one if `n` is not its square.
pub open spec fn sticky_root(n: nat) -> nat {
    2 * int_root(n) + if int_root(n) * int_root(n) == n {
        0nat
    } else {
        1nat
    }
}

impl F32 {
    /// `self / o`. The quotient of the significands is taken 64 places past the point, and what
    /// is left below that only through whether it is zero, which is all that rounding asks of it.
    #[verifier::opaque]
    pub open spec fn div_spec(self, o: F32) -> F32 {
        let neg = self.is_neg_spec() != o.is_neg_spec();
        if self.is_nan_spec() || o.is_nan_spec() {
            F32::nan_spec()
        } else if self.is_inf_spec() {
            if o.is_inf_spec() {
                F32::nan_spec()
            } else {
                F32::pack(neg, 0x7f80_0000)
            }
        } else if o.is_inf_spec() {
            F32::pack(neg, 0)
        } else if o.is_zero_spec() {
            if self.is_zero_spec() {
                F32::nan_spec()
            } else {
                F32::pack(neg, 0x7f80_0000)
            }
        } else {
            F32::pack(
                neg,
                round32(
                    sticky_quotient(self.sig() * 0x1_0000_0000_0000_0000, o.sig()),
                    self.exp() - o.exp() - 65,
                ),
            )
        }
    }

    /// The square root of `self`. An exponent is made even by doubling the significand; the root
    /// is taken 30 places past the point, and what is left only through whether it is zero.
    #[verifier::opaque]
    pub open spec fn sqrt_spec(self) -> F32 {
        if self.is_nan_spec() {
            F32::nan_spec()
        } else if self.is_zero_spec() {
            self
        } else if self.is_neg_spec() {
            F32::nan_spec()
        } else if self.is_inf_spec() {
            self
        } else if self.exp() % 2 == 0 {
            F32::pack(
                false,
                round32(sticky_root(self.sig() * 0x1000_0000_0000_0000), self.exp() / 2 - 31),
            )
        } else {
            F32::pack(
                false,
                round32(
                    sticky_root(2 * self.sig() * 0x1000_0000_0000_0000),
                    (self.exp() - 1) / 2 - 31,
                ),
            )
        }
    }

    /// Where the number stands in the order of numbers; the two zeros share a place.
    pub open spec fn order(self) -> int {
        with_sign(self.is_neg_spec(), self.mag())
    }

    /// `self < o`; false if either is not a number.
    pub open spec fn lt_spec(self, o: F32) -> bool {
        !self.is_nan_spec() && !o.is_nan_spec() && self.order() < o.order()
    }

    /// The number nearest to the integer `n`.
    #[verifier::opaque]
    pub open spec fn of_int(n: int) -> F32 {
        round_signed(n, 0, false)
    }

    /// The integer part of a finite number, toward zero.
    #[verifier::opaque]
    pub open spec fn int_part(self) -> int {
        with_sign(
            self.is_neg_spec(),
            if self.exp() >= 0 {
                self.sig() * pow2(self.exp() as nat)
            } else {
                self.sig() / pow2((-self.exp()) as nat)
            },
        )
    }

    /// Whether a finite number has digits past the point.
    #[verifier::opaque]
    pub open spec fn has_fraction(self) -> bool {
        self.exp() < 0 && self.sig() % pow2((-self.exp()) as nat) != 0
    }

    /// The greatest integer not above the number. What is not a number, an infinity, and a
    /// number without digits past the point are kept as they are.
    pub open spec fn floor_spec(self) -> F32 {
        if self.is_nan_spec() {
            F32::nan_spec()
        } else if self.is_inf_spec() || !self.has_fraction() {
            self
        } else if self.is_neg_spec() {
            F32::of_int(self.int_part() - 1)
        } else {
            F32::of_int(self.int_part())
        }
    }

    /// The magnitude as a number.
    pub open spec fn abs_spec(self) -> F32 {
        F32::pack(false, self.mag())
    }

    /// The number cut off to `[lo, hi]`; what is not a number is kept.
    pub open spec fn clamp_spec(self, lo: F32, hi: F32) -> F32 {
        if self.lt_spec(lo) {
            lo
        } else if hi.lt_spec(self) {
            hi
        } else {
            self
        }
    }

    /// The integer nearest to a finite number, halves away from zero.
    #[verifier::opaque]
    pub open spec fn nearest_int(self) -> int {
        with_sign(
            self.is_neg_spec(),
            if self.exp() >= 0 {
                self.sig() * pow2(self.exp() as nat)
            } else {
                (self.sig() + pow2((-self.exp() - 1) as nat)) / pow2((-self.exp()) as nat)
            },
        )
    }

    /// The nearest integer cut off to `[lo, hi]`; zero if there is no number.
    pub open spec fn rounded_into(self, lo: int, hi: int) -> int {
        if self.is_nan_spec() {
            0
        } else if self.is_inf_spec() {
            if self.is_neg_spec() {
                lo
            } else {
                hi
            }
        } else if self.nearest_int() < lo {
            lo
        } else if self.nearest_int() > hi {
            hi
        } else {
            self.nearest_int()
        }
    }

    /// The integer part as a 32-bit integer; the least one if it does not fit, or if there is no
    /// number.
    pub open spec fn to_i32_spec(self) -> i32 {
        if self.is_finite_spec() && i32::MIN <= self.int_part() <= i32::MAX {
            self.int_part() as i32
        } else {
            i32::MIN
        }
    }
}

// ------------------------------------------------------------------ rounding, executable

proof fn lemma_bit_len_u64(i: u64)
    ensures
        bit_len(i as nat) == 64 - vstd::std_specs::bits::u64_leading_zeros(i),
    decreases i,
{
    reveal(vstd::std_specs::bits::u64_leading_zeros);
    if i > 0 {
        lemma_bit_len_u64(i / 2);
    }
}

/// How many binary digits `m` has.
fn bit_len_u128(m: u128) -> (r: u32)
    ensures
        r == bit_len(m as nat),
        r <= 128,
{
    let hi: u64 = (m / 0x1_0000_0000_0000_0000) as u64;
    let lo: u64 = (m % 0x1_0000_0000_0000_0000) as u64;
    proof {
        lemma2_to64();
        lemma_bit_len_u64(hi);
        lemma_bit_len_u64(lo);
        vstd::std_specs::bits::axiom_u64_leading_zeros(hi);
        vstd::std_specs::bits::axiom_u64_leading_zeros(lo);
        if hi > 0 {
            lemma_bit_len_shifted(hi as nat, 64, lo as nat);
        }
    }
    if hi > 0 {
        128 - hi.leading_zeros()
    } else {
        64 - lo.leading_zeros()
    }
}

proof fn lemma_pow2_127()
    ensures
        pow2(127) == 0x8000_0000_0000_0000_0000_0000_0000_0000,
{
    lemma2_to64();
    lemma2_to64_rest();
    lemma_pow2_adds(63, 64);
    assert(0x8000_0000_0000_0000 * 0x1_0000_0000_0000_0000
        == 0x8000_0000_0000_0000_0000_0000_0000_0000) by (nonlinear_arith);
}

proof fn lemma_u128_shl(x: u128, k: u128)
    requires
        k < 128,
        x * pow2(k as nat) <= u128::MAX,
    ensures
        x << k == x * pow2(k as nat),
    decreases k,
{
    lemma2_to64();
    if k == 0 {
        assert(x << k == x) by (bit_vector)
            requires
                k == 0,
        ;
        assert(x * pow2(0) == x) by (nonlinear_arith)
            requires
                pow2(0) == 1,
        ;
    } else {
        let h = (k - 1) as u128;
        lemma_pow2_unfold(k as nat);
        assert(x * pow2(h as nat) * 2 == x * pow2(k as nat)) by (nonlinear_arith)
            requires
                pow2(k as nat) == 2 * pow2(h as nat),
        ;
        assert(x * pow2(h as nat) >= 0) by (nonlinear_arith);
        lemma_u128_shl(x, h);
        let y = x << h;
        assert(y * 2 <= u128::MAX);
        assert(x << k == (x << h) << 1u128) by (bit_vector)
            requires
                0 < k < 128,
                h == k - 1,
        ;
        assert(y << 1u128 == y * 2) by (bit_vector)
            requires
                y <= 0x7fff_ffff_ffff_ffff_ffff_ffff_ffff_ffffu128,
        ;
    }
}

/// `m * 2^k`.
fn shl_u128(m: u128, k: u32) -> (r: u128)
    requires
        k < 128,
        m * pow2(k as nat) <= u128::MAX,
    ensures
        r == m * pow2(k as nat),
{
    proof {
        lemma_u128_shl(m, k as u128);
    }
    m << (k as u128)
}

/// `m / 2^k` to the nearest integer, a tie to the even one.
fn round_shift(m: u128, k: u32) -> (q: u128)
    requires
        1 <= k <= 127,
    ensures
        q == round_half_even(m as nat, k as nat),
{
    proof {
        lemma_u128_shr_is_div(m, k as u128);
        lemma2_to64();
        lemma_pow2_127();
        lemma_pow2_monotonic(k as nat, 127);
        lemma_pow2_pos(k as nat);
        lemma_pow2_unfold(k as nat);
        lemma_fundamental_div_mod(m as int, pow2(k as nat) as int);
        lemma_mul_is_commutative(pow2(k as nat) as int, m as int / pow2(k as nat) as int);
    }
    let q = m >> (k as u128);
    let r = m - shl_u128(q, k);
    let half = shl_u128(1, k - 1);
    assert(r == m as nat % pow2(k as nat));
    assert(half * 2 == pow2(k as nat));
    assert(q < m || m == 0) by (nonlinear_arith)
        requires
            m == pow2(k as nat) * q + r,
            pow2(k as nat) >= 2,
            r >= 0,
    ;
    if r > half || (r == half && q % 2 == 1) {
        q + 1
    } else {
        q
    }
}

/// `m * 2^e` to the last place that the format keeps: the exponent of that place, and how many
/// units of it.
pub(crate) fn round_place(prec: u32, unit: i32, m: u128, e: i32) -> (r: (i32, u32))
    requires
        0 < m < 0x8000_0000_0000_0000_0000_0000_0000_0000,
        -1000 <= e <= 1000,
        1 <= prec <= 24,
        -1000 <= unit <= 0,
    ensures
        r.0 == last_place(prec as nat, unit as int, m as nat, e as int),
        r.1 == if r.0 <= e {
            m as nat * pow2((e - r.0) as nat)
        } else {
            round_half_even(m as nat, (r.0 - e) as nat)
        },
        unit <= r.0 <= 1127,
        r.1 <= pow2(prec as nat) <= 0x100_0000,
{
    let bl = bit_len_u128(m);
    proof {
        lemma2_to64();
        lemma_bit_len_bounds(m as nat);
        lemma_pow2_127();
        lemma_pow2_monotonic(prec as nat, 24);
        if bl > 127 {
            lemma_pow2_monotonic(127, (bl - 1) as nat);
        }
    }
    let top: i32 = bl as i32 + e - prec as i32;
    let u: i32 = if top > unit {
        top
    } else {
        unit
    };
    let q: u128;
    if u <= e {
        let k: u32 = (e - u) as u32;
        proof {
            // bl + k <= prec, so the shifted significand stays below 2^prec
            lemma_pow2_adds(bl as nat, k as nat);
            lemma_pow2_monotonic((bl + k) as nat, prec as nat);
            lemma_pow2_pos(k as nat);
            assert(m * pow2(k as nat) < pow2(bl as nat) * pow2(k as nat)) by (nonlinear_arith)
                requires
                    m < pow2(bl as nat),
                    pow2(k as nat) > 0,
            ;
        }
        q = shl_u128(m, k);
    } else {
        let k: u32 = (u - e) as u32;
        proof {
            lemma_pow2_pos(k as nat);
            lemma_fundamental_div_mod(m as int, pow2(k as nat) as int);
        }
        if k > bl {
            proof {
                lemma_pow2_monotonic(bl as nat, (k - 1) as nat);
                lemma_pow2_unfold(k as nat);
                lemma_small_mod(m as nat, pow2(k as nat));
                lemma_basic_div(m as int, pow2(k as nat) as int);
            }
            q = 0;
        } else {
            proof {
                // bl <= k + prec, so the quotient stays below 2^prec
                lemma_pow2_adds(prec as nat, k as nat);
                lemma_pow2_monotonic(bl as nat, (prec + k) as nat);
                let p = pow2(k as nat) as int;
                let w = pow2(prec as nat) as int;
                assert(m as int / p < w) by (nonlinear_arith)
                    requires
                        m == p * (m as int / p) + m as int % p,
                        m as int % p >= 0,
                        m < w * p,
                        p > 0,
                ;
            }
            q = round_shift(m, k);
        }
    }
    (u, q as u32)
}

/// The magnitude pattern nearest to `m * 2^e`.
pub(crate) fn round_pack(m: u128, e: i32) -> (r: u32)
    requires
        m < 0x8000_0000_0000_0000_0000_0000_0000_0000,
        -1000 <= e <= 1000,
    ensures
        r == round32(m as nat, e as int),
        r <= INF_MAG,
{
    if m == 0 {
        return 0;
    }
    proof {
        lemma2_to64();
    }
    let (u, q) = round_place(24, -149, m, e);
    let pattern: u64 = (u + 149) as u64 * 0x80_0000 + q as u64;
    if pattern >= 0x7f80_0000 {
        INF_MAG
    } else {
        pattern as u32
    }
}

// ------------------------------------------------------------------ sums, executable

/// `+-a * 2^e` plus `+-b * 2^e`, rounded.
fn round_aligned(an: bool, a: u128, bn: bool, b: u128, e: i32) -> (r: F32)
    requires
        a + b < 0x8000_0000_0000_0000_0000_0000_0000_0000,
        -1000 <= e <= 1000,
    ensures
        r == round_signed(with_sign(an, a as nat) + with_sign(bn, b as nat), e as int, an && bn),
{
    if an == bn {
        F32::assemble(an, round_pack(a + b, e))
    } else if a > b {
        F32::assemble(an, round_pack(a - b, e))
    } else if b > a {
        F32::assemble(bn, round_pack(b - a, e))
    } else {
        F32::assemble(false, 0)
    }
}

/// When two exponents are this far apart the smaller value only decides which way the larger
/// one is rounded.
proof fn lemma_far_sum(an: bool, am: nat, ae: int, bn: bool, bm: nat, be: int)
    requires
        0 < am < 0x1_0000_0000_0000,
        0 < bm < 0x1_0000_0000_0000,
        ae - be >= 79,
    ensures
        round_sum(an, am, ae, bn, bm, be) == round_signed(
            with_sign(an, am * 0x1_0000_0000) + with_sign(bn, 1),
            ae - 32,
            an && bn,
        ),
{
    let d = (ae - be) as nat;
    let k = (d - 31) as nat;
    lemma2_to64();
    lemma2_to64_rest();
    lemma_pow2_adds(31, k);
    lemma_pow2_monotonic(48, k);
    lemma_mul_is_associative(am as int, pow2(31) as int, pow2(k) as int);
    let h = am * 0x8000_0000;
    assert(am * pow2(d) == h * pow2(k));
    assert(bm * pow2(0) == bm) by (nonlinear_arith)
        requires
            pow2(0) == 1,
    ;
    if an == bn {
        lemma_bit_len_bounds(h);
        if bit_len(h) <= 24 {
            lemma_pow2_monotonic(bit_len(h), 24);
        }
        lemma_sticky(24, -149, 0x7f80_0000, h, k, bm, be);
    } else {
        let n = (h - 1) as nat;
        let r = (pow2(k) - bm) as nat;
        lemma_bit_len_bounds(n);
        if bit_len(n) <= 24 {
            lemma_pow2_monotonic(bit_len(n), 24);
        }
        assert(h * pow2(k) - bm == n * pow2(k) + r) by (nonlinear_arith)
            requires
                n == h - 1,
                r == pow2(k) - bm,
        ;
        assert(n * pow2(k) >= 0) by (nonlinear_arith);
        lemma_sticky(24, -149, 0x7f80_0000, n, k, r, be);
    }
}

fn round_sum_ordered(an: bool, am: u64, ae: i32, bn: bool, bm: u64, be: i32) -> (r: F32)
    requires
        am < 0x1_0000_0000_0000,
        bm < 0x1_0000_0000_0000,
        -500 <= be <= ae <= 500,
    ensures
        r == round_sum(an, am as nat, ae as int, bn, bm as nat, be as int),
{
    let d: u32 = (ae - be) as u32;
    proof {
        lemma2_to64();
        lemma2_to64_rest();
        lemma_pow2_127();
        assert(bm * pow2(0) == bm) by (nonlinear_arith)
            requires
                pow2(0) == 1,
        ;
    }
    if d < 79 {
        proof {
            lemma_pow2_adds(48, d as nat);
            lemma_pow2_pos(d as nat);
            lemma_pow2_monotonic(48 + d as nat, 126);
            lemma_pow2_unfold(127);
            assert(am * pow2(d as nat) < pow2(48) * pow2(d as nat)) by (nonlinear_arith)
                requires
                    am < pow2(48),
                    pow2(d as nat) > 0,
            ;
        }
        round_aligned(an, shl_u128(am as u128, d), bn, bm as u128, be)
    } else if am == 0 {
        assert(am * pow2(d as nat) == 0) by (nonlinear_arith)
            requires
                am == 0,
        ;
        round_aligned(an, 0, bn, bm as u128, be)
    } else if bm == 0 {
        proof {
            lemma_round_to_scaled(24, -149, 0x7f80_0000, am as nat, ae as int, d as nat);
            lemma_pow2_pos(d as nat);
            assert(am * pow2(d as nat) > 0) by (nonlinear_arith)
                requires
                    am > 0,
                    pow2(d as nat) > 0,
            ;
        }
        round_aligned(an, am as u128, bn, 0, ae)
    } else {
        proof {
            lemma_far_sum(an, am as nat, ae as int, bn, bm as nat, be as int);
        }
        round_aligned(an, am as u128 * 0x1_0000_0000, bn, 1, ae - 32)
    }
}

fn round_sum_exact(an: bool, am: u64, ae: i32, bn: bool, bm: u64, be: i32) -> (r: F32)
    requires
        am < 0x1_0000_0000_0000,
        bm < 0x1_0000_0000_0000,
        -500 <= ae <= 500,
        -500 <= be <= 500,
    ensures
        r == round_sum(an, am as nat, ae as int, bn, bm as nat, be as int),
{
    if ae >= be {
        round_sum_ordered(an, am, ae, bn, bm, be)
    } else {
        round_sum_ordered(bn, bm, be, an, am, ae)
    }
}

// ------------------------------------------------------------------ operations

impl F32 {
    /// Positive zero.
    pub fn zero() -> (r: F32)
        ensures
            r == F32::zero_spec(),
    {
        F32 { bits: 0 }
    }

    /// The pattern of a result that is not a number.
    pub fn nan() -> (r: F32)
        ensures
            r == F32::nan_spec(),
    {
        F32 { bits: 0x7fc0_0000 }
    }

    /// The number with this pattern.
    pub fn from_bits(bits: u32) -> (r: F32)
        ensures
            r.bits == bits,
    {
        F32 { bits }
    }

    /// The pattern of the number.
    pub fn to_bits(self) -> (r: u32)
        ensures
            r == self.bits,
    {
        self.bits
    }

    /// Whether the sign bit is set.
    pub fn is_neg(self) -> (r: bool)
        ensures
            r == self.is_neg_spec(),
    {
        self.bits >= 0x8000_0000
    }

    pub(crate) fn magnitude(self) -> (r: u32)
        ensures
            r == self.mag(),
            r < 0x8000_0000,
    {
        self.bits % 0x8000_0000
    }

    /// Whether the pattern stands for no number.
    pub fn is_nan(self) -> (r: bool)
        ensures
            r == self.is_nan_spec(),
    {
        self.magnitude() > 0x7f80_0000
    }

    /// Whether this is an infinity.
    pub fn is_inf(self) -> (r: bool)
        ensures
            r == self.is_inf_spec(),
    {
        self.magnitude() == 0x7f80_0000
    }

    /// Whether the number is one of the two zeros.
    pub fn is_zero(self) -> (r: bool)
        ensures
            r == self.is_zero_spec(),
    {
        self.magnitude() == 0
    }

    pub(crate) fn significand(self) -> (r: u32)
        ensures
            r == self.sig(),
            r < 0x100_0000,
            r == 0 <==> self.is_zero_spec(),
    {
        let m = self.magnitude();
        if m < 0x80_0000 {
            m
        } else {
            m % 0x80_0000 + 0x80_0000
        }
    }

    pub(crate) fn exponent(self) -> (r: i32)
        ensures
            r == self.exp(),
            -149 <= r <= 105,
    {
        let m = self.magnitude();
        if m < 0x80_0000 {
            -149
        } else {
            (m / 0x80_0000) as i32 - 150
        }
    }

    /// `-self`.
    pub fn neg(self) -> (r: F32)
        ensures
            r == self.neg_spec(),
    {
        if self.bits >= 0x8000_0000 {
            F32 { bits: self.bits - 0x8000_0000 }
        } else {
            F32 { bits: self.bits + 0x8000_0000 }
        }
    }

    /// `self + o`.
    pub fn add(self, o: F32) -> (r: F32)
        ensures
            r == self.add_spec(o),
    {
        proof {
            reveal(F32::add_spec);
        }
        if self.is_nan() || o.is_nan() {
            F32::nan()
        } else if self.is_inf() {
            if o.is_inf() && o.is_neg() != self.is_neg() {
                F32::nan()
            } else {
                self
            }
        } else if o.is_inf() {
            o
        } else {
            round_sum_exact(
                self.is_neg(),
                self.significand() as u64,
                self.exponent(),
                o.is_neg(),
                o.significand() as u64,
                o.exponent(),
            )
        }
    }

    /// `self - o`.
    pub fn sub(self, o: F32) -> (r: F32)
        ensures
            r == self.sub_spec(o),
    {
        self.add(o.neg())
    }

    /// `self * o`.
    pub fn mul(self, o: F32) -> (r: F32)
        ensures
            r == self.mul_spec(o),
    {
        proof {
            reveal(F32::mul_spec);
        }
        let neg = self.is_neg() != o.is_neg();
        if self.is_nan() || o.is_nan() {
            F32::nan()
        } else if self.is_inf() || o.is_inf() {
            if self.is_zero() || o.is_zero() {
                F32::nan()
            } else {
                F32::assemble(neg, 0x7f80_0000)
            }
        } else {
            let m = product(self.significand(), o.significand());
            F32::assemble(neg, round_pack(m as u128, self.exponent() + o.exponent()))
        }
    }

    /// `self * b + c`, rounded once.
    pub fn mul_add(self, b: F32, c: F32) -> (r: F32)
        ensures
            r == self.mul_add_spec(b, c),
    {
        proof {
            reveal(F32::mul_add_spec);
        }
        let neg = self.is_neg() != b.is_neg();
        if self.is_nan() || b.is_nan() || c.is_nan() {
            F32::nan()
        } else if self.is_inf() || b.is_inf() {
            if self.is_zero() || b.is_zero() {
                F32::nan()
            } else if c.is_inf() && c.is_neg() != neg {
                F32::nan()
            } else {
                F32::assemble(neg, 0x7f80_0000)
            }
        } else if c.is_inf() {
            c
        } else {
            round_sum_exact(
                neg,
                product(self.significand(), b.significand()),
                self.exponent() + b.exponent(),
                c.is_neg(),
                c.significand() as u64,
                c.exponent(),
            )
        }
    }

    /// `self / o`.
    pub fn div(self, o: F32) -> (r: F32)
        ensures
            r == self.div_spec(o),
    {
        proof {
            reveal(F32::div_spec);
        }
        let neg = self.is_neg() != o.is_neg();
        if self.is_nan() || o.is_nan() {
            F32::nan()
        } else if self.is_inf() {
            if o.is_inf() {
                F32::nan()
            } else {
                F32::assemble(neg, 0x7f80_0000)
            }
        } else if o.is_inf() {
            F32::assemble(neg, 0)
        } else if o.is_zero() {
            if self.is_zero() {
                F32::nan()
            } else {
                F32::assemble(neg, 0x7f80_0000)
            }
        } else {
            let n = self.significand() as u128 * 0x1_0000_0000_0000_0000;
            let d = o.significand() as u128;
            proof {
                assert(n / d <= n) by (nonlinear_arith)
                    requires
                        n >= 0,
                        d >= 1,
                ;
            }
            let m: u128 = if n % d == 0 {
                2 * (n / d)
            } else {
                2 * (n / d) + 1
            };
            F32::assemble(neg, round_pack(m, self.exponent() - o.exponent() - 65))
        }
    }

    /// The square root of `self`.
    pub fn sqrt(self) -> (r: F32)
        ensures
            r == self.sqrt_spec(),
    {
        proof {
            reveal(F32::sqrt_spec);
        }
        if self.is_nan() {
            F32::nan()
        } else if self.is_zero() {
            self
        } else if self.is_neg() {
            F32::nan()
        } else if self.is_inf() {
            self
        } else {
            let e = self.exponent();
            let m = self.significand() as u128;
            let even = (e + 1000) % 2 == 0;
            let n: u128 = if even {
                m * 0x1000_0000_0000_0000
            } else {
                2 * m * 0x1000_0000_0000_0000
            };
            let half: i32 = if even {
                (e + 1000) / 2 - 500
            } else {
                (e + 999) / 2 - 500
            };
            let root = int_root_u128(n);
            proof {
                assert(root * root <= n);
                assert(root <= n) by (nonlinear_arith)
                    requires
                        root * root <= n,
                        root >= 0,
                ;
            }
            let m: u128 = if root * root == n {
                2 * root
            } else {
                2 * root + 1
            };
            F32::assemble(false, round_pack(m, half - 31))
        }
    }

    /// `self < o`.
    pub fn lt(self, o: F32) -> (r: bool)
        ensures
            r == self.lt_spec(o),
    {
        if self.is_nan() || o.is_nan() {
            false
        } else if self.is_neg() {
            if o.is_neg() {
                self.magnitude() > o.magnitude()
            } else {
                self.magnitude() > 0 || o.magnitude() > 0
            }
        } else {
            !o.is_neg() && self.magnitude() < o.magnitude()
        }
    }

    /// The number nearest to an integer.
    pub fn from_i64(n: i64) -> (r: F32)
        ensures
            r == F32::of_int(n as int),
    {
        proof {
            reveal(F32::of_int);
        }
        if n >= 0 {
            F32::assemble(false, round_pack(n as u128, 0))
        } else {
            F32::assemble(true, round_pack((-(n as i128)) as u128, 0))
        }
    }
}

impl F32 {
    /// The integer part of the magnitude, and whether digits are left past the point, for an
    /// exponent that leaves the integer part below `2^32`.
    pub(crate) fn split_at_point(self) -> (r: (u64, bool))
        requires
            self.exp() <= 8,
        ensures
            self.int_part() == with_sign(self.is_neg_spec(), r.0 as nat),
            self.has_fraction() == r.1,
            r.0 <= 0x1_0000_0000,
            self.exp() < 0 ==> r.0 <= 0x80_0000,
    {
        proof {
            reveal(F32::int_part);
            reveal(F32::has_fraction);
            lemma2_to64();
        }
        let m = self.significand() as u64;
        let e = self.exponent();
        if e >= 0 {
            proof {
                lemma_pow2_monotonic(e as nat, 8);
                assert(m * pow2(e as nat) <= 0x100_0000 * 256) by (nonlinear_arith)
                    requires
                        0 <= m <= 0x100_0000,
                        0 <= pow2(e as nat) <= 256,
                ;
                lemma_u64_shl_is_mul(m, e as u64);
            }
            (m << (e as u64), false)
        } else {
            let k: u32 = (-e) as u32;
            if k >= 32 {
                proof {
                    lemma_pow2_monotonic(32, k as nat);
                    lemma_small_mod(m as nat, pow2(k as nat));
                    lemma_basic_div(m as int, pow2(k as nat) as int);
                }
                (0, m != 0)
            } else {
                proof {
                    lemma_u64_shr_is_div(m, k as u64);
                    lemma_pow2_pos(k as nat);
                    lemma_pow2_monotonic(1, k as nat);
                    lemma_fundamental_div_mod(m as int, pow2(k as nat) as int);
                    let p = pow2(k as nat) as int;
                    let q = m as int / p;
                    assert(q <= 0x80_0000 && p * q <= m) by (nonlinear_arith)
                        requires
                            m == p * q + m as int % p,
                            m as int % p >= 0,
                            p >= 2,
                            m < 0x100_0000,
                    ;
                    lemma_pow2_monotonic(k as nat, 31);
                    lemma_u64_shl_is_mul(1, k as u64);
                    lemma_mul_basics(p);
                }
                let q = m >> (k as u64);
                let p = 1u64 << (k as u64);
                (q, m % p != 0)
            }
        }
    }

    /// The greatest integer not above the number.
    pub fn floor(self) -> (r: F32)
        ensures
            r == self.floor_spec(),
    {
        if self.is_nan() {
            F32::nan()
        } else if self.is_inf() {
            self
        } else if self.exponent() >= 0 {
            proof {
                reveal(F32::has_fraction);
            }
            self
        } else {
            let (n, rest) = self.split_at_point();
            if !rest {
                self
            } else if self.is_neg() {
                F32::from_i64(-(n as i64) - 1)
            } else {
                F32::from_i64(n as i64)
            }
        }
    }

    /// The integer part as a 32-bit integer.
    pub fn to_i32(self) -> (r: i32)
        ensures
            r == self.to_i32_spec(),
    {
        if self.is_nan() || self.is_inf() {
            i32::MIN
        } else if self.exponent() > 8 {
            proof {
                reveal(F32::int_part);
                lemma2_to64();
                lemma_pow2_monotonic(9, self.exp() as nat);
                let p = pow2(self.exp() as nat);
                let m = self.sig();
                assert(m * p >= 0x80_0000 * 512) by (nonlinear_arith)
                    requires
                        m >= 0x80_0000,
                        p >= 512,
                ;
            }
            i32::MIN
        } else {
            let (n, _rest) = self.split_at_point();
            if self.is_neg() {
                if n > 0x8000_0000 {
                    i32::MIN
                } else {
                    (-(n as i64)) as i32
                }
            } else {
                if n >= 0x8000_0000 {
                    i32::MIN
                } else {
                    n as i32
                }
            }
        }
    }
}

impl F32 {
    /// The magnitude as a number.
    pub fn abs(self) -> (r: F32)
        ensures
            r == self.abs_spec(),
    {
        F32::assemble(false, self.magnitude())
    }

    /// The number cut off to `[lo, hi]`; what is not a number is kept.
    pub fn clamp(self, lo: F32, hi: F32) -> (r: F32)
        ensures
            r == self.clamp_spec(lo, hi),
    {
        if self.lt(lo) {
            lo
        } else if hi.lt(self) {
            hi
        } else {
            self
        }
    }

    /// The nearest integer cut off to `[lo, hi]`, halves away from zero; zero if there is no
    /// number.
    pub fn round_into(self, lo: i32, hi: i32) -> (r: i32)
        requires
            lo <= 0 <= hi,
        ensures
            r == self.rounded_into(lo as int, hi as int),
    {
        if self.is_nan() {
            return 0;
        }
        let neg = self.is_neg();
        let end = if neg {
            lo
        } else {
            hi
        };
        if self.is_inf() {
            return end;
        }
        proof {
            reveal(F32::nearest_int);
            lemma2_to64();
        }
        let m = self.significand() as u64;
        let e = self.exponent();
        if e > 8 {
            proof {
                lemma_pow2_monotonic(9, e as nat);
                let p = pow2(e as nat);
                assert(m * p >= 0x80_0000 * 512) by (nonlinear_arith)
                    requires
                        m >= 0x80_0000,
                        p >= 512,
                ;
            }
            return end;
        }
        let n: u64 = if e >= 0 {
            proof {
                lemma_pow2_monotonic(e as nat, 8);
                assert(m * pow2(e as nat) <= 0x100_0000 * 256) by (nonlinear_arith)
                    requires
                        0 <= m <= 0x100_0000,
                        0 <= pow2(e as nat) <= 256,
                ;
                lemma_u64_shl_is_mul(m, e as u64);
            }
            m << (e as u64)
        } else {
            let k: u32 = (-e) as u32;
            if k >= 32 {
                proof {
                    lemma_pow2_monotonic(31, (k - 1) as nat);
                    lemma_pow2_unfold(k as nat);
                    lemma_basic_div(m + pow2((k - 1) as nat), pow2(k as nat) as int);
                }
                0
            } else {
                proof {
                    lemma_pow2_monotonic((k - 1) as nat, 31);
                    lemma_u64_shl_is_mul(1, (k - 1) as u64);
                    lemma_mul_basics(pow2((k - 1) as nat) as int);
                    let h = (m + pow2((k - 1) as nat)) as u64;
                    lemma_u64_shr_is_div(h, k as u64);
                    lemma_pow2_pos(k as nat);
                    lemma_div_nonincreasing(h as int, pow2(k as nat) as int);
                }
                (m + (1u64 << ((k - 1) as u64))) >> (k as u64)
            }
        };
        if neg {
            let v: i64 = -(n as i64);
            if v < lo as i64 {
                lo
            } else {
                v as i32
            }
        } else {
            if n as i64 > hi as i64 {
                hi
            } else {
                n as i32
            }
        }
    }
}

fn product(a: u32, b: u32) -> (r: u64)
    requires
        a < 0x100_0000,
        b < 0x100_0000,
    ensures
        r == a * b,
        r < 0x1_0000_0000_0000,
{
    assert(a * b < 0x1_0000_0000_0000) by (nonlinear_arith)
        requires
            a < 0x100_0000,
            b < 0x100_0000,
    ;
    a as u64 * b as u64
}

proof fn lemma_int_root_unique(n: nat, r: nat)
    requires
        is_root(n, r),
    ensures
        int_root(n) == r,
{
    let s = int_root(n);
    assert(is_root(n, s));
    assert(s == r) by (nonlinear_arith)
        requires
            r * r <= n < (r + 1) * (r + 1),
            s * s <= n < (s + 1) * (s + 1),
            s >= 0,
            r >= 0,
    ;
}

/// The largest integer whose square is at most `n`.
fn int_root_u128(n: u128) -> (r: u128)
    requires
        n < 0x1000_0000_0000_0000_0000_0000,
    ensures
        r == int_root(n as nat),
        r * r <= n,
        r < 0x1_0000_0000_0000,
{
    let mut lo: u128 = 0;
    let mut hi: u128 = 0x1_0000_0000_0000;
    while hi - lo > 1
        invariant
            n < 0x1000_0000_0000_0000_0000_0000,
            lo < hi <= 0x1_0000_0000_0000,
            lo * lo <= n < hi * hi,
        decreases hi - lo,
    {
        let mid = (lo + hi) / 2;
        assert(mid * mid <= 0x1_0000_0000_0000 * 0x1_0000_0000_0000) by (nonlinear_arith)
            requires
                0 <= mid <= 0x1_0000_0000_0000,
        ;
        if mid * mid <= n {
            lo = mid;
        } else {
            hi = mid;
        }
    }
    proof {
        lemma_int_root_unique(n as nat, lo as nat);
    }
    lo
}

// ------------------------------------------------------------------ laws

/// A finite number rounds to itself.
pub proof fn law_a_number_rounds_to_itself(x: F32)
    requires
        x.is_finite_spec(),
    ensures
        round32(x.sig(), x.exp()) == x.mag(),
{
    lemma2_to64();
    lemma_round_to_exact(24, -149, 0x7f80_0000, x.mag());
}

/// Sums do not depend on the order of their two terms.
pub proof fn law_addition_commutes(x: F32, y: F32)
    ensures
        x.add_spec(y) == y.add_spec(x),
{
    reveal(F32::add_spec);
    if x.is_inf_spec() && y.is_inf_spec() && x.is_neg_spec() == y.is_neg_spec() {
        assert(x.bits == y.bits);
    }
}

/// Products do not depend on the order of their two factors.
pub proof fn law_multiplication_commutes(x: F32, y: F32)
    ensures
        x.mul_spec(y) == y.mul_spec(x),
{
    reveal(F32::mul_spec);
    lemma_mul_is_commutative(x.sig() as int, y.sig() as int);
}

/// A number times one is the number.
pub proof fn law_times_one(x: F32)
    requires
        x.is_finite_spec(),
    ensures
        x.mul_spec(F32 { bits: 0x3f80_0000 }) == x,
{
    reveal(F32::mul_spec);
    let one = F32 { bits: 0x3f80_0000 };
    lemma2_to64();
    assert(one.sig() == pow2(23));
    assert(one.exp() == -23);
    law_a_number_rounds_to_itself(x);
    lemma_round_to_scaled(24, -149, 0x7f80_0000, x.sig(), x.exp(), 23);
}

/// A zero added to a number that is not zero leaves the number as it is.
pub proof fn law_plus_zero(x: F32, z: F32)
    requires
        x.is_finite_spec(),
        !x.is_zero_spec(),
        z.is_zero_spec(),
    ensures
        x.add_spec(z) == x,
        z.add_spec(x) == x,
{
    reveal(F32::add_spec);
    law_addition_commutes(x, z);
    let j = (x.exp() + 149) as nat;
    lemma_pow2_pos(j);
    lemma2_to64();
    law_a_number_rounds_to_itself(x);
    lemma_round_to_scaled(24, -149, 0x7f80_0000, x.sig(), x.exp(), j);
    let m = x.sig() * pow2(j);
    assert(m > 0) by (nonlinear_arith)
        requires
            x.sig() > 0,
            pow2(j) > 0,
            m == x.sig() * pow2(j),
    ;
    assert(z.sig() == 0);
    assert(0 * pow2(0) == 0);
}

/// A finite number times a zero is a zero.
pub proof fn law_times_zero(x: F32, z: F32)
    requires
        x.is_finite_spec(),
        z.is_zero_spec(),
    ensures
        x.mul_spec(z).is_zero_spec(),
{
    reveal(F32::mul_spec);
    assert(z.sig() == 0);
    lemma_mul_basics(x.sig() as int);
    assert(x.sig() * z.sig() == 0);
}

/// Negating twice changes nothing, and negating once only the sign.
pub proof fn law_negation_is_undone(x: F32)
    ensures
        x.neg_spec().neg_spec() == x,
        x.neg_spec().mag() == x.mag(),
{
}

} // verus!
