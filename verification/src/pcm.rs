//! Samples as they are stored in a wave file.
use vstd::arithmetic::power2::*;
use vstd::bits::*;
use vstd::prelude::*;

use crate::float::F32;
use crate::hush::Hush;
use crate::simd::{bits, ONE};
use crate::text::{decimal, push_decimal};

verus! {

/// -1
pub const MINUS_ONE: u32 = 0xbf80_0000;

/// 32767, full scale of a 16-bit sample.
pub const FULL_SCALE: u32 = 0x46ff_fe00;

/// What an integer sample of `width` bits is multiplied by: one over `2^(width - 1)`.
pub open spec fn scale_of(width: int) -> F32 {
    bits(ONE).div_spec(F32::of_int(pow2((width - 1) as nat) as int))
}

/// An integer sample of `width` bits as a number in `[-1, 1]`.
pub open spec fn sample_of(v: int, width: int) -> F32 {
    F32::of_int(v).mul_spec(scale_of(width))
}

/// The integer samples of `width` bits as numbers in `[-1, 1]`.
pub open spec fn samples_of(samples: Seq<i32>, width: int) -> Seq<F32> {
    Seq::new(samples.len(), |i: int| sample_of(samples[i] as int, width))
}

/// The integer samples of `width` bits as numbers in `[-1, 1]`.
pub fn from_ints(samples: &[i32], width: u16) -> (r: Vec<F32>)
    requires
        1 <= width <= 63,
    ensures
        r@ == samples_of(samples@, width as int),
{
    proof {
        lemma2_to64();
        lemma2_to64_rest();
        lemma_pow2_strictly_increases((width - 1) as nat, 63);
        lemma_u64_shl_is_mul(1, (width - 1) as u64);
    }
    let one = 1u64 << ((width - 1) as u64);
    let scale = F32::from_bits(ONE).div(F32::from_i64(one as i64));
    let n = samples.len();
    let mut r: Vec<F32> = Vec::new();
    for i in 0..n
        invariant
            n == samples@.len(),
            scale == scale_of(width as int),
            r@ == Seq::new(i as nat, |k: int| sample_of(samples@[k] as int, width as int)),
    {
        r.push(F32::from_i64(samples[i] as i64).mul(scale));
        assert(r@ =~= Seq::new(
            (i + 1) as nat,
            |k: int| sample_of(samples@[k] as int, width as int),
        ));
    }
    assert(r@ =~= samples_of(samples@, width as int));
    r
}

/// A number as a 16-bit sample: cut off to `[-1, 1]`, times 32767, to the nearest integer with
/// halves away from zero; zero for what is not a number.
pub open spec fn pcm16_of(v: F32) -> int {
    v.clamp_spec(bits(MINUS_ONE), bits(ONE)).mul_spec(bits(FULL_SCALE)).rounded_into(-32768, 32767)
}

/// Numbers as 16-bit samples.
pub open spec fn pcm16s_of(samples: Seq<F32>) -> Seq<i16> {
    Seq::new(samples.len(), |i: int| pcm16_of(samples[i]) as i16)
}

/// Numbers as 16-bit samples.
pub fn to_pcm16(samples: &[F32]) -> (r: Vec<i16>)
    ensures
        r@.len() == samples@.len(),
        forall|i: int| 0 <= i < r@.len() ==> #[trigger] r@[i] == pcm16_of(samples@[i]),
        r@ == pcm16s_of(samples@),
{
    let n = samples.len();
    let mut r: Vec<i16> = Vec::new();
    for i in 0..n
        invariant
            n == samples@.len(),
            r@.len() == i,
            forall|k: int| 0 <= k < i ==> #[trigger] r@[k] == pcm16_of(samples@[k]),
    {
        let c = samples[i].clamp(F32::from_bits(MINUS_ONE), F32::from_bits(ONE));
        let v = c.mul(F32::from_bits(FULL_SCALE)).round_into(-32768, 32767);
        r.push(v as i16);
    }
    assert(r@ =~= pcm16s_of(samples@));
    r
}

/// What is wrong with a recording of `channels` channels at `rate` Hz, if anything is.
pub open spec fn format_fault(channels: nat, rate: nat) -> Option<Seq<char>> {
    if channels != 1 {
        Some("expected mono, got "@ + decimal(channels) + " channels"@)
    } else if rate != 16000 {
        Some("expected "@ + decimal(16000) + " Hz, got "@ + decimal(rate) + " Hz"@)
    } else {
        None
    }
}

/// Accepts a mono 16 kHz recording, and says what is wrong with any other.
pub fn check_format(channels: u16, rate: u32) -> (r: Result<(), String>)
    ensures
        match r {
            Ok(()) => format_fault(channels as nat, rate as nat) is None,
            Err(m) => format_fault(channels as nat, rate as nat) == Some(m@),
        },
{
    if channels != 1 {
        let mut m = "expected mono, got ".to_owned();
        push_decimal(&mut m, channels as usize);
        m.append(" channels");
        Err(m)
    } else if rate != Hush::SAMPLE_RATE {
        let mut m = "expected ".to_owned();
        push_decimal(&mut m, Hush::SAMPLE_RATE as usize);
        m.append(" Hz, got ");
        push_decimal(&mut m, rate as usize);
        m.append(" Hz");
        Err(m)
    } else {
        Ok(())
    }
}

} // verus!
