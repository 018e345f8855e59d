//! What the development tool works with: fixtures, test signals and comparisons.
use vstd::arithmetic::div_mod::*;
use vstd::arithmetic::mul::*;
use vstd::prelude::*;
use vstd::string::*;

use crate::float::F32;
use crate::nn::{dot, dot_of, lane_sum};
use crate::simd::{bits, HALF};
use crate::text::{parse_usize, parse_usize_spec, to_chars};

verus! {

/// Where the fixture `name` lies under the directory `root`.
pub fn assets(root: &str, name: &str) -> (r: String)
    ensures
        r@ == root@ + "/assets/"@ + name@,
{
    let mut s = root.to_owned();
    s.append("/assets/");
    s.append(name);
    s
}

/// A signal repeated and cut to `secs` seconds at `sr` samples per second.
pub open spec fn tile_of(audio: Seq<F32>, n: nat) -> Seq<F32> {
    Seq::new(n, |i: int| audio[i % audio.len() as int])
}

/// A signal repeated and cut to `secs` seconds at `sr` samples per second.
pub fn tile(audio: &[F32], sr: u32, secs: usize) -> (a: Vec<F32>)
    requires
        secs * sr <= usize::MAX,
        secs * sr > 0 ==> audio@.len() > 0,
    ensures
        a@ == tile_of(audio@, (secs * sr) as nat),
{
    let n = secs * sr as usize;
    let len = audio.len();
    let mut a: Vec<F32> = Vec::new();
    for i in 0..n
        invariant
            len == audio@.len(),
            n > 0 ==> len > 0,
            a@ == tile_of(audio@, i as nat),
    {
        a.push(audio[i % len]);
        assert(a@ =~= tile_of(audio@, (i + 1) as nat));
    }
    a
}

/// The greater of two numbers; the other one where one is not a number.
pub open spec fn max_of(a: F32, b: F32) -> F32 {
    if a.is_nan_spec() || a.lt_spec(b) {
        b
    } else {
        a
    }
}

/// The greatest difference in the first `n` places.
pub open spec fn maxdiff_of(a: Seq<F32>, b: Seq<F32>, n: nat) -> F32
    decreases n,
{
    if n == 0 {
        F32::zero_spec()
    } else {
        max_of(maxdiff_of(a, b, (n - 1) as nat), a[n - 1].sub_spec(b[n - 1]).abs_spec())
    }
}

/// The greatest difference between two signals of one length.
pub fn maxdiff(a: &[F32], b: &[F32]) -> (r: F32)
    requires
        a@.len() == b@.len(),
    ensures
        r == maxdiff_of(a@, b@, a@.len()),
{
    let n = a.len();
    let mut m = F32::zero();
    for i in 0..n
        invariant
            n == a@.len(),
            n == b@.len(),
            m == maxdiff_of(a@, b@, i as nat),
    {
        let d = a[i].sub(b[i]).abs();
        if m.is_nan() || m.lt(d) {
            m = d;
        }
    }
    m
}

// ------------------------------------------------------------------ test signals

/// The multiplier of the generator.
pub const LCG: u64 = 6364136223846793005;

/// 2147483648, the range of the generator's numbers.
pub const LCG_RANGE: u32 = 0x4f00_0000;

/// The generator's state after `n` steps.
pub open spec fn lcg_state(seed: u64, n: nat) -> u64
    decreases n,
{
    if n == 0 {
        seed
    } else {
        lcg_state(seed, (n - 1) as nat).wrapping_mul(LCG).wrapping_add(1)
    }
}

/// The upper 31 bits of a state as a number in `[-0.5, 0.5]`.
pub open spec fn centred(s: u64) -> F32 {
    F32::of_int((s >> 33) as int).div_spec(bits(LCG_RANGE)).sub_spec(bits(HALF))
}

/// `n` numbers in `[-0.5, 0.5]`, the same for the same seed.
pub open spec fn rnd_of(n: nat, seed: u64) -> Seq<F32> {
    Seq::new(n, |i: int| centred(lcg_state(seed, (i + 1) as nat)))
}

/// `n` numbers in `[-0.5, 0.5]`, the same for the same seed.
pub fn rnd(n: usize, seed: u64) -> (r: Vec<F32>)
    ensures
        r@ == rnd_of(n as nat, seed),
{
    let mut s = seed;
    let mut r: Vec<F32> = Vec::new();
    for i in 0..n
        invariant
            s == lcg_state(seed, i as nat),
            r@ == rnd_of(i as nat, seed),
    {
        s = s.wrapping_mul(LCG).wrapping_add(1);
        let top = s >> 33;
        assert(top <= 0x7fff_ffff) by (bit_vector)
            requires
                top == s >> 33,
        ;
        r.push(F32::from_i64(top as i64).div(F32::from_bits(LCG_RANGE)).sub(F32::from_bits(HALF)));
        assert(r@ =~= rnd_of((i + 1) as nat, seed));
    }
    r
}

/// [`rnd`] behind a rectifier: about half of the numbers are zero.
pub fn rnd_rectified(n: usize, seed: u64) -> (r: Vec<F32>)
    ensures
        r@ == crate::nn::relu_seq(rnd_of(n as nat, seed)),
{
    let mut r = rnd(n, seed);
    crate::nn::relu_(r.as_mut_slice());
    r
}

// ------------------------------------------------------------------ command line

/// What the development tool is asked to do.
#[derive(Clone, Copy, Debug, PartialEq, Eq)]
pub enum Tool {
    /// Compare every stage with its fixture.
    Verify,
    /// Time the pipeline over so many seconds of audio.
    Bench { secs: usize },
    /// Print the time of each of `reps` runs.
    Raw { secs: usize, reps: usize, threads: usize, nn: bool },
    /// Print the usage.
    Usage,
}

/// The number at place `i`, or `d` where there is none.
pub open spec fn number_at(args: Seq<Seq<char>>, i: int, d: usize) -> usize {
    if i < args.len() {
        match parse_usize_spec(args[i]) {
            Some(n) => n,
            None => d,
        }
    } else {
        d
    }
}

/// What the arguments behind the program's name ask for.
pub open spec fn tool_of(args: Seq<Seq<char>>) -> Tool {
    if args.len() == 0 {
        Tool::Usage
    } else if args[0] == "verify"@ {
        Tool::Verify
    } else if args[0] == "bench"@ {
        Tool::Bench { secs: number_at(args, 1, 5) }
    } else if args[0] == "raw"@ {
        Tool::Raw {
            secs: number_at(args, 1, 5),
            reps: number_at(args, 2, 50),
            threads: number_at(args, 3, 1),
            nn: args.len() > 4 && args[4] == "nn"@,
        }
    } else {
        Tool::Usage
    }
}

fn number(args: &[String], i: usize, d: usize) -> (r: usize)
    ensures
        r == number_at(crate::cli::args_of(args@), i as int, d),
{
    if i < args.len() {
        assert(crate::cli::args_of(args@)[i as int] == args@[i as int]@);
        match parse_usize(to_chars(args[i].as_str()).as_slice()) {
            Some(n) => n,
            None => d,
        }
    } else {
        d
    }
}

/// What the arguments behind the program's name ask for. A number that is missing or cannot be
/// read has a default.
pub fn parse_tool(args: &[String]) -> (r: Tool)
    ensures
        r == tool_of(crate::cli::args_of(args@)),
{
    let ghost av = crate::cli::args_of(args@);
    if args.len() == 0 {
        return Tool::Usage;
    }
    assert(av[0] == args@[0]@);
    let first = to_chars(args[0].as_str());
    if crate::cli::is_text(first.as_slice(), "verify") {
        Tool::Verify
    } else if crate::cli::is_text(first.as_slice(), "bench") {
        Tool::Bench { secs: number(args, 1, 5) }
    } else if crate::cli::is_text(first.as_slice(), "raw") {
        let nn = if args.len() > 4 {
            assert(av[4] == args@[4]@);
            crate::cli::is_text(to_chars(args[4].as_str()).as_slice(), "nn")
        } else {
            false
        };
        Tool::Raw {
            secs: number(args, 1, 5),
            reps: number(args, 2, 50),
            threads: number(args, 3, 1),
            nn,
        }
    } else {
        Tool::Usage
    }
}

// ------------------------------------------------------------------ other dot products

/// The dot product of the whole chunks of eight: eight running sums.
pub open spec fn dot_1acc_of(a: Seq<F32>, b: Seq<F32>) -> F32 {
    let n = a.len() as int / 8 * 8;
    dot_of(a.take(n), b.take(n))
}

/// The dot product of the whole chunks of eight: eight running sums.
pub fn dot_1acc(a: &[F32], b: &[F32]) -> (r: F32)
    requires
        a@.len() == b@.len(),
    ensures
        r == dot_1acc_of(a@, b@),
{
    let n = a.len() / 8 * 8;
    let x = &a[0..n];
    let y = &b[0..n];
    assert(x@ =~= a@.take(a@.len() as int / 8 * 8));
    assert(y@ =~= b@.take(a@.len() as int / 8 * 8));
    dot(x, y)
}

/// Lane `e` of 32 after `c` chunks of 32.
pub open spec fn wide_lane(a: Seq<F32>, b: Seq<F32>, e: int, c: nat) -> F32
    decreases c,
{
    if c == 0 {
        F32::zero_spec()
    } else {
        a[32 * (c - 1) + e].mul_add_spec(b[32 * (c - 1) + e], wide_lane(a, b, e, (c - 1) as nat))
    }
}

/// The dot product of the whole chunks of 32: 32 running sums, four of which make one of eight
/// lanes.
pub open spec fn dot_4acc_of(a: Seq<F32>, b: Seq<F32>) -> F32 {
    let c = a.len() / 32;
    lane_sum(
        Seq::new(
            8,
            |e: int|
                wide_lane(a, b, e, c).add_spec(wide_lane(a, b, e + 8, c)).add_spec(
                    wide_lane(a, b, e + 16, c).add_spec(wide_lane(a, b, e + 24, c)),
                ),
        ),
    )
}

/// The dot product of the whole chunks of 32.
pub fn dot_4acc(a: &[F32], b: &[F32]) -> (r: F32)
    requires
        a@.len() == b@.len(),
    ensures
        r == dot_4acc_of(a@, b@),
{
    let n = a.len();
    let chunks = n / 32;
    let mut acc: [F32; 32] = [F32::zero();32];
    for c in 0..chunks
        invariant
            a@.len() == n,
            b@.len() == n,
            chunks == n / 32,
            forall|e: int| 0 <= e < 32 ==> #[trigger] acc@[e] == wide_lane(a@, b@, e, c as nat),
    {
        for e in 0..32
            invariant
                a@.len() == n,
                b@.len() == n,
                32 * c + 32 <= n,
                forall|i: int|
                    0 <= i < 32 ==> #[trigger] acc@[i] == wide_lane(
                        a@,
                        b@,
                        i,
                        if i < e {
                            (c + 1) as nat
                        } else {
                            c as nat
                        },
                    ),
        {
            acc[e] = a[32 * c + e].mul_add(b[32 * c + e], acc[e]);
        }
    }
    let mut v: [F32; 8] = [F32::zero();8];
    for e in 0..8
        invariant
            forall|i: int|
                0 <= i < 32 ==> #[trigger] acc@[i] == wide_lane(a@, b@, i, chunks as nat),
            forall|i: int|
                0 <= i < e ==> #[trigger] v@[i] == wide_lane(
                    a@,
                    b@,
                    i,
                    chunks as nat,
                ).add_spec(wide_lane(a@, b@, i + 8, chunks as nat)).add_spec(
                    wide_lane(a@, b@, i + 16, chunks as nat).add_spec(
                        wide_lane(a@, b@, i + 24, chunks as nat),
                    ),
                ),
    {
        v[e] = acc[e].add(acc[e + 8]).add(acc[e + 16].add(acc[e + 24]));
    }
    let c = chunks;
    assert(v@ =~= Seq::new(
        8,
        |e: int|
            wide_lane(a@, b@, e, c as nat).add_spec(wide_lane(a@, b@, e + 8, c as nat)).add_spec(
                wide_lane(a@, b@, e + 16, c as nat).add_spec(wide_lane(a@, b@, e + 24, c as nat)),
            ),
    ));
    v[0].add(v[1]).add(v[2].add(v[3])).add(v[4].add(v[5]).add(v[6].add(v[7])))
}

} // verus!
