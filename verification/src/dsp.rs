//! Short-time spectra, band features and overlap-add.
//!
//! The Fourier transforms and the logarithm are the caller's: what goes into a transform and what
//! is made of its result are functions here.
use vstd::arithmetic::mul::*;
use vstd::prelude::*;

use crate::float::F32;
use crate::nn::filled;
use crate::rows::{lemma_row_of_rows, lemma_rows_len, row_at, row_of, rows};
use crate::simd::{bits, ONE};
use crate::weights::zeros;

verus! {

/// Sample rate in Hz.
pub const SR: usize = 16000;

/// Samples in one transform.
pub const FFT: usize = 320;

/// Samples from one frame to the next.
pub const HOP: usize = 160;

/// Bins in one spectrum.
pub const FREQS: usize = FFT / 2 + 1;

/// Bands.
pub const NB_ERB: usize = 32;

/// Bins that the deep filter works on.
pub const NB_DF: usize = 64;

/// Taps of the deep filter.
pub const DF_ORDER: usize = 5;

/// Bins in each band.
pub const ERB_WIDTHS: [usize; NB_ERB] = [
    2, 2, 2, 2, 2, 2, 2, 2, 2, 2, 2, 2, 2, 2, 2, 2, 2, 2, 2, 2, 3, 6, 7, 7, 8, 8, 10, 12, 12, 14, 16,
    18,
];

/// -60
pub const ERB_FIRST: u32 = 0xc270_0000;

/// -90
pub const ERB_LAST: u32 = 0xc2b4_0000;

/// 0.001
pub const UNIT_FIRST: u32 = 0x3a83_126f;

/// 0.0001
pub const UNIT_LAST: u32 = 0x38d1_b717;

/// 1e-10
pub const ENERGY_FLOOR: u32 = 0x2edb_e6ff;

/// 10
pub const TEN: u32 = 0x4120_0000;

/// 40
pub const FORTY: u32 = 0x4220_0000;

/// A complex number.
#[derive(Clone, Copy, Debug, PartialEq, Eq)]
pub struct Complex {
    /// Real part.
    pub re: F32,
    /// Imaginary part.
    pub im: F32,
}

impl Complex {
    /// The number times a real one.
    pub open spec fn scaled_spec(self, s: F32) -> Complex {
        Complex { re: self.re.mul_spec(s), im: self.im.mul_spec(s) }
    }

    /// The conjugate.
    pub open spec fn conj_spec(self) -> Complex {
        Complex { re: self.re, im: self.im.neg_spec() }
    }

    /// The sum.
    pub open spec fn plus_spec(self, o: Complex) -> Complex {
        Complex { re: self.re.add_spec(o.re), im: self.im.add_spec(o.im) }
    }

    /// `re^2 + im^2`.
    pub open spec fn energy_spec(self) -> F32 {
        self.re.mul_spec(self.re).add_spec(self.im.mul_spec(self.im))
    }

    /// The number times a real number.
    pub fn scaled(self, s: F32) -> (r: Complex)
        ensures
            r == self.scaled_spec(s),
    {
        Complex { re: self.re.mul(s), im: self.im.mul(s) }
    }

    /// The complex conjugate.
    pub fn conj(self) -> (r: Complex)
        ensures
            r == self.conj_spec(),
    {
        Complex { re: self.re, im: self.im.neg() }
    }

    /// The sum of two numbers.
    pub fn plus(self, o: Complex) -> (r: Complex)
        ensures
            r == self.plus_spec(o),
    {
        Complex { re: self.re.add(o.re), im: self.im.add(o.im) }
    }

    /// `re^2 + im^2`.
    pub fn energy(self) -> (r: F32)
        ensures
            r == self.energy_spec(),
    {
        self.re.mul(self.re).add(self.im.mul(self.im))
    }
}

// ------------------------------------------------------------------ bands

/// Bins in band `b`.
pub open spec fn band_width(b: int) -> int {
    ERB_WIDTHS@[b] as int
}

/// The first bin of band `b`.
pub open spec fn band_start(b: nat) -> int
    decreases b,
{
    if b == 0 {
        0
    } else {
        band_start((b - 1) as nat) + band_width(b - 1)
    }
}

pub proof fn lemma_band_widths()
    ensures
        forall|b: int| 0 <= b < 20 ==> #[trigger] band_width(b) == 2,
        band_width(20) == 3,
        band_width(21) == 6,
        band_width(22) == 7,
        band_width(23) == 7,
        band_width(24) == 8,
        band_width(25) == 8,
        band_width(26) == 10,
        band_width(27) == 12,
        band_width(28) == 12,
        band_width(29) == 14,
        band_width(30) == 16,
        band_width(31) == 18,
{
}

pub proof fn lemma_low_bands(b: nat)
    requires
        b <= 20,
    ensures
        band_start(b) == 2 * b,
    decreases b,
{
    lemma_band_widths();
    if b > 0 {
        lemma_low_bands((b - 1) as nat);
        assert(band_width(b - 1) == 2);
    }
}

proof fn lemma_bands_ascend(b: nat)
    requires
        b <= 32,
    ensures
        0 <= band_start(b) <= band_start(32),
    decreases 32 - b,
{
    lemma_band_widths();
    lemma_starts_are_not_negative(b);
    if b < 32 {
        lemma_bands_ascend(b + 1);
        assert(band_start(b + 1) == band_start(b) + band_width(b as int));
        assert(band_width(b as int) >= 2);
    }
}

proof fn lemma_starts_are_not_negative(b: nat)
    requires
        b <= 32,
    ensures
        0 <= band_start(b),
    decreases b,
{
    lemma_band_widths();
    if b > 0 {
        lemma_starts_are_not_negative((b - 1) as nat);
        assert(band_width(b - 1) >= 2);
    }
}

/// The bands cover all bins, one after the other, and each band has at least two.
pub proof fn law_bands_cover_the_spectrum()
    ensures
        band_start(32) == FREQS,
        forall|b: int| 0 <= b < 32 ==> 2 <= #[trigger] band_width(b) <= 18,
        forall|b: nat| b <= 32 ==> 0 <= #[trigger] band_start(b) <= FREQS,
{
    lemma_band_widths();
    lemma_low_bands(20);
    assert(band_start(21) == 43);
    assert(band_start(22) == 49);
    assert(band_start(23) == 56);
    assert(band_start(24) == 63);
    assert(band_start(25) == 71);
    assert(band_start(26) == 79);
    assert(band_start(27) == 89);
    assert(band_start(28) == 101);
    assert(band_start(29) == 113);
    assert(band_start(30) == 127);
    assert(band_start(31) == 143);
    assert(band_start(32) == 161);
    assert forall|b: nat| b <= 32 implies 0 <= #[trigger] band_start(b) <= FREQS by {
        lemma_bands_ascend(b);
    }
}

/// The running sum of the energies of bins `from..to`.
pub open spec fn energy_sum(row: Seq<Complex>, from: int, to: int) -> F32
    decreases to - from,
{
    if to <= from {
        F32::zero_spec()
    } else {
        energy_sum(row, from, to - 1).add_spec(row[to - 1].energy_spec())
    }
}

/// The mean energy of band `b`, plus the smallest energy that is told apart from silence.
pub open spec fn band_energy(row: Seq<Complex>, b: int) -> F32 {
    energy_sum(row, band_start(b as nat), band_start(b as nat) + band_width(b)).div_spec(
        F32::of_int(band_width(b)),
    ).add_spec(bits(ENERGY_FLOOR))
}

/// The band energies of each frame.
pub open spec fn energy_rows(spec: Seq<Complex>) -> spec_fn(int) -> Seq<F32> {
    |ti: int| Seq::new(32, |b: int| band_energy(row_of(spec, ti, 161), b))
}

/// The band energies of `t` frames, `[T, 32]`.
pub open spec fn erb_energies_of(spec: Seq<Complex>, t: nat) -> Seq<F32> {
    rows(t, energy_rows(spec))
}

/// The band energies of `t` frames, `[T, 32]`, of which the features take the logarithm.
pub fn erb_energies(spec: &[Complex], t: usize) -> (out: Vec<F32>)
    requires
        t * FREQS <= spec@.len(),
    ensures
        out@ == erb_energies_of(spec@, t as nat),
        out@.len() == t * NB_ERB,
{
    let mut out: Vec<F32> = Vec::new();
    let ghost g = energy_rows(spec@);
    proof {
        law_bands_cover_the_spectrum();
    }
    for ti in 0..t
        invariant
            t * 161 <= spec@.len(),
            g == energy_rows(spec@),
            out@ == rows(ti as nat, g),
            band_start(32) == 161,
            forall|b: int| 0 <= b < 32 ==> 2 <= #[trigger] band_width(b) <= 18,
            forall|b: nat| b <= 32 ==> 0 <= #[trigger] band_start(b) <= 161,
    {
        let row = row_at(spec, ti, 161);
        let ghost before = out@;
        let mut f0: usize = 0;
        for b in 0..32usize
            invariant
                row@.len() == 161,
                f0 == band_start(b as nat),
                band_start(32) == 161,
                forall|k: int| 0 <= k < 32 ==> 2 <= #[trigger] band_width(k) <= 18,
                forall|k: nat| k <= 32 ==> 0 <= #[trigger] band_start(k) <= 161,
                out@ == before + Seq::new(b as nat, |k: int| band_energy(row@, k)),
        {
            let w = ERB_WIDTHS[b];
            assert(w == band_width(b as int));
            assert(band_start((b + 1) as nat) == f0 + w);
            let mut e = F32::zero();
            for f in f0..f0 + w
                invariant
                    row@.len() == 161,
                    f0 + w <= 161,
                    f0 <= f,
                    e == energy_sum(row@, f0 as int, f as int),
            {
                e = e.add(row[f].energy());
            }
            f0 = f0 + w;
            out.push(e.div(F32::from_i64(w as i64)).add(F32::from_bits(ENERGY_FLOOR)));
            assert(out@ =~= before + Seq::new((b + 1) as nat, |k: int| band_energy(row@, k)));
        }
        assert(out@ =~= rows((ti + 1) as nat, g));
    }
    proof {
        lemma_rows_len(t as nat, 32, g);
    }
    out
}

/// The numbers of one frame, each as often as its band has bins.
pub open spec fn expanded_bands(m: Seq<F32>, ti: int) -> spec_fn(int) -> Seq<F32> {
    |b: int| filled(m[ti * 32 + b], band_width(b) as nat)
}

/// The expanded frames.
pub open spec fn expanded_rows(m: Seq<F32>) -> spec_fn(int) -> Seq<F32> {
    |ti: int| rows(32, expanded_bands(m, ti))
}

/// A 32-band mask across the 161 bins.
pub open spec fn erb_inv_of(m: Seq<F32>, t: nat) -> Seq<F32> {
    rows(t, expanded_rows(m))
}

proof fn lemma_expanded_len(m: Seq<F32>, ti: int, b: nat)
    requires
        b <= 32,
    ensures
        rows(b, expanded_bands(m, ti)).len() == band_start(b),
    decreases b,
{
    law_bands_cover_the_spectrum();
    if b > 0 {
        lemma_expanded_len(m, ti, (b - 1) as nat);
        assert(band_width(b - 1) >= 2);
    }
}

pub proof fn lemma_erb_inv_len(m: Seq<F32>, t: nat)
    ensures
        erb_inv_of(m, t).len() == t * FREQS,
        forall|ti: int| 0 <= ti < t ==> (#[trigger] expanded_rows(m)(ti)).len() == FREQS,
{
    law_bands_cover_the_spectrum();
    assert forall|ti: int| 0 <= ti < t implies (#[trigger] expanded_rows(m)(ti)).len() == 161 by {
        lemma_expanded_len(m, ti, 32);
    }
    lemma_rows_len(t, 161, expanded_rows(m));
}

/// Every bin of a band gets the band's gain.
pub proof fn law_bins_take_their_bands_gain(m: Seq<F32>, t: nat, ti: int, b: int, j: int)
    requires
        0 <= ti < t,
        0 <= b < 32,
        0 <= j < band_width(b),
    ensures
        0 <= band_start(b as nat) + j < FREQS,
        erb_inv_of(m, t)[ti * FREQS + (band_start(b as nat) + j)] == m[ti * NB_ERB + b],
{
    lemma_erb_inv_len(m, t);
    lemma_row_of_rows(t, 161, expanded_rows(m), ti);
    lemma_bin_gain(m, ti, b, j, 32);
    law_bands_cover_the_spectrum();
    assert(band_start((b + 1) as nat) == band_start(b as nat) + band_width(b));
    let at = band_start(b as nat) + j;
    assert(row_of(erb_inv_of(m, t), ti, 161)[at] == erb_inv_of(m, t)[ti * 161 + at]);
}

proof fn lemma_bin_gain(m: Seq<F32>, ti: int, b: int, j: int, n: nat)
    requires
        0 <= b < n <= 32,
        0 <= j < band_width(b),
    ensures
        0 <= band_start(b as nat) + j < rows(n, expanded_bands(m, ti)).len(),
        rows(n, expanded_bands(m, ti))[band_start(b as nat) + j] == m[ti * 32 + b],
    decreases n,
{
    law_bands_cover_the_spectrum();
    lemma_expanded_len(m, ti, (n - 1) as nat);
    lemma_expanded_len(m, ti, n);
    if b < n - 1 {
        lemma_bin_gain(m, ti, b, j, (n - 1) as nat);
    }
}

/// Expands a 32-band mask across the 161 bins.
pub fn erb_inv(m: &[F32], t: usize) -> (g: Vec<F32>)
    requires
        t * NB_ERB <= m@.len(),
    ensures
        g@ == erb_inv_of(m@, t as nat),
        g@.len() == t * FREQS,
{
    let mut g: Vec<F32> = Vec::new();
    for ti in 0..t
        invariant
            t * 32 <= m@.len(),
            g@ == rows(ti as nat, expanded_rows(m@)),
    {
        let ghost before = g@;
        let ghost q = expanded_bands(m@, ti as int);
        for b in 0..32usize
            invariant
                ti < t,
                t * 32 <= m@.len(),
                q == expanded_bands(m@, ti as int),
                g@ == before + rows(b as nat, q),
        {
            let total = m.len();
            let v = m[ti * 32 + b];
            let w = ERB_WIDTHS[b];
            let ghost start = g@;
            for f in 0..w
                invariant
                    g@ == start + filled(v, f as nat),
            {
                g.push(v);
                assert(filled(v, (f + 1) as nat) =~= filled(v, f as nat).push(v));
            }
            assert(g@ =~= before + rows((b + 1) as nat, q));
        }
        assert(g@ =~= rows((ti + 1) as nat, expanded_rows(m@)));
    }
    proof {
        lemma_erb_inv_len(m@, t as nat);
    }
    g
}

// ------------------------------------------------------------------ deep filter

/// The filtered bin `f` of frame `ti` after `n` taps: tap `o` weighs frame `ti - 4 + o`, as far as
/// that frame exists.
pub open spec fn filtered(
    spec: Seq<Complex>,
    coefs: Seq<F32>,
    ti: int,
    f: int,
    n: nat,
) -> Complex
    decreases n,
{
    if n == 0 {
        Complex { re: F32::zero_spec(), im: F32::zero_spec() }
    } else {
        let acc = filtered(spec, coefs, ti, f, (n - 1) as nat);
        let tt = ti + (n - 1) - 4;
        if tt < 0 {
            acc
        } else {
            let s = spec[tt * 161 + f];
            let c = coefs[(ti * 64 + f) * 10 + (n - 1) * 2];
            let d = coefs[(ti * 64 + f) * 10 + (n - 1) * 2 + 1];
            Complex {
                re: acc.re.add_spec(s.re.mul_spec(c).sub_spec(s.im.mul_spec(d))),
                im: acc.im.add_spec(s.im.mul_spec(c).add_spec(s.re.mul_spec(d))),
            }
        }
    }
}

/// `out` with the first 64 bins of `t` frames replaced by the filtered ones.
pub open spec fn apply_df_of(
    spec: Seq<Complex>,
    coefs: Seq<F32>,
    t: int,
    out: Seq<Complex>,
) -> Seq<Complex> {
    Seq::new(
        out.len(),
        |i: int|
            if i / 161 < t && i % 161 < 64 {
                filtered(spec, coefs, i / 161, i % 161, 5)
            } else {
                out[i]
            },
    )
}

/// Causal order-5 complex filter across frames, applied to the first 64 bins. `coefs` has shape
/// `[T, 64, 10]`, laid out (order, real/imaginary) in the last axis.
pub fn apply_df(spec: &[Complex], coefs: &[F32], t: usize, out: &mut [Complex])
    requires
        t * FREQS <= spec@.len(),
        t * 640 <= coefs@.len(),
        t * FREQS <= old(out)@.len(),
    ensures
        final(out)@ == apply_df_of(spec@, coefs@, t as int, old(out)@),
{
    let total = spec.len();
    let weights = coefs.len();
    for ti in 0..t
        invariant
            total == spec@.len(),
            weights == coefs@.len(),
            t * 161 <= spec@.len(),
            t * 640 <= coefs@.len(),
            t * 161 <= out@.len(),
            out@.len() == old(out)@.len(),
            out@ == apply_df_of(spec@, coefs@, ti as int, old(out)@),
    {
        for f in 0..64usize
            invariant
                ti < t,
                total == spec@.len(),
                weights == coefs@.len(),
                t * 161 <= spec@.len(),
                t * 640 <= coefs@.len(),
                t * 161 <= out@.len(),
                out@.len() == old(out)@.len(),
                forall|i: int|
                    0 <= i < out@.len() ==> #[trigger] out@[i] == if i % 161 < 64 && (i / 161 < ti
                        || (i / 161 == ti && i % 161 < f)) {
                        filtered(spec@, coefs@, i / 161, i % 161, 5)
                    } else {
                        old(out)@[i]
                    },
        {
            let mut acc = Complex { re: F32::zero(), im: F32::zero() };
            for o in 0..5usize
                invariant
                    ti < t,
                    f < 64,
                    total == spec@.len(),
                    weights == coefs@.len(),
                    t * 161 <= spec@.len(),
                    t * 640 <= coefs@.len(),
                    acc == filtered(spec@, coefs@, ti as int, f as int, o as nat),
            {
                if ti >= 4 - o {
                    let tt = ti - (4 - o);
                    let s = spec[tt * 161 + f];
                    let c = coefs[(ti * 64 + f) * 10 + o * 2];
                    let d = coefs[(ti * 64 + f) * 10 + o * 2 + 1];
                    acc = Complex {
                        re: acc.re.add(s.re.mul(c).sub(s.im.mul(d))),
                        im: acc.im.add(s.im.mul(c).add(s.re.mul(d))),
                    };
                }
            }
            out[ti * 161 + f] = acc;
        }
        assert(out@ =~= apply_df_of(spec@, coefs@, ti + 1, old(out)@));
    }
    assert(out@ =~= apply_df_of(spec@, coefs@, t as int, old(out)@));
}

// ------------------------------------------------------------------ running state

/// The state of one stream: the window, how slowly the features' means move, those means, and the
/// samples that the next frame still needs.
pub struct Dsp {
    window: Vec<F32>,
    alpha: F32,
    erb_state: Vec<F32>,
    unit_state: Vec<F32>,
    ana_buf: Vec<F32>,
    syn_buf: Vec<F32>,
}

/// The state of one stream, as numbers.
#[verifier::ext_equal]
pub struct DspView {
    pub window: Seq<F32>,
    pub alpha: F32,
    pub erb_state: Seq<F32>,
    pub unit_state: Seq<F32>,
    pub ana_buf: Seq<F32>,
    pub syn_buf: Seq<F32>,
}

impl DspView {
    /// The buffers have their sizes.
    pub open spec fn wf(self) -> bool {
        &&& self.window.len() == 320
        &&& self.erb_state.len() == 32
        &&& self.unit_state.len() == 64
        &&& self.ana_buf.len() == 320
        &&& self.syn_buf.len() == 320
    }
}

impl View for Dsp {
    type V = DspView;

    closed spec fn view(&self) -> DspView {
        DspView {
            window: self.window@,
            alpha: self.alpha,
            erb_state: self.erb_state@,
            unit_state: self.unit_state@,
            ana_buf: self.ana_buf@,
            syn_buf: self.syn_buf@,
        }
    }
}

/// Place `i` of a straight line from `first` to `last` over `n` places.
pub open spec fn on_line(first: F32, last: F32, n: int, i: int) -> F32 {
    first.add_spec(last.sub_spec(first).mul_spec(F32::of_int(i)).div_spec(F32::of_int(n - 1)))
}

/// A straight line from `first` to `last` over `n` places.
pub open spec fn line_of(first: F32, last: F32, n: nat) -> Seq<F32> {
    Seq::new(n, |i: int| on_line(first, last, n as int, i))
}

fn line(first: F32, last: F32, n: usize) -> (r: Vec<F32>)
    requires
        2 <= n <= 64,
    ensures
        r@ == line_of(first, last, n as nat),
{
    let step = last.sub(first);
    let end = F32::from_i64(n as i64 - 1);
    let mut r: Vec<F32> = Vec::new();
    for i in 0..n
        invariant
            n <= 64,
            step == last.sub_spec(first),
            end == F32::of_int(n - 1),
            r@ == Seq::new(i as nat, |k: int| on_line(first, last, n as int, k)),
    {
        r.push(first.add(step.mul(F32::from_i64(i as i64)).div(end)));
        assert(r@ =~= Seq::new((i + 1) as nat, |k: int| on_line(first, last, n as int, k)));
    }
    r
}

/// A stream before its first sample.
pub open spec fn fresh(window: Seq<F32>, alpha: F32) -> DspView {
    DspView {
        window,
        alpha,
        erb_state: line_of(bits(ERB_FIRST), bits(ERB_LAST), 32),
        unit_state: line_of(bits(UNIT_FIRST), bits(UNIT_LAST), 64),
        ana_buf: zeros(320),
        syn_buf: zeros(320),
    }
}

/// What the analysis sees at frame `n - 1`: the samples of that hop and of the one before.
pub open spec fn buffer_after(audio: Seq<F32>, start: Seq<F32>, n: nat) -> Seq<F32>
    decreases n,
{
    if n == 0 {
        start
    } else {
        buffer_after(audio, start, (n - 1) as nat).skip(160) + row_of(audio, n - 1, 160)
    }
}

/// `x` times the window.
pub open spec fn windowed(x: Seq<F32>, window: Seq<F32>) -> Seq<F32> {
    Seq::new(320, |i: int| x[i].mul_spec(window[i]))
}

/// The windowed frames.
pub open spec fn analysis_rows(audio: Seq<F32>, d: DspView) -> spec_fn(int) -> Seq<F32> {
    |ti: int| windowed(buffer_after(audio, d.ana_buf, (ti + 1) as nat), d.window)
}

/// The windowed frames of the whole hops of `audio`, `[T, 320]`.
pub open spec fn analysis_of(audio: Seq<F32>, d: DspView) -> Seq<F32> {
    rows(audio.len() / 160, analysis_rows(audio, d))
}

/// From the second frame on, the analysis sees exactly the last two hops of the audio.
pub proof fn law_frames_see_two_hops(audio: Seq<F32>, start: Seq<F32>, n: nat)
    requires
        start.len() == 320,
        2 <= n <= audio.len() / 160,
    ensures
        buffer_after(audio, start, n) == audio.subrange((n - 2) * 160, n as int * 160),
{
    lemma_buffer_len(audio, start, (n - 2) as nat);
    lemma_buffer_len(audio, start, (n - 1) as nat);
    let one = buffer_after(audio, start, (n - 1) as nat);
    assert(one.skip(160) =~= row_of(audio, n - 2, 160));
    assert(buffer_after(audio, start, n) =~= audio.subrange((n - 2) * 160, n as int * 160));
}

pub proof fn lemma_buffer_len(audio: Seq<F32>, start: Seq<F32>, n: nat)
    requires
        start.len() == 320,
        n <= audio.len() / 160,
    ensures
        buffer_after(audio, start, n).len() == 320,
    decreases n,
{
    if n > 0 {
        lemma_buffer_len(audio, start, (n - 1) as nat);
    }
}

/// The scale of the spectra: one over the number of samples in a transform.
pub open spec fn bin_scale() -> F32 {
    bits(ONE).div_spec(F32::of_int(320))
}

/// The bins of each frame.
pub open spec fn spectrum_rows(fft: Seq<Complex>) -> spec_fn(int) -> Seq<Complex> {
    |ti: int| Seq::new(161, |f: int| fft[ti * 320 + f].scaled_spec(bin_scale()))
}

/// The first 161 bins of the transforms of `t` frames, scaled.
pub open spec fn spectrum_of(fft: Seq<Complex>, t: nat) -> Seq<Complex> {
    rows(t, spectrum_rows(fft))
}

/// The spectra `[T, 161]` out of the transforms `[T, 320]` of the windowed frames: the bins up to
/// half the sample rate, scaled by one over the transform's length.
pub fn spectrum(fft: &[Complex], t: usize) -> (spec: Vec<Complex>)
    requires
        t * FFT <= fft@.len(),
    ensures
        spec@ == spectrum_of(fft@, t as nat),
        spec@.len() == t * FREQS,
{
    let inv = F32::from_bits(ONE).div(F32::from_i64(320));
    let total = fft.len();
    let mut spec: Vec<Complex> = Vec::new();
    let ghost g = spectrum_rows(fft@);
    for ti in 0..t
        invariant
            total == fft@.len(),
            t * 320 <= fft@.len(),
            inv == bin_scale(),
            g == spectrum_rows(fft@),
            spec@ == rows(ti as nat, g),
    {
        let ghost before = spec@;
        for f in 0..161usize
            invariant
                ti < t,
                total == fft@.len(),
                t * 320 <= fft@.len(),
                inv == bin_scale(),
                spec@ == before + Seq::new(
                    f as nat,
                    |k: int| fft@[ti * 320 + k].scaled_spec(bin_scale()),
                ),
        {
            spec.push(fft[ti * 320 + f].scaled(inv));
            assert(spec@ =~= before + Seq::new(
                (f + 1) as nat,
                |k: int| fft@[ti * 320 + k].scaled_spec(bin_scale()),
            ));
        }
        assert(g(ti as int) =~= Seq::new(
            161,
            |k: int| fft@[ti * 320 + k].scaled_spec(bin_scale()),
        ));
        assert(spec@ =~= rows((ti + 1) as nat, g));
    }
    proof {
        lemma_rows_len(t as nat, 161, g);
    }
    spec
}

/// The moved mean: `x * (1 - alpha) + s * alpha`.
pub open spec fn moved(s: F32, x: F32, alpha: F32) -> F32 {
    x.mul_spec(bits(ONE).sub_spec(alpha)).add_spec(s.mul_spec(alpha))
}

fn move_mean(s: F32, x: F32, alpha: F32) -> (r: F32)
    ensures
        r == moved(s, x, alpha),
{
    x.mul(F32::from_bits(ONE).sub(alpha)).add(s.mul(alpha))
}

/// Level `b` of frame `ti` in dB, out of the logarithms of the band energies.
pub open spec fn level(logs: Seq<F32>, ti: int, b: int) -> F32 {
    bits(TEN).mul_spec(logs[ti * 32 + b])
}

/// The bands' mean levels after `n` frames.
pub open spec fn erb_state_after(logs: Seq<F32>, d: DspView, n: nat) -> Seq<F32>
    decreases n,
{
    if n == 0 {
        d.erb_state
    } else {
        let s = erb_state_after(logs, d, (n - 1) as nat);
        Seq::new(32, |b: int| moved(s[b], level(logs, n - 1, b), d.alpha))
    }
}

/// The band features of each frame: how far its level lies above the mean, over 40.
pub open spec fn erb_rows(logs: Seq<F32>, d: DspView) -> spec_fn(int) -> Seq<F32> {
    |ti: int|
        Seq::new(
            32,
            |b: int|
                level(logs, ti, b).sub_spec(
                    erb_state_after(logs, d, (ti + 1) as nat)[b],
                ).div_spec(bits(FORTY)),
        )
}

/// The band features, `[T, 32]`.
pub open spec fn erb_feat_of(logs: Seq<F32>, d: DspView, t: nat) -> Seq<F32> {
    rows(t, erb_rows(logs, d))
}

/// The magnitude of bin `f` of frame `ti`.
pub open spec fn magnitude(spec: Seq<Complex>, ti: int, f: int) -> F32 {
    spec[ti * 161 + f].energy_spec().sqrt_spec()
}

/// The bins' mean magnitudes after `n` frames.
pub open spec fn unit_state_after(spec: Seq<Complex>, d: DspView, n: nat) -> Seq<F32>
    decreases n,
{
    if n == 0 {
        d.unit_state
    } else {
        let s = unit_state_after(spec, d, (n - 1) as nat);
        Seq::new(64, |f: int| moved(s[f], magnitude(spec, n - 1, f), d.alpha))
    }
}

/// The real parts of the first 64 bins of each frame over the root of their mean magnitude.
pub open spec fn unit_re_rows(spec: Seq<Complex>, d: DspView) -> spec_fn(int) -> Seq<F32> {
    |ti: int|
        Seq::new(
            64,
            |f: int|
                spec[ti * 161 + f].re.div_spec(
                    unit_state_after(spec, d, (ti + 1) as nat)[f].sqrt_spec(),
                ),
        )
}

/// The imaginary parts of the first 64 bins of each frame over the root of their mean magnitude.
pub open spec fn unit_im_rows(spec: Seq<Complex>, d: DspView) -> spec_fn(int) -> Seq<F32> {
    |ti: int|
        Seq::new(
            64,
            |f: int|
                spec[ti * 161 + f].im.div_spec(
                    unit_state_after(spec, d, (ti + 1) as nat)[f].sqrt_spec(),
                ),
        )
}

/// The spectrum features, `[2, T, 64]`: the real plane, then the imaginary plane.
pub open spec fn spec_feat_of(spec: Seq<Complex>, d: DspView, t: nat) -> Seq<F32> {
    rows(t, unit_re_rows(spec, d)) + rows(t, unit_im_rows(spec, d))
}

/// The full spectrum of each frame: the bins, and their conjugates mirrored.
pub open spec fn spectra_rows(spec: Seq<Complex>) -> spec_fn(int) -> Seq<Complex> {
    |ti: int|
        Seq::new(
            320,
            |f: int|
                if f < 161 {
                    spec[ti * 161 + f]
                } else {
                    spec[ti * 161 + (320 - f)].conj_spec()
                },
        )
}

/// The full spectra, `[T, 320]`.
pub open spec fn spectra_of(spec: Seq<Complex>, t: nat) -> Seq<Complex> {
    rows(t, spectra_rows(spec))
}

/// The full spectra `[T, 320]` out of the bins `[T, 161]`, as the inverse transform takes them.
pub fn spectra(spec: &[Complex], t: usize) -> (out: Vec<Complex>)
    requires
        t * FREQS <= spec@.len(),
    ensures
        out@ == spectra_of(spec@, t as nat),
        out@.len() == t * FFT,
{
    let total = spec.len();
    let mut out: Vec<Complex> = Vec::new();
    let ghost g = spectra_rows(spec@);
    for ti in 0..t
        invariant
            total == spec@.len(),
            t * 161 <= spec@.len(),
            g == spectra_rows(spec@),
            out@ == rows(ti as nat, g),
    {
        let ghost before = out@;
        for f in 0..320usize
            invariant
                ti < t,
                total == spec@.len(),
                t * 161 <= spec@.len(),
                g == spectra_rows(spec@),
                out@ == before + g(ti as int).take(f as int),
        {
            let v = if f < 161 {
                spec[ti * 161 + f]
            } else {
                spec[ti * 161 + (320 - f)].conj()
            };
            out.push(v);
            assert(g(ti as int).take(f + 1) =~= g(ti as int).take(f as int).push(v));
        }
        assert(g(ti as int).take(320) =~= g(ti as int));
        assert(out@ =~= rows((ti + 1) as nat, g));
    }
    proof {
        lemma_rows_len(t as nat, 320, g);
    }
    out
}

/// The overlap buffer with frame `ti` added.
pub open spec fn overlapped(
    frames: Seq<F32>,
    window: Seq<F32>,
    s: Seq<F32>,
    ti: int,
) -> Seq<F32> {
    Seq::new(320, |i: int| s[i].add_spec(frames[ti * 320 + i].mul_spec(window[i])))
}

/// The overlap buffer after `n` frames.
pub open spec fn overlap_after(frames: Seq<F32>, d: DspView, n: nat) -> Seq<F32>
    decreases n,
{
    if n == 0 {
        d.syn_buf
    } else {
        overlapped(
            frames,
            d.window,
            overlap_after(frames, d, (n - 1) as nat),
            n - 1,
        ).skip(160) + zeros(160)
    }
}

/// The samples that each frame completes.
pub open spec fn synthesis_rows(frames: Seq<F32>, d: DspView) -> spec_fn(int) -> Seq<F32> {
    |ti: int|
        overlapped(frames, d.window, overlap_after(frames, d, ti as nat), ti).take(160)
}

/// The audio out of `t` frames, `[T, 320]`, by windowed overlap-add.
pub open spec fn synthesis_of(frames: Seq<F32>, d: DspView, t: nat) -> Seq<F32> {
    rows(t, synthesis_rows(frames, d))
}

/// Appends `s`.
fn extend(v: &mut Vec<F32>, s: &[F32])
    ensures
        final(v)@ == old(v)@ + s@,
{
    let n = s.len();
    assert(s@.take(0) =~= Seq::empty());
    assert(v@ =~= old(v)@ + s@.take(0));
    for i in 0..n
        invariant
            n == s@.len(),
            v@ == old(v)@ + s@.take(i as int),
    {
        v.push(s[i]);
        assert(s@.take(i + 1) =~= s@.take(i as int).push(s@[i as int]));
    }
    assert(s@.take(n as int) =~= s@);
}

impl Dsp {
    #[verifier::type_invariant]
    spec fn inv(self) -> bool {
        self@.wf()
    }

    /// A stream before its first sample. The window and the speed `alpha` of the means are real
    /// functions of the frame length and the sample rate, which the caller evaluates.
    pub fn new(window: Vec<F32>, alpha: F32) -> (r: Dsp)
        requires
            window@.len() == FFT,
        ensures
            r@ == fresh(window@, alpha),
            r@.wf(),
    {
        let zero = F32::zero();
        let ana_buf = vec![zero;320];
        let syn_buf = vec![zero;320];
        assert(ana_buf@ =~= zeros(320));
        assert(syn_buf@ =~= zeros(320));
        Dsp {
            window,
            alpha,
            erb_state: line(F32::from_bits(ERB_FIRST), F32::from_bits(ERB_LAST), 32),
            unit_state: line(F32::from_bits(UNIT_FIRST), F32::from_bits(UNIT_LAST), 64),
            ana_buf,
            syn_buf,
        }
    }

    /// The windowed frames `[T, 320]` of the whole hops of `audio`, as the transform takes them.
    pub fn analysis(&mut self, audio: &[F32]) -> (frames: Vec<F32>)
        ensures
            frames@ == analysis_of(audio@, old(self)@),
            frames@.len() == audio@.len() / 160 * 320,
            final(self)@ == (DspView {
                ana_buf: buffer_after(audio@, old(self)@.ana_buf, audio@.len() / 160),
                ..old(self)@
            }),
            old(self)@.wf() && final(self)@.wf(),
    {
        proof {
            use_type_invariant(&*self);
        }
        let t = audio.len() / 160;
        let mut frames: Vec<F32> = Vec::new();
        let mut buf: Vec<F32> = Vec::new();
        extend(&mut buf, self.ana_buf.as_slice());
        let ghost d = self@;
        let ghost g = analysis_rows(audio@, d);
        assert(buf@ =~= d.ana_buf);
        for ti in 0..t
            invariant
                t == audio@.len() / 160,
                d == self@,
                d.wf(),
                self.window@ == d.window,
                g == analysis_rows(audio@, d),
                buf@.len() == 320,
                buf@ == buffer_after(audio@, d.ana_buf, ti as nat),
                frames@ == rows(ti as nat, g),
        {
            let mut next: Vec<F32> = Vec::new();
            extend(&mut next, &buf[160..320]);
            extend(&mut next, row_at(audio, ti, 160));
            assert(buf@.subrange(160, 320) =~= buf@.skip(160));
            assert(next@ =~= buffer_after(audio@, d.ana_buf, (ti + 1) as nat));
            buf = next;
            let ghost before = frames@;
            for i in 0..320usize
                invariant
                    buf@.len() == 320,
                    self.window@.len() == 320,
                    frames@ == before + windowed(buf@, self.window@).take(i as int),
            {
                let v = buf[i].mul(self.window[i]);
                frames.push(v);
                assert(windowed(buf@, self.window@).take(i + 1) =~= windowed(
                    buf@,
                    self.window@,
                ).take(i as int).push(v));
            }
            assert(windowed(buf@, self.window@).take(320) =~= windowed(buf@, self.window@));
            assert(frames@ =~= rows((ti + 1) as nat, g));
        }
        self.ana_buf = buf;
        proof {
            lemma_rows_len(t as nat, 320, g);
        }
        frames
    }

    /// The band features `[T, 32]` out of the base-10 logarithms of [`erb_energies`]: levels in dB
    /// against their exponential mean.
    pub fn erb_feat(&mut self, logs: &[F32], t: usize) -> (out: Vec<F32>)
        requires
            t * NB_ERB <= logs@.len(),
        ensures
            out@ == erb_feat_of(logs@, old(self)@, t as nat),
            out@.len() == t * NB_ERB,
            final(self)@ == (DspView {
                erb_state: erb_state_after(logs@, old(self)@, t as nat),
                ..old(self)@
            }),
            old(self)@.wf() && final(self)@.wf(),
    {
        proof {
            use_type_invariant(&*self);
        }
        let total = logs.len();
        let alpha = self.alpha;
        let mut state: Vec<F32> = Vec::new();
        extend(&mut state, self.erb_state.as_slice());
        let ghost d = self@;
        let ghost g = erb_rows(logs@, d);
        assert(state@ =~= d.erb_state);
        let mut out: Vec<F32> = Vec::new();
        for ti in 0..t
            invariant
                total == logs@.len(),
                t * 32 <= logs@.len(),
                alpha == d.alpha,
                g == erb_rows(logs@, d),
                state@.len() == 32,
                state@ == erb_state_after(logs@, d, ti as nat),
                out@ == rows(ti as nat, g),
        {
            let ghost before = out@;
            let ghost s0 = state@;
            let ghost s1 = erb_state_after(logs@, d, (ti + 1) as nat);
            for b in 0..32usize
                invariant
                    ti < t,
                    total == logs@.len(),
                    t * 32 <= logs@.len(),
                    alpha == d.alpha,
                    g == erb_rows(logs@, d),
                    s1 == erb_state_after(logs@, d, (ti + 1) as nat),
                    s1 == Seq::new(32, |k: int| moved(s0[k], level(logs@, ti as int, k), d.alpha)),
                    state@.len() == 32,
                    forall|k: int|
                        0 <= k < 32 ==> #[trigger] state@[k] == if k < b {
                            s1[k]
                        } else {
                            s0[k]
                        },
                    out@ == before + g(ti as int).take(b as int),
            {
                let db = F32::from_bits(TEN).mul(logs[ti * 32 + b]);
                let m = move_mean(state[b], db, alpha);
                state.set(b, m);
                let v = db.sub(m).div(F32::from_bits(FORTY));
                out.push(v);
                assert(g(ti as int).take(b + 1) =~= g(ti as int).take(b as int).push(v));
            }
            assert(state@ =~= s1);
            assert(g(ti as int).take(32) =~= g(ti as int));
            assert(out@ =~= rows((ti + 1) as nat, g));
        }
        self.erb_state = state;
        proof {
            lemma_rows_len(t as nat, 32, g);
        }
        out
    }

    /// The spectrum features `[2, T, 64]`: the first 64 bins over the root of their exponential
    /// mean magnitude, the real plane, then the imaginary plane.
    pub fn spec_feat(&mut self, spec: &[Complex], t: usize) -> (out: Vec<F32>)
        requires
            t * FREQS <= spec@.len(),
        ensures
            out@ == spec_feat_of(spec@, old(self)@, t as nat),
            out@.len() == 2 * t * NB_DF,
            final(self)@ == (DspView {
                unit_state: unit_state_after(spec@, old(self)@, t as nat),
                ..old(self)@
            }),
            old(self)@.wf() && final(self)@.wf(),
    {
        proof {
            use_type_invariant(&*self);
        }
        let total = spec.len();
        let alpha = self.alpha;
        let mut state: Vec<F32> = Vec::new();
        extend(&mut state, self.unit_state.as_slice());
        let ghost d = self@;
        let ghost gr = unit_re_rows(spec@, d);
        let ghost gi = unit_im_rows(spec@, d);
        assert(state@ =~= d.unit_state);
        let mut out: Vec<F32> = Vec::new();
        let mut im: Vec<F32> = Vec::new();
        for ti in 0..t
            invariant
                total == spec@.len(),
                t * 161 <= spec@.len(),
                alpha == d.alpha,
                gr == unit_re_rows(spec@, d),
                gi == unit_im_rows(spec@, d),
                state@.len() == 64,
                state@ == unit_state_after(spec@, d, ti as nat),
                out@ == rows(ti as nat, gr),
                im@ == rows(ti as nat, gi),
        {
            let ghost out0 = out@;
            let ghost im0 = im@;
            let ghost s0 = state@;
            let ghost s1 = unit_state_after(spec@, d, (ti + 1) as nat);
            for f in 0..64usize
                invariant
                    ti < t,
                    total == spec@.len(),
                    t * 161 <= spec@.len(),
                    alpha == d.alpha,
                    gr == unit_re_rows(spec@, d),
                    gi == unit_im_rows(spec@, d),
                    s1 == unit_state_after(spec@, d, (ti + 1) as nat),
                    s1 == Seq::new(
                        64,
                        |k: int| moved(s0[k], magnitude(spec@, ti as int, k), d.alpha),
                    ),
                    state@.len() == 64,
                    forall|k: int|
                        0 <= k < 64 ==> #[trigger] state@[k] == if k < f {
                            s1[k]
                        } else {
                            s0[k]
                        },
                    out@ == out0 + gr(ti as int).take(f as int),
                    im@ == im0 + gi(ti as int).take(f as int),
            {
                let x = spec[ti * 161 + f];
                let m = move_mean(state[f], x.energy().sqrt(), alpha);
                state.set(f, m);
                let root = m.sqrt();
                let re = x.re.div(root);
                let vi = x.im.div(root);
                out.push(re);
                im.push(vi);
                assert(gr(ti as int).take(f + 1) =~= gr(ti as int).take(f as int).push(re));
                assert(gi(ti as int).take(f + 1) =~= gi(ti as int).take(f as int).push(vi));
            }
            assert(state@ =~= s1);
            assert(gr(ti as int).take(64) =~= gr(ti as int));
            assert(gi(ti as int).take(64) =~= gi(ti as int));
            assert(out@ =~= rows((ti + 1) as nat, gr));
            assert(im@ =~= rows((ti + 1) as nat, gi));
        }
        out.append(&mut im);
        self.unit_state = state;
        proof {
            lemma_rows_len(t as nat, 64, gr);
            lemma_rows_len(t as nat, 64, gi);
        }
        out
    }

    /// The audio out of the inverse transforms' real parts `[T, 320]`, by windowed overlap-add.
    /// The output is one hop late.
    pub fn synthesis(&mut self, frames: &[F32], t: usize) -> (out: Vec<F32>)
        requires
            t * FFT <= frames@.len(),
        ensures
            out@ == synthesis_of(frames@, old(self)@, t as nat),
            out@.len() == t * HOP,
            final(self)@ == (DspView {
                syn_buf: overlap_after(frames@, old(self)@, t as nat),
                ..old(self)@
            }),
            old(self)@.wf() && final(self)@.wf(),
    {
        proof {
            use_type_invariant(&*self);
        }
        let total = frames.len();
        let mut buf: Vec<F32> = Vec::new();
        extend(&mut buf, self.syn_buf.as_slice());
        let ghost d = self@;
        let ghost g = synthesis_rows(frames@, d);
        assert(buf@ =~= d.syn_buf);
        let mut out: Vec<F32> = Vec::new();
        for ti in 0..t
            invariant
                total == frames@.len(),
                t * 320 <= frames@.len(),
                d == self@,
                d.wf(),
                self.window@ == d.window,
                g == synthesis_rows(frames@, d),
                buf@.len() == 320,
                buf@ == overlap_after(frames@, d, ti as nat),
                out@ == rows(ti as nat, g),
        {
            let ghost s0 = buf@;
            let ghost full = overlapped(frames@, d.window, s0, ti as int);
            for i in 0..320usize
                invariant
                    ti < t,
                    total == frames@.len(),
                    t * 320 <= frames@.len(),
                    self.window@ == d.window,
                    d.window.len() == 320,
                    full == overlapped(frames@, d.window, s0, ti as int),
                    buf@.len() == 320,
                    forall|k: int|
                        0 <= k < 320 ==> #[trigger] buf@[k] == if k < i {
                            full[k]
                        } else {
                            s0[k]
                        },
            {
                let v = buf[i].add(frames[ti * 320 + i].mul(self.window[i]));
                buf.set(i, v);
            }
            assert(buf@ =~= full);
            extend(&mut out, &buf[0..160]);
            assert(full.subrange(0, 160) =~= full.take(160));
            let mut next: Vec<F32> = Vec::new();
            extend(&mut next, &buf[160..320]);
            let rest = vec![F32::zero();160];
            assert(rest@ =~= zeros(160));
            extend(&mut next, rest.as_slice());
            assert(full.subrange(160, 320) =~= full.skip(160));
            buf = next;
            assert(buf@ =~= overlap_after(frames@, d, (ti + 1) as nat));
            assert(out@ =~= rows((ti + 1) as nat, g));
        }
        self.syn_buf = buf;
        proof {
            lemma_rows_len(t as nat, 160, g);
        }
        out
    }
}

} // verus!
