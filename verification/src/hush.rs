//! The loaded model, and the path of a signal through it.
//!
//! A signal is enhanced in these steps. The real-valued parts in between, the Fourier transforms
//! and the logarithm, are the caller's.
//!
//! 1. [`Hush::start`] takes the audio and gives the windowed frames, which the caller transforms.
//! 2. [`spectrum`](crate::dsp::spectrum) takes the transforms and gives the noisy spectra, and
//!    [`erb_energies`](crate::dsp::erb_energies) their band energies, of which the caller takes the
//!    logarithm.
//! 3. [`Hush::enhance_spectrum`] gives the enhanced spectra, and
//!    [`spectra`](crate::dsp::spectra) what the caller transforms back.
//! 4. [`Dsp::synthesis`] gives the audio.
use std::sync::Arc;
use vstd::arithmetic::mul::*;
use vstd::arithmetic::power2::pow2;
use vstd::prelude::*;

use crate::bank::{bank_of, gl_fits, BankView};
use crate::decoders::{
    decoders_gru_r, decoders_required, df_dec_of, df_dec_sized, erb_dec_of, erb_dec_sized,
    Decoders,
};
use crate::dsp::{
    analysis_of, apply_df, apply_df_of, buffer_after, erb_feat_of, erb_inv, erb_inv_of,
    erb_state_after, fresh, spec_feat_of, unit_state_after, Complex, Dsp, DspView, FFT, FREQS, HOP,
    NB_ERB,
};
use crate::encoder::{
    encode_of, encoder_gru_r, encoder_required, encoder_sized, frames_fit, EncOutView, Encoder,
};
use crate::error::{Error, ErrorView};
use crate::float::{law_plus_zero, law_times_one, law_times_zero, F32};
use crate::layers::gl_width;
use crate::simd::{bits, has_avx2, CpuFeatures, ONE};
use crate::weights::{load_spec, ArenaView, Weights};

verus! {

/// 20, the decibels in a factor of ten of amplitude.
pub const TWENTY: u32 = 0x41a0_0000;

/// Another owner of the same value: `Arc::clone`, which gives another pointer to the value that
/// the given one points to.
#[verifier::external_body]
fn share(w: &Arc<Weights>) -> (r: Arc<Weights>)
    ensures
        r == *w,
{
    Arc::clone(w)
}

/// A loaded model: the banks of its two stages.
pub struct HushView {
    pub enc: BankView,
    pub dec: BankView,
}

/// A loaded model, ready to enhance audio.
///
/// Holds the [`Encoder`] and [`Decoders`] over one shared weight arena. Enhancing takes `&self`,
/// and the state of a signal is in its own [`Dsp`].
pub struct Hush {
    encoder: Encoder,
    decoders: Decoders,
}

impl View for Hush {
    type V = HushView;

    closed spec fn view(&self) -> HushView {
        HushView { enc: self.encoder@, dec: self.decoders@ }
    }
}

/// The model over an arena, or the first thing that is wrong with it: the encoder's tensors are
/// looked at first.
pub open spec fn hush_of(a: ArenaView) -> Result<HushView, ErrorView> {
    match bank_of(a, encoder_required(), encoder_gru_r()) {
        Err(e) => Err(e),
        Ok(enc) => match bank_of(a, decoders_required(), decoders_gru_r()) {
            Err(e) => Err(e),
            Ok(dec) => Ok(HushView { enc, dec }),
        },
    }
}

/// The width of the embedding.
pub open spec fn emb_width(h: HushView) -> int {
    gl_width(h.enc, "enc/emb_gru.linear_out.0.weight"@)
}

/// Whether the model's tensors hold what a run over `t` frames reads.
pub open spec fn model_sized(h: HushView, t: int) -> bool {
    &&& frames_fit(t)
    &&& encoder_sized(h.enc, t)
    &&& t * emb_width(h) <= usize::MAX
    &&& erb_dec_sized(h.dec, t, (t * emb_width(h)) as nat)
    &&& df_dec_sized(h.dec, t, (t * emb_width(h)) as nat)
}

/// The model over an arena whose tensors hold what a run over one frame reads.
pub open spec fn loaded_of(a: ArenaView) -> Result<HushView, ErrorView> {
    match hush_of(a) {
        Err(e) => Err(e),
        Ok(h) => if model_sized(h, 1) {
            Ok(h)
        } else {
            Err(ErrorView::Weights("tensors do not have the model's sizes"@))
        },
    }
}

/// Whether the counts of a run over `t` frames fit the machine: those of the fixed sizes, the
/// embedding, and the rows of every grouped linear layer.
pub open spec fn counts_fit(h: HushView, t: int) -> bool {
    &&& frames_fit(t)
    &&& t * emb_width(h) <= usize::MAX
    &&& t * h.enc.w.tensors["enc/df_fc_emb.0.weight"@].shape[0] <= usize::MAX
    &&& t * h.enc.w.tensors["enc/emb_gru.linear_in.0.weight"@].shape[0] <= usize::MAX
    &&& t * h.enc.w.tensors["enc/emb_gru.linear_out.0.weight"@].shape[0] <= usize::MAX
    &&& t * h.dec.w.tensors["erb_dec/emb_gru.linear_in.0.weight"@].shape[0] <= usize::MAX
    &&& t * h.dec.w.tensors["erb_dec/emb_gru.linear_out.0.weight"@].shape[0] <= usize::MAX
    &&& t * h.dec.w.tensors["df_dec/df_gru.linear_in.0.weight"@].shape[0] <= usize::MAX
    &&& t * h.dec.w.tensors["df_dec/df_out.0.weight"@].shape[0] <= usize::MAX
}

proof fn lemma_gl_any_frames(a: ArenaView, t: int, width: int, name: Seq<char>)
    requires
        t > 0,
        width >= 0,
    ensures
        gl_fits(a, (t * width) as nat, t, name) <==> gl_fits(a, width as nat, 1, name) && t
            * a.tensors[name].shape[0] <= usize::MAX,
{
    let s = a.tensors[name].shape;
    let g = s[0] * s[1];
    lemma_mul_nonnegative(t, width);
    lemma_mul_is_associative(t, s[0] as int, s[1] as int);
    assert(t * g <= t * width <==> g <= width) by (nonlinear_arith)
        requires
            t > 0,
    ;
}

/// A model whose tensors hold what a run over one frame reads can run over any number of frames
/// whose counts fit the machine, and over no other number.
pub proof fn law_one_frame_decides_the_sizes(h: HushView, t: int)
    requires
        t > 0,
    ensures
        model_sized(h, t) <==> model_sized(h, 1) && counts_fit(h, t),
{
    let w = emb_width(h);
    lemma_mul_nonnegative(
        h.enc.w.tensors["enc/emb_gru.linear_out.0.weight"@].shape[0] as int,
        h.enc.w.tensors["enc/emb_gru.linear_out.0.weight"@].shape[2] as int,
    );
    lemma_mul_basics(w);
    lemma_gl_any_frames(h.dec.w, t, w, "erb_dec/emb_gru.linear_in.0.weight"@);
    lemma_gl_any_frames(h.dec.w, t, w, "df_dec/df_gru.linear_in.0.weight"@);
    if t * w <= usize::MAX {
        if w > 0 {
            assert(w <= t * w) by (nonlinear_arith)
                requires
                    t >= 1,
                    w > 0,
            ;
        }
    }
}

/// Once a model is loaded, no run over it can fail: whatever the frames, their tensors are there, as
/// long as their counts fit the machine.
pub proof fn law_a_loaded_model_runs(a: ArenaView, t: int)
    ensures
        loaded_of(a) matches Ok(h) ==> (counts_fit(h, t) ==> model_sized(h, t)),
{
    if loaded_of(a) is Ok && counts_fit(loaded_of(a)->Ok_0, t) {
        law_one_frame_decides_the_sizes(loaded_of(a)->Ok_0, t);
    }
}

/// The encoder's outputs for spectra `spec` whose band energies have the logarithms `logs`.
pub open spec fn encoded(
    b: BankView,
    d: DspView,
    spec: Seq<Complex>,
    logs: Seq<F32>,
    t: nat,
) -> EncOutView {
    encode_of(b, erb_feat_of(logs, d, t), spec_feat_of(spec, d, t), t)
}

/// The spectra under the band mask, the first 64 bins under the deep filter.
pub open spec fn merged_of(
    spec: Seq<Complex>,
    mask: Seq<F32>,
    coefs: Seq<F32>,
    t: nat,
) -> Seq<Complex> {
    let gains = erb_inv_of(mask, t);
    apply_df_of(
        spec,
        coefs,
        t as int,
        Seq::new(t * FREQS as nat, |i: int| spec[i].scaled_spec(gains[i])),
    )
}

/// `noisy * lim + enhanced * (1 - lim)`; without a limit, `enhanced`.
pub open spec fn limited_of(
    noisy: Seq<Complex>,
    enhanced: Seq<Complex>,
    lim: Option<F32>,
) -> Seq<Complex> {
    match lim {
        None => enhanced,
        Some(l) => Seq::new(
            enhanced.len(),
            |i: int|
                noisy[i].scaled_spec(l).plus_spec(
                    enhanced[i].scaled_spec(bits(ONE).sub_spec(l)),
                ),
        ),
    }
}

/// The enhanced spectra.
pub open spec fn enhanced_of(
    h: HushView,
    d: DspView,
    spec: Seq<Complex>,
    logs: Seq<F32>,
    t: nat,
    lim: Option<F32>,
) -> Seq<Complex> {
    let e = encoded(h.enc, d, spec, logs, t);
    limited_of(spec, merged_of(spec, erb_dec_of(h.dec, e, t), df_dec_of(h.dec, e, t), t), lim)
}

/// The state of the stream after the features of `t` frames.
pub open spec fn featured(d: DspView, spec: Seq<Complex>, logs: Seq<F32>, t: nat) -> DspView {
    DspView {
        erb_state: erb_state_after(logs, d, t),
        unit_state: unit_state_after(spec, d, t),
        ..d
    }
}

/// How many whole frames `samples` samples make, or that they make none.
pub fn frame_count(samples: usize) -> (r: Result<usize, Error>)
    ensures
        match r {
            Ok(t) => samples >= HOP && t == samples as int / HOP as int && t > 0,
            Err(e) => samples < HOP && e@ == (ErrorView::TooShort {
                samples: samples as nat,
                needed: HOP as nat,
            }),
        },
{
    let t = samples / HOP;
    if t == 0 {
        Err(Error::TooShort { samples, needed: HOP })
    } else {
        Ok(t)
    }
}

/// The power of ten whose share of the noisy signal a limit of `db` decibels keeps: `-|db| / 20`.
/// No limit keeps nothing, and neither does one that is not a number; one of no decibels keeps
/// all.
pub open spec fn limit_exponent_of(db: Option<F32>) -> Option<F32> {
    match db {
        None => None,
        Some(d) => if d.is_nan_spec() {
            None
        } else {
            Some(d.abs_spec().neg_spec().div_spec(bits(TWENTY)))
        },
    }
}

/// The power of ten whose share of the noisy signal a limit of `db` decibels keeps: `-|db| / 20`.
pub fn limit_exponent(db: Option<F32>) -> (r: Option<F32>)
    ensures
        r == limit_exponent_of(db),
{
    match db {
        None => None,
        Some(d) => {
            if d.is_nan() {
                None
            } else {
                Some(d.abs().neg().div(F32::from_bits(TWENTY)))
            }
        },
    }
}

/// The spectra under the band mask, the first 64 bins under the deep filter.
pub fn merge(spec: &[Complex], mask: &[F32], coefs: &[F32], t: usize) -> (out: Vec<Complex>)
    requires
        t * FREQS <= spec@.len(),
        t * NB_ERB <= mask@.len(),
        t * 640 <= coefs@.len(),
    ensures
        out@ == merged_of(spec@, mask@, coefs@, t as nat),
        out@.len() == t * FREQS,
{
    let gains = erb_inv(mask, t);
    let n = gains.len();
    let mut out: Vec<Complex> = Vec::new();
    for i in 0..n
        invariant
            n == gains@.len(),
            n <= spec@.len(),
            gains@ == erb_inv_of(mask@, t as nat),
            out@ == Seq::new(i as nat, |k: int| spec@[k].scaled_spec(gains@[k])),
    {
        out.push(spec[i].scaled(gains[i]));
        assert(out@ =~= Seq::new((i + 1) as nat, |k: int| spec@[k].scaled_spec(gains@[k])));
    }
    assert(out@ =~= Seq::new(t as nat * FREQS as nat, |k: int| spec@[k].scaled_spec(gains@[k])));
    apply_df(spec, coefs, t, out.as_mut_slice());
    out
}

/// `noisy * lim + enhanced * (1 - lim)`; without a limit, `enhanced`.
pub fn limit(noisy: &[Complex], enhanced: Vec<Complex>, lim: Option<F32>) -> (out: Vec<Complex>)
    requires
        enhanced@.len() <= noisy@.len(),
    ensures
        out@ == limited_of(noisy@, enhanced@, lim),
        out@.len() == enhanced@.len(),
{
    match lim {
        None => enhanced,
        Some(l) => {
            let rest = F32::from_bits(ONE).sub(l);
            let n = enhanced.len();
            let mut out: Vec<Complex> = Vec::new();
            for i in 0..n
                invariant
                    n == enhanced@.len(),
                    n <= noisy@.len(),
                    rest == bits(ONE).sub_spec(l),
                    out@ == limited_of(noisy@, enhanced@, Some(l)).take(i as int),
            {
                let v = noisy[i].scaled(l).plus(enhanced[i].scaled(rest));
                out.push(v);
                assert(limited_of(noisy@, enhanced@, Some(l)).take(i + 1) =~= limited_of(
                    noisy@,
                    enhanced@,
                    Some(l),
                ).take(i as int).push(v));
            }
            assert(limited_of(noisy@, enhanced@, Some(l)).take(n as int) =~= limited_of(
                noisy@,
                enhanced@,
                Some(l),
            ));
            out
        },
    }
}

impl Hush {
    /// Required sample rate, in Hz. Audio at any other rate must be resampled first.
    pub const SAMPLE_RATE: u32 = 16_000;

    /// Algorithmic latency: the output lags the input by this many samples (10 ms).
    pub const LATENCY_SAMPLES: usize = HOP;

    /// Samples per processed frame (10 ms).
    pub const FRAME_SAMPLES: usize = HOP;

    /// Builds the two stages over loaded weights.
    pub fn build(weights: Weights) -> (r: Result<Hush, Error>)
        ensures
            match r {
                Ok(h) => hush_of(weights@) == Ok::<HushView, ErrorView>(h@),
                Err(e) => hush_of(weights@) == Err::<HushView, ErrorView>(e@),
            },
    {
        let w = Arc::new(weights);
        match Encoder::new(share(&w)) {
            Err(e) => Err(e),
            Ok(encoder) => match Decoders::new(w) {
                Err(e) => Err(e),
                Ok(decoders) => Ok(Hush { encoder, decoders }),
            },
        }
    }

    /// [`build`](Hush::build), and it is also an error if a tensor does not hold what a run reads: a
    /// truncated or mismatched weight file is told here, not in the middle of a run.
    pub fn checked_build(weights: Weights) -> (r: Result<Hush, Error>)
        ensures
            match r {
                Ok(h) => loaded_of(weights@) == Ok::<HushView, ErrorView>(h@),
                Err(e) => loaded_of(weights@) == Err::<HushView, ErrorView>(e@),
            },
    {
        match Hush::build(weights) {
            Err(e) => Err(e),
            Ok(h) => if h.is_sized(1) {
                Ok(h)
            } else {
                Err(Error::Weights("tensors do not have the model's sizes".to_owned()))
            },
        }
    }

    /// Loads from an in-memory weight blob and manifest.
    pub fn from_bytes(weights_bin: &[u8], manifest: &str) -> (r: Result<Hush, Error>)
        ensures
            match load_spec(weights_bin@, manifest@) {
                Err(m) => r matches Err(e) && e@ == ErrorView::Weights(m),
                Ok(a) => match r {
                    Ok(h) => loaded_of(a) == Ok::<HushView, ErrorView>(h@),
                    Err(e) => loaded_of(a) == Err::<HushView, ErrorView>(e@),
                },
            },
    {
        match Weights::from_bytes(weights_bin, manifest) {
            Err(e) => Err(e),
            Ok(w) => Hush::checked_build(w),
        }
    }

    /// True if the accelerated kernels could run on this processor.
    pub fn is_accelerated(cpu: CpuFeatures) -> (r: bool)
        ensures
            r == (cpu.avx2 && cpu.fma),
    {
        has_avx2(cpu)
    }

    /// Whether the model's tensors hold what a run over `t` frames reads.
    pub fn is_sized(&self, t: usize) -> (r: bool)
        ensures
            r == model_sized(self@, t as int),
    {
        if t == 0 || t > usize::MAX / 1024 {
            return false;
        }
        if !self.encoder.is_sized(t) {
            return false;
        }
        let width = self.encoder.emb_width();
        if width > (usize::MAX / t) as u128 {
            proof {
                lemma_too_wide(t as int, width as int, usize::MAX as int);
            }
            return false;
        }
        proof {
            lemma_not_too_wide(t as int, width as int, usize::MAX as int);
        }
        self.decoders.are_sized(t, t * width as usize)
    }

    /// Starts on a mono 16 kHz signal: the state of its stream, and the windowed frames
    /// `[T, 320]` of its whole hops. A trailing partial hop is ignored.
    pub fn start(audio: &[F32], window: Vec<F32>, alpha: F32) -> (r: Result<
        (Dsp, Vec<F32>),
        Error,
    >)
        requires
            window@.len() == FFT,
        ensures
            match r {
                Ok((d, frames)) => {
                    &&& audio@.len() >= HOP
                    &&& frames@ == analysis_of(audio@, fresh(window@, alpha))
                    &&& frames@.len() == audio@.len() / 160 * 320
                    &&& d@ == (DspView {
                        ana_buf: buffer_after(
                            audio@,
                            fresh(window@, alpha).ana_buf,
                            audio@.len() / 160,
                        ),
                        ..fresh(window@, alpha)
                    })
                    &&& d@.wf()
                },
                Err(e) => audio@.len() < HOP && e@ == (ErrorView::TooShort {
                    samples: audio@.len(),
                    needed: HOP as nat,
                }),
            },
    {
        match frame_count(audio.len()) {
            Err(e) => Err(e),
            Ok(_) => {
                let mut d = Dsp::new(window, alpha);
                let frames = d.analysis(audio);
                Ok((d, frames))
            },
        }
    }

    /// The enhanced spectra `[T, 161]` of the noisy spectra `spec`, whose band energies have the
    /// base-10 logarithms `logs`. `lim` is the share of the noisy signal that is mixed back in.
    pub fn enhance_spectrum(
        &self,
        d: &mut Dsp,
        spec: &[Complex],
        logs: &[F32],
        t: usize,
        lim: Option<F32>,
    ) -> (out: Vec<Complex>)
        requires
            model_sized(self@, t as int),
            t * FREQS <= spec@.len(),
            t * NB_ERB <= logs@.len(),
        ensures
            out@ == enhanced_of(self@, old(d)@, spec@, logs@, t as nat, lim),
            out@.len() == t * FREQS,
            final(d)@ == featured(old(d)@, spec@, logs@, t as nat),
            final(d)@.wf(),
    {
        let ghost d0 = d@;
        let feat_erb = d.erb_feat(logs, t);
        let ghost d1 = d@;
        let feat_spec = d.spec_feat(spec, t);
        proof {
            lemma_means_do_not_mix(d0, d1, spec@, t as nat);
        }
        let e = self.encoder.encode(feat_erb.as_slice(), feat_spec.as_slice(), t);
        let mask = self.decoders.erb_dec(&e, t);
        let coefs = self.decoders.df_dec(&e, t);
        proof {
            lemma_mul_inequality(640, gl_width(self@.dec, "df_dec/df_out.0.weight"@), t as int);
            lemma_mul_is_commutative(
                gl_width(self@.dec, "df_dec/df_out.0.weight"@),
                t as int,
            );
        }
        let merged = merge(spec, mask.as_slice(), coefs.as_slice(), t);
        limit(spec, merged, lim)
    }

    /// Predicted local SNR per 10 ms frame, in dB. Runs only the encoder.
    pub fn local_snr(&self, d: &mut Dsp, spec: &[Complex], logs: &[F32], t: usize) -> (r: Vec<F32>)
        requires
            encoder_sized(self@.enc, t as int),
            frames_fit(t as int),
            t * FREQS <= spec@.len(),
            t * NB_ERB <= logs@.len(),
        ensures
            r@ == encoded(self@.enc, old(d)@, spec@, logs@, t as nat).lsnr,
            r@.len() == t,
            final(d)@ == featured(old(d)@, spec@, logs@, t as nat),
            final(d)@.wf(),
    {
        let ghost d0 = d@;
        let feat_erb = d.erb_feat(logs, t);
        let ghost d1 = d@;
        let feat_spec = d.spec_feat(spec, t);
        proof {
            lemma_means_do_not_mix(d0, d1, spec@, t as nat);
        }
        let e = self.encoder.encode(feat_erb.as_slice(), feat_spec.as_slice(), t);
        e.lsnr
    }
}

/// The spectrum features do not depend on the bands' means.
proof fn lemma_means_do_not_mix(a: DspView, b: DspView, spec: Seq<Complex>, t: nat)
    requires
        a.unit_state == b.unit_state,
        a.alpha == b.alpha,
    ensures
        unit_state_after(spec, a, t) == unit_state_after(spec, b, t),
        spec_feat_of(spec, a, t) == spec_feat_of(spec, b, t),
{
    assert forall|n: nat| #[trigger] unit_state_after(spec, a, n) == unit_state_after(
        spec,
        b,
        n,
    ) by {
        lemma_unit_states_agree(a, b, spec, n);
    }
    crate::rows::lemma_rows_eq(
        t,
        crate::dsp::unit_re_rows(spec, a),
        crate::dsp::unit_re_rows(spec, b),
    );
    crate::rows::lemma_rows_eq(
        t,
        crate::dsp::unit_im_rows(spec, a),
        crate::dsp::unit_im_rows(spec, b),
    );
}

proof fn lemma_unit_states_agree(a: DspView, b: DspView, spec: Seq<Complex>, n: nat)
    requires
        a.unit_state == b.unit_state,
        a.alpha == b.alpha,
    ensures
        unit_state_after(spec, a, n) == unit_state_after(spec, b, n),
    decreases n,
{
    if n > 0 {
        lemma_unit_states_agree(a, b, spec, (n - 1) as nat);
    }
}

proof fn lemma_too_wide(t: int, width: int, max: int)
    requires
        t > 0,
        width > max / t,
        max >= 0,
    ensures
        t * width > max,
{
    vstd::arithmetic::div_mod::lemma_fundamental_div_mod(max, t);
    assert(t * width > max) by (nonlinear_arith)
        requires
            t > 0,
            width >= max / t + 1,
            max == t * (max / t) + max % t,
            max % t < t,
    ;
}

proof fn lemma_not_too_wide(t: int, width: int, max: int)
    requires
        t > 0,
        0 <= width <= max / t,
        max >= 0,
    ensures
        0 <= t * width <= max,
{
    vstd::arithmetic::div_mod::lemma_fundamental_div_mod(max, t);
    assert(0 <= t * width <= max) by (nonlinear_arith)
        requires
            t > 0,
            0 <= width <= max / t,
            max == t * (max / t) + max % t,
            max % t >= 0,
    ;
}

/// One part of a mix: a finite number times zero, plus a number. A zero stays a zero.
proof fn lemma_nothing_added(x: F32, e: F32)
    requires
        x.is_finite_spec(),
        e.is_finite_spec(),
    ensures
        ({
            let r = x.mul_spec(F32::zero_spec()).add_spec(e.mul_spec(bits(ONE)));
            let s = e.mul_spec(bits(ONE)).add_spec(x.mul_spec(F32::zero_spec()));
            if e.is_zero_spec() {
                r.is_zero_spec() && s.is_zero_spec()
            } else {
                r == e && s == e
            }
        }),
{
    let z = x.mul_spec(F32::zero_spec());
    law_times_zero(x, F32::zero_spec());
    law_times_one(e);
    if e.is_zero_spec() {
        reveal(F32::add_spec);
        vstd::arithmetic::power2::lemma2_to64();
        assert(z.sig() == 0 && e.sig() == 0);
        assert(0 * pow2(0) == 0);
    } else {
        law_plus_zero(e, z);
    }
}

/// Whether two numbers are the same, or both zero.
pub open spec fn same_but_for_zeros(a: F32, b: F32) -> bool {
    if b.is_zero_spec() {
        a.is_zero_spec()
    } else {
        a == b
    }
}

/// A limit so large that its share of the noisy signal vanishes suppresses as fully as no limit: it
/// changes nothing but, here and there, the sign of a zero.
pub proof fn law_a_vanishing_share_changes_nothing(
    noisy: Seq<Complex>,
    enhanced: Seq<Complex>,
    i: int,
)
    requires
        0 <= i < enhanced.len(),
        noisy[i].re.is_finite_spec(),
        noisy[i].im.is_finite_spec(),
        enhanced[i].re.is_finite_spec(),
        enhanced[i].im.is_finite_spec(),
    ensures
        ({
            let out = limited_of(noisy, enhanced, Some(F32::zero_spec()))[i];
            same_but_for_zeros(out.re, enhanced[i].re) && same_but_for_zeros(
                out.im,
                enhanced[i].im,
            )
        }),
{
    let zero = F32::zero_spec();
    let (x, e) = (noisy[i], enhanced[i]);
    let one = bits(ONE);
    assert(one.is_finite_spec() && !one.is_zero_spec());
    law_plus_zero(one, zero.neg_spec());
    assert(one.sub_spec(zero) == one);
    lemma_nothing_added(x.re, e.re);
    lemma_nothing_added(x.im, e.im);
}

/// A limit of no decibels, whose share is one, gives back the noisy signal, but for the sign of a
/// zero here and there.
pub proof fn law_a_whole_share_keeps_the_noisy_signal(
    noisy: Seq<Complex>,
    enhanced: Seq<Complex>,
    i: int,
)
    requires
        0 <= i < enhanced.len(),
        noisy[i].re.is_finite_spec(),
        noisy[i].im.is_finite_spec(),
        enhanced[i].re.is_finite_spec(),
        enhanced[i].im.is_finite_spec(),
    ensures
        ({
            let out = limited_of(noisy, enhanced, Some(bits(ONE)))[i];
            same_but_for_zeros(out.re, noisy[i].re) && same_but_for_zeros(out.im, noisy[i].im)
        }),
{
    let (x, e) = (noisy[i], enhanced[i]);
    let one = bits(ONE);
    assert(one.sub_spec(one) == F32::zero_spec()) by {
        reveal(F32::add_spec);
    }
    lemma_nothing_added(e.re, x.re);
    lemma_nothing_added(e.im, x.im);
}

/// A limit of no decibels asks for the power of ten whose exponent is zero.
pub proof fn law_no_decibels_make_the_exponent_zero(d: F32)
    requires
        d.is_zero_spec(),
    ensures
        limit_exponent_of(Some(d)) matches Some(e) && e.is_zero_spec(),
{
    reveal(F32::div_spec);
    let n = d.abs_spec().neg_spec();
    assert(n.mag() == 0 && n.sig() == 0);
    assert(!bits(TWENTY).is_nan_spec() && !bits(TWENTY).is_inf_spec() && !bits(TWENTY).is_zero_spec());
    let k = bits(TWENTY).sig();
    assert(0nat * 0x1_0000_0000_0000_0000nat == 0);
    assert(0nat / k == 0 && 0nat % k == 0);
}

} // verus!
