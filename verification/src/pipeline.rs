//! What holds of the whole path from audio to audio, whatever the caller's transforms are.
use vstd::arithmetic::mul::*;
use vstd::prelude::*;

use crate::causal::{law_enhancing_spectra_is_causal, lemma_rows_start, starts_agree};
use crate::dsp::{
    analysis_of, analysis_rows, buffer_after, energy_rows, erb_energies_of, fresh,
    lemma_buffer_len, overlap_after, overlapped, spectra_of, spectra_rows, spectrum_of,
    spectrum_rows, synthesis_of, synthesis_rows, windowed, Complex, DspView,
};
use crate::float::F32;
use crate::hush::{enhanced_of, featured, model_sized, HushView};
use crate::layers::gl_width;
use crate::ranges::{between, lemma_product, lemma_zero};
use crate::rows::{lemma_row_fits, lemma_row_of_rows, lemma_rows_len, row_of, rows};
use crate::values::{lemma_add, lemma_close, lemma_mul, lemma_within};
use crate::weights::zeros;

verus! {

/// What the caller computes: the transform of a frame, the logarithm of an energy, the real part of
/// the inverse transform of a spectrum, and ten to a power.
pub struct Outside {
    pub forward: spec_fn(Seq<F32>) -> Seq<Complex>,
    pub log10: spec_fn(F32) -> F32,
    pub inverse: spec_fn(Seq<Complex>) -> Seq<F32>,
    pub pow10: spec_fn(F32) -> F32,
}

impl Outside {
    /// Transforms keep the length of a frame.
    pub open spec fn wf(self) -> bool {
        &&& forall|x: Seq<F32>| (#[trigger] (self.forward)(x)).len() == 320
        &&& forall|x: Seq<Complex>| (#[trigger] (self.inverse)(x)).len() == 320
    }
}

/// The transforms of the frames.
pub open spec fn forward_rows(o: Outside, frames: Seq<F32>) -> spec_fn(int) -> Seq<Complex> {
    |ti: int| (o.forward)(row_of(frames, ti, 320))
}

/// The inverse transforms of the spectra.
pub open spec fn inverse_rows(o: Outside, full: Seq<Complex>) -> spec_fn(int) -> Seq<F32> {
    |ti: int| (o.inverse)(row_of(full, ti, 320))
}

/// The stream after its audio was cut into frames.
pub open spec fn started(window: Seq<F32>, alpha: F32, audio: Seq<F32>) -> DspView {
    DspView {
        ana_buf: buffer_after(audio, fresh(window, alpha).ana_buf, audio.len() / 160),
        ..fresh(window, alpha)
    }
}

/// The noisy spectra of the whole hops of `audio`.
pub open spec fn noisy_of(o: Outside, window: Seq<F32>, alpha: F32, audio: Seq<F32>) -> Seq<
    Complex,
> {
    let t = audio.len() / 160;
    spectrum_of(rows(t, forward_rows(o, analysis_of(audio, fresh(window, alpha)))), t)
}

/// The logarithms of the band energies of `t` spectra.
pub open spec fn logs_of(o: Outside, spec: Seq<Complex>, t: nat) -> Seq<F32> {
    let e = erb_energies_of(spec, t);
    Seq::new(e.len(), |i: int| (o.log10)(e[i]))
}

/// The enhanced audio: frames, spectra, the network, spectra, frames, and overlap-add.
pub open spec fn enhance_of(
    h: HushView,
    o: Outside,
    window: Seq<F32>,
    alpha: F32,
    audio: Seq<F32>,
    lim: Option<F32>,
) -> Seq<F32> {
    let t = audio.len() / 160;
    let spec = noisy_of(o, window, alpha, audio);
    let logs = logs_of(o, spec, t);
    let d = started(window, alpha, audio);
    let full = spectra_of(enhanced_of(h, d, spec, logs, t, lim), t);
    synthesis_of(rows(t, inverse_rows(o, full)), featured(d, spec, logs, t), t)
}

/// The output has as many samples as the whole hops of the input.
pub proof fn law_output_covers_the_whole_hops(
    h: HushView,
    o: Outside,
    window: Seq<F32>,
    alpha: F32,
    audio: Seq<F32>,
    lim: Option<F32>,
)
    ensures
        enhance_of(h, o, window, alpha, audio, lim).len() == audio.len() / 160 * 160,
{
    let t = audio.len() / 160;
    let spec = noisy_of(o, window, alpha, audio);
    let logs = logs_of(o, spec, t);
    let d = started(window, alpha, audio);
    let full = spectra_of(enhanced_of(h, d, spec, logs, t, lim), t);
    lemma_rows_len(
        t,
        160,
        synthesis_rows(rows(t, inverse_rows(o, full)), featured(d, spec, logs, t)),
    );
}

/// The output is one hop late: hop `ti` of it is put together from the second half of frame
/// `ti - 1` and the first half of frame `ti`, and both halves hold the windowed samples of hop
/// `ti - 1` of the input.
pub proof fn law_output_is_one_hop_late(
    audio: Seq<F32>,
    frames: Seq<F32>,
    d: DspView,
    t: nat,
    ti: int,
    i: int,
)
    requires
        d.wf(),
        d.syn_buf == zeros(320),
        t == audio.len() / 160,
        t * 320 <= frames.len(),
        1 <= ti < t,
        0 <= i < 160,
    ensures
        row_of(analysis_of(audio, d), ti - 1, 320)[160 + i] == audio[(ti - 1) * 160 + i].mul_spec(
            d.window[160 + i],
        ),
        row_of(analysis_of(audio, d), ti, 320)[i] == audio[(ti - 1) * 160 + i].mul_spec(
            d.window[i],
        ),
        synthesis_of(frames, d, t)[ti * 160 + i] == F32::zero_spec().add_spec(
            row_of(frames, ti - 1, 320)[160 + i].mul_spec(d.window[160 + i]),
        ).add_spec(row_of(frames, ti, 320)[i].mul_spec(d.window[i])),
{
    let g = analysis_rows(audio, d);
    lemma_row_of_rows(t, 320, g, ti - 1);
    lemma_row_of_rows(t, 320, g, ti);
    lemma_buffer_len(audio, d.ana_buf, (ti - 1) as nat);
    lemma_buffer_len(audio, d.ana_buf, ti as nat);
    let one = buffer_after(audio, d.ana_buf, ti as nat);
    let two = buffer_after(audio, d.ana_buf, (ti + 1) as nat);
    assert(one[160 + i] == row_of(audio, ti - 1, 160)[i]);
    assert(two[i] == one.skip(160)[i]);
    assert(g(ti - 1)[160 + i] == one[160 + i].mul_spec(d.window[160 + i]));
    assert(g(ti)[i] == two[i].mul_spec(d.window[i]));
    lemma_row_fits(ti, t as int, 320);
    lemma_row_fits(ti - 1, t as int, 320);
    let s = synthesis_rows(frames, d);
    lemma_row_of_rows(t, 160, s, ti);
    lemma_rows_len(t, 160, s);
    assert(row_of(synthesis_of(frames, d, t), ti, 160)[i] == synthesis_of(frames, d, t)[ti * 160
        + i]);
    let before = overlap_after(frames, d, (ti - 1) as nat);
    lemma_overlap_ends_in_zeros(frames, d, (ti - 1) as nat);
    assert(before[160 + i] == F32::zero_spec());
    assert(overlap_after(frames, d, ti as nat)[i] == overlapped(
        frames,
        d.window,
        before,
        ti - 1,
    )[160 + i]);
}

proof fn lemma_overlap_ends_in_zeros(frames: Seq<F32>, d: DspView, n: nat)
    requires
        d.syn_buf == zeros(320),
    ensures
        overlap_after(frames, d, n).len() == 320,
        overlap_after(frames, d, n).skip(160) == zeros(160),
{
    assert(overlap_after(frames, d, n).skip(160) =~= zeros(160));
}

proof fn lemma_buffers_agree(x: Seq<F32>, y: Seq<F32>, start: Seq<F32>, k: nat, n: nat)
    requires
        starts_agree(x, y, n as int * 160),
        k <= n,
    ensures
        buffer_after(x, start, k) == buffer_after(y, start, k),
    decreases k,
{
    if k > 0 {
        lemma_buffers_agree(x, y, start, (k - 1) as nat, n);
        lemma_same_start_row(x, y, n as int * 160, k - 1, 160);
    }
}

proof fn lemma_same_start_row<A>(x: Seq<A>, y: Seq<A>, k: int, r: int, f: int)
    requires
        starts_agree(x, y, k),
        0 <= r * f <= (r + 1) * f <= k,
    ensures
        row_of(x, r, f) == row_of(y, r, f),
{
    assert(row_of(x, r, f) =~= row_of(x.take(k), r, f));
    assert(row_of(y, r, f) =~= row_of(y.take(k), r, f));
}

proof fn lemma_analysis_agrees(x: Seq<F32>, y: Seq<F32>, d: DspView, n: nat)
    requires
        starts_agree(x, y, n as int * 160),
    ensures
        starts_agree(analysis_of(x, d), analysis_of(y, d), n as int * 320),
{
    let (a, b) = (analysis_rows(x, d), analysis_rows(y, d));
    assert forall|ti: int| 0 <= ti < n implies #[trigger] a(ti) == b(ti) by {
        lemma_buffers_agree(x, y, d.ana_buf, (ti + 1) as nat, n);
    }
    lemma_rows_start(x.len() / 160, y.len() / 160, 320, a, b, n);
}

proof fn lemma_noisy_agrees(
    o: Outside,
    window: Seq<F32>,
    alpha: F32,
    x: Seq<F32>,
    y: Seq<F32>,
    n: nat,
)
    requires
        o.wf(),
        starts_agree(x, y, n as int * 160),
    ensures
        starts_agree(
            noisy_of(o, window, alpha, x),
            noisy_of(o, window, alpha, y),
            n as int * 161,
        ),
{
    let (t, u) = (x.len() / 160, y.len() / 160);
    let d = fresh(window, alpha);
    lemma_analysis_agrees(x, y, d, n);
    let (fx, fy) = (analysis_of(x, d), analysis_of(y, d));
    let (a, b) = (forward_rows(o, fx), forward_rows(o, fy));
    assert forall|ti: int| 0 <= ti < n implies #[trigger] a(ti) == b(ti) by {
        lemma_same_start_row(fx, fy, n as int * 320, ti, 320);
    }
    lemma_rows_start(t, u, 320, a, b, n);
    let (gx, gy) = (rows(t, a), rows(u, b));
    let (p, q) = (spectrum_rows(gx), spectrum_rows(gy));
    assert forall|ti: int| 0 <= ti < n implies #[trigger] p(ti) == q(ti) by {
        assert forall|f: int| 0 <= f < 161 implies #[trigger] p(ti)[f] == q(ti)[f] by {
            assert(gx.take(n as int * 320)[ti * 320 + f] == gy.take(n as int * 320)[ti * 320 + f]);
        }
        assert(p(ti) =~= q(ti));
    }
    lemma_rows_start(t, u, 161, p, q, n);
}

proof fn lemma_logs_agree(o: Outside, x: Seq<Complex>, t: nat, y: Seq<Complex>, u: nat, n: nat)
    requires
        n <= t,
        n <= u,
        starts_agree(x, y, n as int * 161),
    ensures
        starts_agree(logs_of(o, x, t), logs_of(o, y, u), n as int * 32),
{
    let (a, b) = (energy_rows(x), energy_rows(y));
    assert forall|ti: int| 0 <= ti < n implies #[trigger] a(ti) == b(ti) by {
        lemma_same_start_row(x, y, n as int * 161, ti, 161);
    }
    lemma_rows_start(t, u, 32, a, b, n);
    let (p, q) = (erb_energies_of(x, t), erb_energies_of(y, u));
    let k = n as int * 32;
    assert forall|i: int| 0 <= i < k implies #[trigger] logs_of(o, x, t).take(k)[i] == logs_of(
        o,
        y,
        u,
    ).take(k)[i] by {
        assert(p.take(k)[i] == q.take(k)[i]);
    }
    assert(logs_of(o, x, t).take(k) =~= logs_of(o, y, u).take(k));
}

proof fn lemma_overlaps_agree(
    x: Seq<F32>,
    c: DspView,
    y: Seq<F32>,
    d: DspView,
    k: nat,
    n: nat,
)
    requires
        starts_agree(x, y, n as int * 320),
        c.window == d.window,
        c.syn_buf == d.syn_buf,
        k <= n,
    ensures
        overlap_after(x, c, k) == overlap_after(y, d, k),
    decreases k,
{
    if k > 0 {
        lemma_overlaps_agree(x, c, y, d, (k - 1) as nat, n);
        lemma_overlapped_agrees(
            x,
            y,
            c.window,
            overlap_after(x, c, (k - 1) as nat),
            k - 1,
            n,
        );
    }
}

proof fn lemma_overlapped_agrees(
    x: Seq<F32>,
    y: Seq<F32>,
    window: Seq<F32>,
    s: Seq<F32>,
    ti: int,
    n: nat,
)
    requires
        starts_agree(x, y, n as int * 320),
        0 <= ti < n,
    ensures
        overlapped(x, window, s, ti) == overlapped(y, window, s, ti),
{
    let k = n as int * 320;
    assert forall|i: int| 0 <= i < 320 implies #[trigger] x[ti * 320 + i] == y[ti * 320 + i] by {
        assert(x.take(k)[ti * 320 + i] == y.take(k)[ti * 320 + i]);
    }
    assert(overlapped(x, window, s, ti) =~= overlapped(y, window, s, ti));
}

proof fn lemma_synthesis_agrees(
    x: Seq<F32>,
    c: DspView,
    t: nat,
    y: Seq<F32>,
    d: DspView,
    u: nat,
    n: nat,
)
    requires
        n <= t,
        n <= u,
        starts_agree(x, y, n as int * 320),
        c.window == d.window,
        c.syn_buf == d.syn_buf,
    ensures
        starts_agree(synthesis_of(x, c, t), synthesis_of(y, d, u), n as int * 160),
{
    let (a, b) = (synthesis_rows(x, c), synthesis_rows(y, d));
    assert forall|ti: int| 0 <= ti < n implies #[trigger] a(ti) == b(ti) by {
        lemma_overlaps_agree(x, c, y, d, ti as nat, n);
        lemma_overlapped_agrees(x, y, c.window, overlap_after(x, c, ti as nat), ti, n);
    }
    lemma_rows_start(t, u, 160, a, b, n);
}

/// Enhancing is causal: two recordings with the same first `n` hops give the same first `n` hops,
/// so that nothing that comes later, nor the end of the recording, changes what came before. The
/// embedding's first layer has the width that the model was made with.
pub proof fn law_enhancing_is_causal(
    h: HushView,
    o: Outside,
    window: Seq<F32>,
    alpha: F32,
    x: Seq<F32>,
    y: Seq<F32>,
    lim: Option<F32>,
    n: nat,
)
    requires
        o.wf(),
        model_sized(h, (x.len() / 160) as int),
        gl_width(h.enc, "enc/df_fc_emb.0.weight"@) == 128,
        starts_agree(x, y, n as int * 160),
    ensures
        starts_agree(
            enhance_of(h, o, window, alpha, x, lim),
            enhance_of(h, o, window, alpha, y, lim),
            n as int * 160,
        ),
{
    let (t, u) = (x.len() / 160, y.len() / 160);
    let (c, d) = (started(window, alpha, x), started(window, alpha, y));
    lemma_noisy_agrees(o, window, alpha, x, y, n);
    let (p, q) = (noisy_of(o, window, alpha, x), noisy_of(o, window, alpha, y));
    lemma_logs_agree(o, p, t, q, u, n);
    let (l1, l2) = (logs_of(o, p, t), logs_of(o, q, u));
    law_enhancing_spectra_is_causal(h, c, p, l1, t, d, q, l2, u, lim, n);
    let (e1, e2) = (enhanced_of(h, c, p, l1, t, lim), enhanced_of(h, d, q, l2, u, lim));
    let (a, b) = (spectra_rows(e1), spectra_rows(e2));
    assert forall|ti: int| 0 <= ti < n implies #[trigger] a(ti) == b(ti) by {
        lemma_same_start_row(e1, e2, n as int * 161, ti, 161);
        assert forall|f: int| 0 <= f < 161 implies #[trigger] e1[ti * 161 + f] == e2[ti * 161
            + f] by {
            assert(row_of(e1, ti, 161)[f] == row_of(e2, ti, 161)[f]);
        }
        assert(a(ti) =~= b(ti));
    }
    lemma_rows_start(t, u, 320, a, b, n);
    let (f1, f2) = (rows(t, a), rows(u, b));
    let (i1, i2) = (inverse_rows(o, f1), inverse_rows(o, f2));
    assert forall|ti: int| 0 <= ti < n implies #[trigger] i1(ti) == i2(ti) by {
        lemma_same_start_row(f1, f2, n as int * 320, ti, 320);
    }
    lemma_rows_start(t, u, 320, i1, i2, n);
    lemma_synthesis_agrees(
        rows(t, i1),
        featured(c, p, l1, t),
        t,
        rows(u, i2),
        featured(d, q, l2, u),
        u,
        n,
    );
}

/// The beginning of a recording gives the beginning of its enhanced audio: enhancing the first `m`
/// samples gives exactly the whole hops of them, as they come out of the whole recording.
pub proof fn law_a_beginning_gives_a_beginning(
    h: HushView,
    o: Outside,
    window: Seq<F32>,
    alpha: F32,
    audio: Seq<F32>,
    lim: Option<F32>,
    m: int,
)
    requires
        o.wf(),
        0 <= m <= audio.len(),
        m >= 160 ==> model_sized(h, m / 160),
        gl_width(h.enc, "enc/df_fc_emb.0.weight"@) == 128,
    ensures
        enhance_of(h, o, window, alpha, audio.take(m), lim) == enhance_of(
            h,
            o,
            window,
            alpha,
            audio,
            lim,
        ).take(m / 160 * 160),
{
    let x = audio.take(m);
    let n = (m / 160) as nat;
    let a = enhance_of(h, o, window, alpha, x, lim);
    let b = enhance_of(h, o, window, alpha, audio, lim);
    law_output_covers_the_whole_hops(h, o, window, alpha, x, lim);
    law_output_covers_the_whole_hops(h, o, window, alpha, audio, lim);
    if n > 0 {
        assert(x.take(n as int * 160) =~= audio.take(n as int * 160));
        law_enhancing_is_causal(h, o, window, alpha, x, audio, lim, n);
    }
    assert(a.take(n as int * 160) =~= a);
    assert(a =~= b.take(n as int * 160));
}

// ------------------------------------------------------------------ reconstruction

/// The frames that come back from the transforms if nothing is done to the spectra.
pub open spec fn returned_of(o: Outside, window: Seq<F32>, alpha: F32, audio: Seq<F32>) -> Seq<F32> {
    let t = audio.len() / 160;
    rows(t, inverse_rows(o, spectra_of(noisy_of(o, window, alpha, audio), t)))
}

/// Whether the transforms undo each other on the frames of `audio`, to within 2^-20.
pub open spec fn transforms_undo_each_other(
    o: Outside,
    window: Seq<F32>,
    alpha: F32,
    audio: Seq<F32>,
) -> bool {
    forall|k: int|
        0 <= k < audio.len() / 160 * 320 ==> {
            let f = analysis_of(audio, fresh(window, alpha))[k].value();
            between(
                #[trigger] returned_of(o, window, alpha, audio)[k],
                f - 1real / 1048576real,
                f + 1real / 1048576real,
            )
        }
}

/// Whether the squares of the two halves of the window add up to one, to within 2^-20.
pub open spec fn halves_add_up(window: Seq<F32>) -> bool {
    &&& window.len() == 320
    &&& forall|i: int| 0 <= i < 320 ==> between(#[trigger] window[i], 0real, 1real)
    &&& forall|i: int|
        0 <= i < 160 ==> {
            let (p, q) = ((#[trigger] window[i]).value(), window[160 + i].value());
            -(1real / 1048576real) <= p * p + q * q - 1real <= 1real / 1048576real
        }
}

/// A sample times the window, there and back: `y` stands for the windowed sample that the
/// transforms gave back.
proof fn lemma_there_and_back(a: F32, w: F32, y: F32)
    requires
        between(a, -1real, 1real),
        between(w, 0real, 1real),
        between(
            y,
            a.mul_spec(w).value() - 1real / 1048576real,
            a.mul_spec(w).value() + 1real / 1048576real,
        ),
    ensures
        ({
            let p = y.mul_spec(w);
            let d = 1real / 1048576real + 3real / 16777216real;
            between(p, -(101real / 100real), 101real / 100real) && -d <= p.value() - a.value() * (
            w.value() * w.value()) <= d
        }),
{
    let f = a.mul_spec(w);
    let (av, wv, yv) = (a.value(), w.value(), y.value());
    lemma_mul(a, w);
    lemma_product(av, wv, 1real, 1real);
    lemma_close(f, av * wv, 1real);
    let p = y.mul_spec(w);
    lemma_mul(y, w);
    lemma_product(yv, wv, 1001real / 1000real, 1real);
    lemma_close(p, yv * wv, 1001real / 1000real);
    let e = yv - av * wv;
    let b = 1real / 1048576real + 1real / 16777216real;
    lemma_product(e, wv, b, 1real);
    assert(yv * wv == av * (wv * wv) + e * wv) by (nonlinear_arith)
        requires
            yv == av * wv + e,
    ;
}

/// The two windowed halves of a sample, added up.
proof fn lemma_two_halves(a: F32, w1: F32, y1: F32, w2: F32, y2: F32)
    requires
        between(a, -1real, 1real),
        between(w1, 0real, 1real),
        between(w2, 0real, 1real),
        -(1real / 1048576real) <= w2.value() * w2.value() + w1.value() * w1.value() - 1real <= 1real
            / 1048576real,
        between(
            y1,
            a.mul_spec(w1).value() - 1real / 1048576real,
            a.mul_spec(w1).value() + 1real / 1048576real,
        ),
        between(
            y2,
            a.mul_spec(w2).value() - 1real / 1048576real,
            a.mul_spec(w2).value() + 1real / 1048576real,
        ),
    ensures
        between(
            F32::zero_spec().add_spec(y1.mul_spec(w1)).add_spec(y2.mul_spec(w2)),
            a.value() - 1real / 100000real,
            a.value() + 1real / 100000real,
        ),
{
    let zero = F32::zero_spec();
    lemma_zero();
    lemma_there_and_back(a, w1, y1);
    lemma_there_and_back(a, w2, y2);
    let (p, q) = (y1.mul_spec(w1), y2.mul_spec(w2));
    let s = zero.add_spec(p);
    lemma_add(zero, p);
    lemma_within(s, 0real + p.value(), p, p);
    lemma_add(s, q);
    lemma_close(s.add_spec(q), s.value() + q.value(), 21real / 10real);
    let (av, u, v) = (a.value(), w2.value() * w2.value(), w1.value() * w1.value());
    lemma_product(av, u + v - 1real, 1real, 1real / 1048576real);
    assert(av * u + av * v == av + av * (u + v - 1real)) by (nonlinear_arith);
}

/// A silent half.
proof fn lemma_silent_half(w: F32, y: F32)
    requires
        between(w, 0real, 1real),
        between(
            y,
            F32::zero_spec().mul_spec(w).value() - 1real / 1048576real,
            F32::zero_spec().mul_spec(w).value() + 1real / 1048576real,
        ),
    ensures
        between(
            F32::zero_spec().add_spec(y.mul_spec(w)),
            -(1real / 100000real),
            1real / 100000real,
        ),
{
    let zero = F32::zero_spec();
    lemma_zero();
    lemma_there_and_back(zero, w, y);
    let p = y.mul_spec(w);
    lemma_add(zero, p);
    lemma_within(zero.add_spec(p), 0real + p.value(), p, p);
    let ww = w.value() * w.value();
    assert(0real * ww == 0real) by (nonlinear_arith);
}

/// The first hop of the output.
pub proof fn lemma_first_hop(audio: Seq<F32>, frames: Seq<F32>, d: DspView, t: nat, i: int)
    requires
        d.wf(),
        d.ana_buf == zeros(320),
        d.syn_buf == zeros(320),
        t == audio.len() / 160,
        t > 0,
        0 <= i < 160,
    ensures
        analysis_of(audio, d)[i] == F32::zero_spec().mul_spec(d.window[i]),
        synthesis_of(frames, d, t)[i] == F32::zero_spec().add_spec(
            frames[i].mul_spec(d.window[i]),
        ),
{
    let g = analysis_rows(audio, d);
    let f = analysis_of(audio, d);
    assert forall|k: int| 0 <= k < t implies (#[trigger] g(k)).len() == 320 by {}
    lemma_row_of_rows(t, 320, g, 0);
    let one = buffer_after(audio, d.ana_buf, 1);
    assert(one == buffer_after(audio, d.ana_buf, 0).skip(160) + row_of(audio, 0, 160));
    assert(one[i] == F32::zero_spec());
    assert(f[i] == row_of(f, 0, 320)[i]);
    let s = synthesis_rows(frames, d);
    let out = synthesis_of(frames, d, t);
    assert forall|k: int| 0 <= k < t implies (#[trigger] s(k)).len() == 160 by {}
    lemma_row_of_rows(t, 160, s, 0);
    assert(out[i] == row_of(out, 0, 160)[i]);
    assert(overlap_after(frames, d, 0)[i] == F32::zero_spec());
}

proof fn lemma_reconstructed(
    audio: Seq<F32>,
    d: DspView,
    frames: Seq<F32>,
    t: nat,
    ti: int,
    i: int,
)
    requires
        d.wf(),
        d.ana_buf == zeros(320),
        d.syn_buf == zeros(320),
        halves_add_up(d.window),
        t == audio.len() / 160,
        t * 320 <= frames.len(),
        0 <= ti < t,
        0 <= i < 160,
        ti > 0 ==> between(audio[(ti - 1) * 160 + i], -1real, 1real),
        ({
            let x = analysis_of(audio, d)[ti * 320 + i].value();
            between(frames[ti * 320 + i], x - 1real / 1048576real, x + 1real / 1048576real)
        }),
        ti > 0 ==> ({
            let k = (ti - 1) * 320 + (160 + i);
            let x = analysis_of(audio, d)[k].value();
            between(frames[k], x - 1real / 1048576real, x + 1real / 1048576real)
        }),
    ensures
        ({
            let x = if ti == 0 {
                0real
            } else {
                audio[(ti - 1) * 160 + i].value()
            };
            between(
                synthesis_of(frames, d, t)[ti * 160 + i],
                x - 1real / 100000real,
                x + 1real / 100000real,
            )
        }),
{
    let f = analysis_of(audio, d);
    let w2 = d.window[i];
    let w1 = d.window[160 + i];
    assert(-(1real / 1048576real) <= w2.value() * w2.value() + w1.value() * w1.value() - 1real
        <= 1real / 1048576real);
    let y2 = frames[ti * 320 + i];
    if ti == 0 {
        lemma_first_hop(audio, frames, d, t, i);
        lemma_silent_half(w2, y2);
    } else {
        law_output_is_one_hop_late(audio, frames, d, t, ti, i);
        let k = (ti - 1) * 320 + (160 + i);
        let y1 = frames[k];
        let a = audio[(ti - 1) * 160 + i];
        assert(f[k] == a.mul_spec(w1) && f[ti * 320 + i] == a.mul_spec(w2)) by {
            lemma_rows_len(t, 320, analysis_rows(audio, d));
            lemma_row_fits(ti, t as int, 320);
            lemma_row_fits(ti - 1, t as int, 320);
            assert(row_of(f, ti - 1, 320)[160 + i] == f[k]);
            assert(row_of(f, ti, 320)[i] == f[ti * 320 + i]);
        }
        assert(row_of(frames, ti - 1, 320)[160 + i] == y1 && row_of(frames, ti, 320)[i] == y2) by {
            lemma_row_fits(ti, t as int, 320);
            lemma_row_fits(ti - 1, t as int, 320);
        }
        lemma_two_halves(audio[(ti - 1) * 160 + i], w1, y1, w2, y2);
    }
}

pub proof fn lemma_same_synthesis(frames: Seq<F32>, c: DspView, d: DspView, t: nat)
    requires
        frames.len() == t * 320,
        c.window == d.window,
        c.syn_buf == d.syn_buf,
    ensures
        synthesis_of(frames, c, t) == synthesis_of(frames, d, t),
        synthesis_of(frames, c, t).len() == t * 160,
{
    lemma_synthesis_agrees(frames, c, t, frames, d, t, t);
    lemma_rows_len(t, 160, synthesis_rows(frames, c));
    lemma_rows_len(t, 160, synthesis_rows(frames, d));
    let (x, y) = (synthesis_of(frames, c, t), synthesis_of(frames, d, t));
    assert(x.take(t as int * 160) =~= x);
    assert(y.take(t as int * 160) =~= y);
}

/// Without anything done to the spectra, analysis and synthesis give the audio back one hop late:
/// the first hop is silent, and every later sample is within `1e-5` of the sample one hop before.
/// This takes transforms that undo each other and a window whose halves add up.
pub proof fn law_analysis_and_synthesis_reconstruct(
    o: Outside,
    window: Seq<F32>,
    alpha: F32,
    audio: Seq<F32>,
    n: int,
)
    requires
        o.wf(),
        halves_add_up(window),
        transforms_undo_each_other(o, window, alpha, audio),
        forall|k: int| 0 <= k < audio.len() ==> between(#[trigger] audio[k], -1real, 1real),
        0 <= n < audio.len() / 160 * 160,
    ensures
        ({
            let t = audio.len() / 160;
            let out = synthesis_of(
                returned_of(o, window, alpha, audio),
                started(window, alpha, audio),
                t,
            );
            let x = if n < 160 {
                0real
            } else {
                audio[n - 160].value()
            };
            between(out[n], x - 1real / 100000real, x + 1real / 100000real)
        }),
{
    let t = audio.len() / 160;
    let d = fresh(window, alpha);
    let frames = returned_of(o, window, alpha, audio);
    lemma_rows_len(t, 320, inverse_rows(o, spectra_of(noisy_of(o, window, alpha, audio), t)));
    lemma_same_synthesis(frames, d, started(window, alpha, audio), t);
    let ti = n / 160;
    let i = n % 160;
    let k = ti * 320 + i;
    assert(0 <= k < t * 320);
    assert(between(
        returned_of(o, window, alpha, audio)[k],
        analysis_of(audio, d)[k].value() - 1real / 1048576real,
        analysis_of(audio, d)[k].value() + 1real / 1048576real,
    ));
    if ti > 0 {
        let j = (ti - 1) * 320 + (160 + i);
        assert(0 <= j < t * 320);
        assert(between(
            returned_of(o, window, alpha, audio)[j],
            analysis_of(audio, d)[j].value() - 1real / 1048576real,
            analysis_of(audio, d)[j].value() + 1real / 1048576real,
        ));
        assert(between(audio[n - 160], -1real, 1real));
    }
    lemma_reconstructed(audio, d, frames, t, ti, i);
}

} // verus!
