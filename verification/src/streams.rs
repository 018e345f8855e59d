//! A stream in pieces: two calls, one after the other, give what one call gives on both pieces.
use vstd::prelude::*;

use crate::bank::BankView;
use crate::dsp::{
    analysis_of, analysis_rows, buffer_after, erb_feat_of, erb_rows, erb_state_after, level,
    magnitude, overlap_after, overlapped, spec_feat_of, synthesis_of, synthesis_rows, unit_im_rows,
    unit_re_rows, unit_state_after, Complex, DspView,
};
use crate::encoder::encode_of;
use crate::float::F32;
use crate::hush::{encoded, featured};
use crate::rows::{lemma_row_fits, lemma_row_of_rows, lemma_rows_len, row_of, rows};

verus! {

// ------------------------------------------------------------------ features

/// What the features leave of a stream: the means of the bands and of the bins have moved on, and
/// nothing else has changed.
pub proof fn law_features_move_only_the_means(d: DspView, spec: Seq<Complex>, logs: Seq<F32>, t: nat)
    ensures
        ({
            let e = featured(d, spec, logs, t);
            &&& e.erb_state == erb_state_after(logs, d, t)
            &&& e.unit_state == unit_state_after(spec, d, t)
            &&& e.window == d.window
            &&& e.alpha == d.alpha
            &&& e.ana_buf == d.ana_buf
            &&& e.syn_buf == d.syn_buf
        }),
{
}

/// The predicted SNR comes of the encoder on both features of the stream.
pub proof fn law_predictions_come_of_both_features(
    b: BankView,
    d: DspView,
    spec: Seq<Complex>,
    logs: Seq<F32>,
    t: nat,
)
    ensures
        encoded(b, d, spec, logs, t) == encode_of(b, erb_feat_of(logs, d, t), spec_feat_of(spec, d, t), t),
{
}

proof fn lemma_erb_states_join(logs: Seq<F32>, d: DspView, e: DspView, m: nat, n: nat)
    requires
        e.erb_state == erb_state_after(logs, d, m),
        e.alpha == d.alpha,
        (m + n) * 32 <= logs.len(),
    ensures
        erb_state_after(logs, d, m + n) == erb_state_after(logs.skip(m * 32int), e, n),
    decreases n,
{
    if n > 0 {
        let k = (n - 1) as nat;
        lemma_erb_states_join(logs, d, e, m, k);
        let s = erb_state_after(logs, d, m + k);
        let (i, j) = (m + n - 1, n - 1);
        let tail = logs.skip(m * 32int);
        assert forall|b: int| 0 <= b < 32 implies #[trigger] level(logs, i, b) == level(tail, j, b) by {
            assert(logs.skip(m * 32int)[(n - 1) * 32 + b] == logs[(m + n - 1) * 32 + b]);
        }
        assert(erb_state_after(logs, d, m + n) =~= erb_state_after(logs.skip(m * 32int), e, n));
    }
}

/// Band features of `m` frames and then of `n` more are those of `m + n` frames.
pub proof fn law_band_features_can_be_taken_in_pieces(
    logs: Seq<F32>,
    spec: Seq<Complex>,
    d: DspView,
    m: nat,
    n: nat,
    ti: int,
    b: int,
)
    requires
        (m + n) * 32 <= logs.len(),
        0 <= b < 32,
        0 <= ti < m + n,
    ensures
        ({
            let all = erb_feat_of(logs, d, m + n)[ti * 32 + b];
            &&& ti < m ==> all == erb_feat_of(logs, d, m)[ti * 32 + b]
            &&& ti >= m ==> all == erb_feat_of(logs.skip(m * 32int), featured(d, spec, logs, m), n)[(ti - m)
                * 32 + b]
        }),
        featured(d, spec, logs, m + n).erb_state == featured(
            featured(d, spec, logs, m),
            spec,
            logs.skip(m * 32int),
            n,
        ).erb_state,
{
    let e = featured(d, spec, logs, m);
    lemma_erb_states_join(logs, d, e, m, n);
    let g = erb_rows(logs, d);
    lemma_row_of_rows(m + n, 32, g, ti);
    lemma_row_fits(ti, m + n as int, 32);
    assert(row_of(rows(m + n, g), ti, 32)[b] == rows(m + n, g)[ti * 32 + b]);
    if ti < m {
        lemma_row_of_rows(m, 32, g, ti);
        lemma_row_fits(ti, m as int, 32);
        assert(row_of(rows(m, g), ti, 32)[b] == rows(m, g)[ti * 32 + b]);
    } else {
        let k = ti - m;
        let tail = logs.skip(m * 32int);
        let h = erb_rows(tail, e);
        lemma_row_of_rows(n, 32, h, k);
        lemma_row_fits(k, n as int, 32);
        assert(row_of(rows(n, h), k, 32)[b] == rows(n, h)[k * 32 + b]);
        lemma_erb_states_join(logs, d, e, m, (k + 1) as nat);
        assert(tail[k * 32 + b] == logs[ti * 32 + b]);
    }
}

proof fn lemma_unit_states_join(spec: Seq<Complex>, d: DspView, e: DspView, m: nat, n: nat)
    requires
        e.unit_state == unit_state_after(spec, d, m),
        e.alpha == d.alpha,
        (m + n) * 161 <= spec.len(),
    ensures
        unit_state_after(spec, d, m + n) == unit_state_after(spec.skip(m * 161int), e, n),
    decreases n,
{
    if n > 0 {
        let k = (n - 1) as nat;
        lemma_unit_states_join(spec, d, e, m, k);
        let (i, j) = (m + n - 1, n - 1);
        let tail = spec.skip(m * 161int);
        assert forall|f: int| 0 <= f < 64 implies #[trigger] magnitude(spec, i, f) == magnitude(tail, j, f) by {
            assert(spec.skip(m * 161int)[(n - 1) * 161 + f] == spec[(m + n - 1) * 161 + f]);
        }
        assert(unit_state_after(spec, d, m + n) =~= unit_state_after(spec.skip(m * 161int), e, n));
    }
}

/// Spectrum features of `m` frames and then of `n` more are those of `m + n` frames, in both planes.
pub proof fn law_spectrum_features_can_be_taken_in_pieces(
    logs: Seq<F32>,
    spec: Seq<Complex>,
    d: DspView,
    m: nat,
    n: nat,
    ti: int,
    f: int,
)
    requires
        (m + n) * 161 <= spec.len(),
        0 <= f < 64,
        0 <= ti < m + n,
    ensures
        ({
            let all = spec_feat_of(spec, d, m + n);
            let (one, two) = (
                spec_feat_of(spec, d, m),
                spec_feat_of(spec.skip(m * 161int), featured(d, spec, logs, m), n),
            );
            let (re, im) = (all[ti * 64 + f], all[(m + n) * 64 + (ti * 64 + f)]);
            &&& ti < m ==> re == one[ti * 64 + f] && im == one[m * 64 + (ti * 64 + f)]
            &&& ti >= m ==> re == two[(ti - m) * 64 + f] && im == two[n * 64 + ((ti - m) * 64 + f)]
        }),
        featured(d, spec, logs, m + n).unit_state == featured(
            featured(d, spec, logs, m),
            spec.skip(m * 161int),
            logs,
            n,
        ).unit_state,
{
    let e = featured(d, spec, logs, m);
    lemma_unit_states_join(spec, d, e, m, n);
    lemma_unit_cells(spec, d, m + n, ti, f);
    if ti < m {
        lemma_unit_cells(spec, d, m, ti, f);
    } else {
        let k = ti - m;
        let tail = spec.skip(m * 161int);
        lemma_unit_cells(tail, e, n, k, f);
        lemma_unit_states_join(spec, d, e, m, (k + 1) as nat);
        assert(tail[k * 161 + f] == spec[ti * 161 + f]);
    }
}

proof fn lemma_unit_cells(spec: Seq<Complex>, d: DspView, t: nat, ti: int, f: int)
    requires
        0 <= ti < t,
        0 <= f < 64,
    ensures
        spec_feat_of(spec, d, t)[ti * 64 + f] == unit_re_rows(spec, d)(ti)[f],
        spec_feat_of(spec, d, t)[t * 64 + (ti * 64 + f)] == unit_im_rows(spec, d)(ti)[f],
{
    let (g, h) = (unit_re_rows(spec, d), unit_im_rows(spec, d));
    lemma_rows_len(t, 64, g);
    lemma_rows_len(t, 64, h);
    lemma_row_of_rows(t, 64, g, ti);
    lemma_row_of_rows(t, 64, h, ti);
    lemma_row_fits(ti, t as int, 64);
    assert(row_of(rows(t, g), ti, 64)[f] == rows(t, g)[ti * 64 + f]);
    assert(row_of(rows(t, h), ti, 64)[f] == rows(t, h)[ti * 64 + f]);
}

// ------------------------------------------------------------------ samples

proof fn lemma_buffers_join(a: Seq<F32>, b: Seq<F32>, start: Seq<F32>, n: nat)
    requires
        a.len() % 160 == 0,
        n <= b.len() / 160,
    ensures
        buffer_after(a + b, start, a.len() / 160 + n) == buffer_after(
            b,
            buffer_after(a, start, a.len() / 160),
            n,
        ),
    decreases n,
{
    let m = a.len() / 160;
    if n == 0 {
        lemma_buffers_begin(a, b, start, m);
    } else {
        lemma_buffers_join(a, b, start, (n - 1) as nat);
        assert(row_of(a + b, m + n - 1, 160) =~= row_of(b, n - 1, 160));
    }
}

proof fn lemma_buffers_begin(a: Seq<F32>, b: Seq<F32>, start: Seq<F32>, n: nat)
    requires
        n <= a.len() / 160,
    ensures
        buffer_after(a + b, start, n) == buffer_after(a, start, n),
    decreases n,
{
    if n > 0 {
        lemma_buffers_begin(a, b, start, (n - 1) as nat);
        assert(row_of(a + b, n - 1, 160) =~= row_of(a, n - 1, 160));
    }
}

/// The frames of a piece of whole hops and then those of another piece are the frames of both.
pub proof fn law_frames_can_be_taken_in_pieces(a: Seq<F32>, b: Seq<F32>, d: DspView, ti: int, i: int)
    requires
        d.wf(),
        a.len() % 160 == 0,
        0 <= ti < (a.len() + b.len()) / 160,
        0 <= i < 320,
    ensures
        ({
            let m = a.len() as int / 160;
            let e = DspView { ana_buf: buffer_after(a, d.ana_buf, a.len() / 160), ..d };
            let all = analysis_of(a + b, d)[ti * 320 + i];
            &&& ti < m ==> all == analysis_of(a, d)[ti * 320 + i]
            &&& ti >= m ==> all == analysis_of(b, e)[(ti - m) * 320 + i]
        }),
{
    let m = a.len() / 160;
    let t = (a + b).len() / 160;
    let e = DspView { ana_buf: buffer_after(a, d.ana_buf, m), ..d };
    let g = analysis_rows(a + b, d);
    lemma_row_of_rows(t, 320, g, ti);
    lemma_row_fits(ti, t as int, 320);
    assert(row_of(rows(t, g), ti, 320)[i] == rows(t, g)[ti * 320 + i]);
    if ti < m {
        let h = analysis_rows(a, d);
        lemma_row_of_rows(m, 320, h, ti);
        lemma_row_fits(ti, m as int, 320);
        assert(row_of(rows(m, h), ti, 320)[i] == rows(m, h)[ti * 320 + i]);
        lemma_buffers_begin(a, b, d.ana_buf, (ti + 1) as nat);
    } else {
        let n = b.len() / 160;
        let k = ti - m;
        let h = analysis_rows(b, e);
        lemma_row_of_rows(n, 320, h, k);
        lemma_row_fits(k, n as int, 320);
        assert(row_of(rows(n, h), k, 320)[i] == rows(n, h)[k * 320 + i]);
        lemma_buffers_join(a, b, d.ana_buf, (k + 1) as nat);
        assert(m + (k + 1) as nat == ti + 1);
    }
}

proof fn lemma_overlaps_join(frames: Seq<F32>, d: DspView, e: DspView, m: nat, n: nat)
    requires
        e.syn_buf == overlap_after(frames, d, m),
        e.window == d.window,
        (m + n) * 320 <= frames.len(),
    ensures
        overlap_after(frames, d, m + n) == overlap_after(frames.skip(m * 320int), e, n),
    decreases n,
{
    if n > 0 {
        let k = (n - 1) as nat;
        lemma_overlaps_join(frames, d, e, m, k);
        let s = overlap_after(frames, d, m + k);
        let tail = frames.skip(m * 320int);
        let (x, y) = (
            overlapped(frames, d.window, s, (m + k) as int),
            overlapped(tail, d.window, s, k as int),
        );
        assert forall|i: int| 0 <= i < 320 implies #[trigger] x[i] == y[i] by {
            assert(tail[k * 320 + i] == frames[m * 320 + (k * 320 + i)]);
        }
        assert(x =~= y);
    }
}

/// The hops of `m` frames and then those of `n` more are the hops of `m + n` frames.
pub proof fn law_hops_can_be_taken_in_pieces(frames: Seq<F32>, d: DspView, m: nat, n: nat, ti: int, i: int)
    requires
        d.wf(),
        (m + n) * 320 <= frames.len(),
        0 <= ti < m + n,
        0 <= i < 160,
    ensures
        ({
            let e = DspView { syn_buf: overlap_after(frames, d, m), ..d };
            let all = synthesis_of(frames, d, m + n)[ti * 160 + i];
            &&& ti < m ==> all == synthesis_of(frames, d, m)[ti * 160 + i]
            &&& ti >= m ==> all == synthesis_of(frames.skip(m * 320int), e, n)[(ti - m) * 160 + i]
        }),
{
    let e = DspView { syn_buf: overlap_after(frames, d, m), ..d };
    let g = synthesis_rows(frames, d);
    lemma_row_of_rows(m + n, 160, g, ti);
    lemma_row_fits(ti, m + n as int, 160);
    assert(row_of(rows(m + n, g), ti, 160)[i] == rows(m + n, g)[ti * 160 + i]);
    if ti < m {
        lemma_row_of_rows(m, 160, g, ti);
        lemma_row_fits(ti, m as int, 160);
        assert(row_of(rows(m, g), ti, 160)[i] == rows(m, g)[ti * 160 + i]);
    } else {
        let k = ti - m;
        let tail = frames.skip(m * 320int);
        let h = synthesis_rows(tail, e);
        lemma_row_of_rows(n, 160, h, k);
        lemma_row_fits(k, n as int, 160);
        assert(row_of(rows(n, h), k, 160)[i] == rows(n, h)[k * 160 + i]);
        lemma_overlaps_join(frames, d, e, m, k as nat);
        assert(tail[k * 320 + i] == frames[ti * 320 + i]);
        assert(m + k as nat == ti);
    }
}

} // verus!
