//! What frames, spectra, features and the deep filter are on reals: which sample, bin or frame counts
//! for which result, and how near the rounded result comes to the exact one.
use vstd::prelude::*;

use crate::dsp::{
    analysis_of, analysis_rows, apply_df_of, band_start, band_width, buffer_after, energy_rows,
    energy_sum, erb_energies_of, erb_feat_of, erb_inv_of, erb_rows, erb_state_after, filtered,
    fresh, law_bins_take_their_bands_gain, lemma_band_widths, lemma_erb_inv_len, lemma_low_bands,
    moved, on_line, overlap_after, overlapped, spec_feat_of, spectra_of, spectra_rows, spectrum_of,
    spectrum_rows, synthesis_of, synthesis_rows, unit_im_rows, unit_re_rows, unit_state_after,
    Complex, DspView, ENERGY_FLOOR, ERB_FIRST, ERB_LAST, FORTY, FREQS, TEN, UNIT_FIRST, UNIT_LAST,
};
use crate::float::F32;
use crate::hush::merged_of;
use crate::ranges::{between, lemma_bits, lemma_product, lemma_units, lemma_zero};
use crate::rows::{lemma_place, lemma_row_fits, lemma_row_of_rows, row_of, rows};
use crate::shares::{
    law_a_root_squares_back, law_division_is_off_by_a_share, law_small_integers_are_numbers,
    lemma_smallest_step,
};
use crate::simd::{bits, ONE};
use crate::sums::{
    bounded, lemma_bounded_product, lemma_slack_grows, lemma_sum_eq, lemma_tracks_term,
    lemma_tracks_wider, lemma_tracks_zero, moderate, near, slack, sum, tracks,
};
use crate::values::{is_near, lemma_add, lemma_close, lemma_mul, lemma_neg, lemma_within, power};

verus! {

/// Whether both parts of every bin lie between `-p` and `p`.
pub open spec fn parts_bounded(s: Seq<Complex>, p: real) -> bool {
    forall|i: int|
        0 <= i < s.len() ==> between((#[trigger] s[i]).re, -p, p) && between(s[i].im, -p, p)
}

// ------------------------------------------------------------------ deep filter

/// The real part of the product of bin `f` of frame `tt` with tap `o` of frame `ti`; zero before the
/// first frame.
pub open spec fn tap_re(spec: Seq<Complex>, coefs: Seq<F32>, ti: int, f: int, o: int) -> real {
    let tt = ti + o - 4;
    let c = (ti * 64 + f) * 10 + 2 * o;
    if tt < 0 {
        0real
    } else {
        spec[tt * 161 + f].re.value() * coefs[c].value() - spec[tt * 161 + f].im.value() * coefs[c
            + 1].value()
    }
}

/// The imaginary part of that product.
pub open spec fn tap_im(spec: Seq<Complex>, coefs: Seq<F32>, ti: int, f: int, o: int) -> real {
    let tt = ti + o - 4;
    let c = (ti * 64 + f) * 10 + 2 * o;
    if tt < 0 {
        0real
    } else {
        spec[tt * 161 + f].im.value() * coefs[c].value() + spec[tt * 161 + f].re.value() * coefs[c
            + 1].value()
    }
}

/// Two products, added or subtracted.
proof fn lemma_two_products(a: F32, b: F32, c: F32, d: F32, m: real)
    requires
        a.is_finite_spec(),
        b.is_finite_spec(),
        c.is_finite_spec(),
        d.is_finite_spec(),
        -m <= a.value() * b.value() <= m,
        -m <= c.value() * d.value() <= m,
        moderate(2real * m),
    ensures
        near(
            a.mul_spec(b).sub_spec(c.mul_spec(d)),
            a.value() * b.value() - c.value() * d.value(),
            8real * (2real * m) / 16777216real,
        ),
        near(
            a.mul_spec(b).add_spec(c.mul_spec(d)),
            a.value() * b.value() + c.value() * d.value(),
            8real * (2real * m) / 16777216real,
        ),
{
    let (p, q) = (a.mul_spec(b), c.mul_spec(d));
    lemma_mul(a, b);
    lemma_mul(c, d);
    lemma_close(p, a.value() * b.value(), 2real * m);
    lemma_close(q, c.value() * d.value(), 2real * m);
    lemma_neg(q);
    lemma_add(p, q.neg_spec());
    lemma_close(p.sub_spec(q), p.value() - q.value(), 3real * m);
    lemma_add(p, q);
    lemma_close(p.add_spec(q), p.value() + q.value(), 3real * m);
}

proof fn lemma_filtered_tracks(
    spec: Seq<Complex>,
    coefs: Seq<F32>,
    t: nat,
    ti: int,
    f: int,
    n: nat,
    p: real,
    q: real,
    m: real,
)
    requires
        0 <= ti < t,
        0 <= f < 64,
        n <= 5,
        t * 161 <= spec.len(),
        t * 640 <= coefs.len(),
        parts_bounded(spec, p),
        bounded(coefs, q),
        p * q <= m,
        moderate(2real * m),
    ensures
        tracks(
            filtered(spec, coefs, ti, f, n).re,
            sum(n, |o: int| tap_re(spec, coefs, ti, f, o)),
            n as int,
            2real * m,
        ),
        tracks(
            filtered(spec, coefs, ti, f, n).im,
            sum(n, |o: int| tap_im(spec, coefs, ti, f, o)),
            n as int,
            2real * m,
        ),
    decreases n,
{
    let g = |o: int| tap_re(spec, coefs, ti, f, o);
    let h = |o: int| tap_im(spec, coefs, ti, f, o);
    let mm = 2real * m;
    if n == 0 {
        lemma_tracks_zero(mm);
    } else {
        let o = n - 1;
        lemma_filtered_tracks(spec, coefs, t, ti, f, o as nat, p, q, m);
        let acc = filtered(spec, coefs, ti, f, o as nat);
        let tt = ti + o - 4;
        if tt < 0 {
            lemma_tracks_wider(acc.re, sum(o as nat, g), o, n as int, mm);
            lemma_tracks_wider(acc.im, sum(o as nat, h), o, n as int, mm);
            assert(g(o) == 0real && h(o) == 0real);
        } else {
            lemma_place(tt, f, t as int, 161);
            let i = (ti * 64 + f) * 10 + 2 * o;
            assert(0 <= i && i + 1 < t * 640);
            let s = spec[tt * 161 + f];
            let (c, d) = (coefs[i], coefs[i + 1]);
            assert(between(s.re, -p, p) && between(s.im, -p, p));
            assert(between(c, -q, q) && between(d, -q, q));
            lemma_bounded_product(s.re, c, p, q, m);
            lemma_bounded_product(s.im, d, p, q, m);
            lemma_bounded_product(s.im, c, p, q, m);
            lemma_bounded_product(s.re, d, p, q, m);
            lemma_two_products(s.re, c, s.im, d, m);
            lemma_two_products(s.im, c, s.re, d, m);
            lemma_tracks_term(
                s.re.mul_spec(c).sub_spec(s.im.mul_spec(d)),
                g(o),
                acc.re,
                sum(o as nat, g),
                o,
                mm,
            );
            lemma_tracks_term(
                s.im.mul_spec(c).add_spec(s.re.mul_spec(d)),
                h(o),
                acc.im,
                sum(o as nat, h),
                o,
                mm,
            );
        }
    }
}

/// The deep filter: bin `f` of frame `ti` is the sum of the complex products of bin `f` of the frames
/// `ti - 4` to `ti`, as far as they exist, with the five coefficients of that bin and frame, the last
/// one for the frame itself.
pub proof fn law_the_deep_filter_weighs_five_frames(
    spec: Seq<Complex>,
    coefs: Seq<F32>,
    t: nat,
    out: Seq<Complex>,
    ti: int,
    f: int,
    p: real,
    q: real,
    m: real,
)
    requires
        0 <= ti < t,
        0 <= f < 64,
        t * 161 <= spec.len(),
        t * 640 <= coefs.len(),
        t * 161 <= out.len(),
        parts_bounded(spec, p),
        bounded(coefs, q),
        p * q <= m,
        moderate(2real * m),
    ensures
        ({
            let r = apply_df_of(spec, coefs, t as int, out)[ti * 161 + f];
            &&& near(r.re, sum(5, |o: int| tap_re(spec, coefs, ti, f, o)), slack(5, 2real * m))
            &&& near(r.im, sum(5, |o: int| tap_im(spec, coefs, ti, f, o)), slack(5, 2real * m))
        }),
{
    lemma_place(ti, f, t as int, 161);
    let i = ti * 161 + f;
    assert(i / 161 == ti && i % 161 == f);
    lemma_filtered_tracks(spec, coefs, t, ti, f, 5, p, q, m);
}

/// The deep filter leaves the bins from 64 on, and what lies behind the frames, as they are.
pub proof fn law_the_deep_filter_leaves_the_upper_bins(
    spec: Seq<Complex>,
    coefs: Seq<F32>,
    t: nat,
    out: Seq<Complex>,
    ti: int,
    f: int,
)
    requires
        0 <= ti,
        0 <= f < 161,
        f >= 64 || ti >= t,
        ti * 161 + f < out.len(),
    ensures
        apply_df_of(spec, coefs, t as int, out).len() == out.len(),
        apply_df_of(spec, coefs, t as int, out)[ti * 161 + f] == out[ti * 161 + f],
{
    let i = ti * 161 + f;
    assert(i / 161 == ti && i % 161 == f);
}

proof fn lemma_filtered_shifted(
    spec: Seq<Complex>,
    coefs: Seq<F32>,
    spec2: Seq<Complex>,
    coefs2: Seq<F32>,
    t: nat,
    k: nat,
    ti: int,
    f: int,
    n: nat,
)
    requires
        4 <= ti < t,
        0 <= f < 64,
        n <= 5,
        spec.len() == t * 161,
        coefs.len() == t * 640,
        spec2.len() == (t + k) * 161,
        coefs2.len() == (t + k) * 640,
        spec2.skip(k as int * 161) == spec,
        coefs2.skip(k as int * 640) == coefs,
    ensures
        filtered(spec2, coefs2, ti + k, f, n) == filtered(spec, coefs, ti, f, n),
    decreases n,
{
    if n > 0 {
        let o = n - 1;
        lemma_filtered_shifted(spec, coefs, spec2, coefs2, t, k, ti, f, o as nat);
        let tt = ti + o - 4;
        let i = (ti * 64 + f) * 10 + 2 * o;
        assert(spec[tt * 161 + f] == spec2[k as int * 161 + (tt * 161 + f)]);
        assert(coefs[i] == coefs2[k as int * 640 + i]);
        assert(coefs[i + 1] == coefs2[k as int * 640 + (i + 1)]);
        assert(k as int * 161 + (tt * 161 + f) == (ti + k + o - 4) * 161 + f);
        assert(k as int * 640 + i == ((ti + k) * 64 + f) * 10 + 2 * o);
    }
}

/// Deep filtering and delaying a recording can be swapped: with `k` frames put before a recording, the
/// filtered bins of its frames, past the first four, are the same `k` frames later.
pub proof fn law_the_deep_filter_can_be_delayed(
    spec: Seq<Complex>,
    coefs: Seq<F32>,
    out: Seq<Complex>,
    spec2: Seq<Complex>,
    coefs2: Seq<F32>,
    out2: Seq<Complex>,
    t: nat,
    k: nat,
    ti: int,
    f: int,
)
    requires
        4 <= ti < t,
        0 <= f < 64,
        spec.len() == t * 161,
        coefs.len() == t * 640,
        out.len() == t * 161,
        spec2.len() == (t + k) * 161,
        coefs2.len() == (t + k) * 640,
        out2.len() == (t + k) * 161,
        spec2.skip(k as int * 161) == spec,
        coefs2.skip(k as int * 640) == coefs,
    ensures
        apply_df_of(spec2, coefs2, t as int + k, out2)[(ti + k) * 161 + f] == apply_df_of(
            spec,
            coefs,
            t as int,
            out,
        )[ti * 161 + f],
{
    lemma_filtered_shifted(spec, coefs, spec2, coefs2, t, k, ti, f, 5);
    let (i, j) = (ti * 161 + f, (ti + k) * 161 + f);
    assert(i / 161 == ti && i % 161 == f && j / 161 == ti + k && j % 161 == f);
}

// ------------------------------------------------------------------ spectra

/// One part of a bin over 320.
proof fn lemma_over_320(x: F32, p: real)
    requires
        between(x, -p, p),
        1real / 1000000real <= p <= 1000000real,
    ensures
        near(
            x.mul_spec(bits(ONE).div_spec(F32::of_int(320))),
            x.value() / 320real,
            p / 1000000000real,
        ),
{
    lemma_units();
    law_small_integers_are_numbers(320);
    lemma_smallest_step();
    let (one, n) = (bits(ONE), F32::of_int(320));
    assert(!n.is_zero_spec()) by {
        if n.is_zero_spec() {
            crate::sums::lemma_zero_value(n);
        }
    }
    crate::values::lemma_power_monotonic(0, 127);
    assert(power(0) == 1real) by {
        vstd::arithmetic::power2::lemma2_to64();
    }
    law_division_is_off_by_a_share(one, n);
    let s = one.div_spec(n);
    let (v, e) = (x.value(), s.value() - 1real / 320real);
    let w = 1real / 320real / 8000000real;
    assert(-w <= e <= w);
    lemma_product(v, e, p, w);
    lemma_mul(x, s);
    let sv = s.value();
    assert(v * sv == v / 320real + v * e) by (nonlinear_arith)
        requires
            sv == 1real / 320real + e,
    ;
    assert(p * w == p / 320real / 8000000real) by (nonlinear_arith)
        requires
            w == 1real / 320real / 8000000real,
    ;
    lemma_close(x.mul_spec(s), v * sv, p / 300real);
}

/// Bin `f` of a frame's spectrum is bin `f` of the frame's transform over 320.
pub proof fn law_spectra_are_transforms_over_320(
    fft: Seq<Complex>,
    t: nat,
    ti: int,
    f: int,
    p: real,
)
    requires
        0 <= ti < t,
        0 <= f < 161,
        t * 320 <= fft.len(),
        parts_bounded(fft, p),
        1real / 1000000real <= p <= 1000000real,
    ensures
        ({
            let r = spectrum_of(fft, t)[ti * 161 + f];
            let x = fft[ti * 320 + f];
            &&& spectrum_of(fft, t).len() == t * 161
            &&& near(r.re, x.re.value() / 320real, p / 1000000000real)
            &&& near(r.im, x.im.value() / 320real, p / 1000000000real)
        }),
{
    let g = spectrum_rows(fft);
    lemma_row_of_rows(t, 161, g, ti);
    lemma_row_fits(ti, t as int, 161);
    assert(row_of(rows(t, g), ti, 161)[f] == rows(t, g)[ti * 161 + f]);
    lemma_place(ti, f, t as int, 320);
    let x = fft[ti * 320 + f];
    assert(between(x.re, -p, p) && between(x.im, -p, p));
    lemma_over_320(x.re, p);
    lemma_over_320(x.im, p);
}

/// A full spectrum holds the 161 bins of its frame, and behind them the bins 159 to 1 with the other
/// sign of the imaginary part.
pub proof fn law_full_spectra_are_mirrored(spec: Seq<Complex>, t: nat, ti: int, f: int)
    requires
        0 <= ti < t,
        0 <= f < 320,
        t * 161 <= spec.len(),
    ensures
        spectra_of(spec, t).len() == t * 320,
        f <= 160 ==> spectra_of(spec, t)[ti * 320 + f] == spec[ti * 161 + f],
        f > 160 ==> ({
            let (a, b) = (spectra_of(spec, t)[ti * 320 + f], spec[ti * 161 + 320 - f]);
            a.re == b.re && a.im.value() == -b.im.value() && a.im.bits != b.im.bits && (
            b.im.is_nan_spec() == a.im.is_nan_spec())
        }),
{
    let g = spectra_rows(spec);
    lemma_row_of_rows(t, 320, g, ti);
    lemma_row_fits(ti, t as int, 320);
    assert(row_of(rows(t, g), ti, 320)[f] == rows(t, g)[ti * 320 + f]);
    if f > 160 {
        lemma_neg(spec[ti * 161 + (320 - f)].im);
    }
}

// ------------------------------------------------------------------ frames

proof fn lemma_buffer_is_the_stream(audio: Seq<F32>, start: Seq<F32>, n: nat)
    requires
        start.len() == 320,
        n <= audio.len() / 160,
    ensures
        buffer_after(audio, start, n) == (start + audio).subrange(
            n as int * 160,
            n as int * 160 + 320,
        ),
    decreases n,
{
    let all = start + audio;
    if n == 0 {
        assert(all.subrange(0, 320) =~= start);
    } else {
        lemma_buffer_is_the_stream(audio, start, (n - 1) as nat);
        assert(buffer_after(audio, start, n) =~= all.subrange(n as int * 160, n as int * 160 + 320));
    }
}

/// Frame `ti` is 320 samples of the stream, which is what the analysis kept from before and then the
/// audio, from `160 * (ti + 1)` on, each times its place of the window; what is kept for the next call
/// are the last 320 samples.
pub proof fn law_frames_are_the_windowed_stream(audio: Seq<F32>, d: DspView, ti: int, i: int)
    requires
        d.wf(),
        0 <= ti < audio.len() / 160,
        0 <= i < 320,
    ensures
        analysis_of(audio, d).len() == audio.len() / 160 * 320,
        analysis_of(audio, d)[ti * 320 + i] == (d.ana_buf + audio)[(ti + 1) * 160 + i].mul_spec(
            d.window[i],
        ),
        ({
            let n = audio.len() / 160 * 160;
            buffer_after(audio, d.ana_buf, audio.len() / 160) == (d.ana_buf + audio).subrange(
                n as int,
                n + 320int,
            )
        }),
{
    let t = audio.len() / 160;
    let g = analysis_rows(audio, d);
    lemma_row_of_rows(t, 320, g, ti);
    lemma_row_fits(ti, t as int, 320);
    lemma_buffer_is_the_stream(audio, d.ana_buf, (ti + 1) as nat);
    lemma_buffer_is_the_stream(audio, d.ana_buf, t);
    assert(row_of(rows(t, g), ti, 320)[i] == rows(t, g)[ti * 320 + i]);
    let all = d.ana_buf + audio;
    assert(buffer_after(audio, d.ana_buf, (ti + 1) as nat)[i] == all[(ti + 1) * 160 + i]);
}

/// What a stream that starts keeps: nothing.
pub proof fn law_a_stream_starts_in_silence(window: Seq<F32>, alpha: F32, i: int)
    requires
        0 <= i < 320,
    ensures
        fresh(window, alpha).ana_buf.len() == 320,
        fresh(window, alpha).syn_buf.len() == 320,
        fresh(window, alpha).ana_buf[i].bits == 0,
        fresh(window, alpha).syn_buf[i].bits == 0,
        fresh(window, alpha).window == window,
        fresh(window, alpha).alpha == alpha,
{
}

/// What the overlap buffer holds at place `i` before frame `ti`: the end of the frame before, under the
/// end of the window, on top of what the buffer held when the call began.
pub open spec fn carried(frames: Seq<F32>, d: DspView, ti: int, i: int) -> F32 {
    if ti == 0 {
        d.syn_buf[i]
    } else if i >= 160 {
        F32 { bits: 0 }
    } else {
        let end = frames[(ti - 1) * 320 + 160 + i].mul_spec(d.window[160 + i]);
        if ti == 1 {
            d.syn_buf[160 + i].add_spec(end)
        } else {
            F32 { bits: 0 }.add_spec(end)
        }
    }
}

proof fn lemma_carried(frames: Seq<F32>, d: DspView, n: nat, i: int)
    requires
        d.wf(),
        0 <= i < 320,
    ensures
        overlap_after(frames, d, n).len() == 320,
        overlap_after(frames, d, n)[i] == carried(frames, d, n as int, i),
    decreases n,
{
    if n > 0 {
        lemma_carried(frames, d, (n - 1) as nat, 0);
        let before = overlap_after(frames, d, (n - 1) as nat);
        let o = overlapped(frames, d.window, before, n - 1);
        if i < 160 {
            lemma_carried(frames, d, (n - 1) as nat, 160 + i);
            assert(overlap_after(frames, d, n)[i] == o[160 + i]);
            assert(o[160 + i] == before[160 + i].add_spec(
                frames[(n - 1) * 320 + (160 + i)].mul_spec(d.window[160 + i]),
            ));
            assert((n - 1) * 320 + (160 + i) == (n - 1) * 320 + 160 + i);
        } else {
            assert(overlap_after(frames, d, n)[i] == F32::zero_spec());
        }
    }
}

/// Overlap-add: sample `i` of hop `ti` is the beginning of frame `ti` under the beginning of the
/// window, on top of the end of frame `ti - 1` under the end of the window; the end of the last frame is
/// kept for the next call.
pub proof fn law_hops_overlap_by_half(frames: Seq<F32>, d: DspView, t: nat, ti: int, i: int)
    requires
        d.wf(),
        0 <= ti < t,
        0 <= i < 160,
        t * 320 <= frames.len(),
    ensures
        synthesis_of(frames, d, t).len() == t * 160,
        synthesis_of(frames, d, t)[ti * 160 + i] == carried(frames, d, ti, i).add_spec(
            frames[ti * 320 + i].mul_spec(d.window[i]),
        ),
        overlap_after(frames, d, t)[i] == carried(frames, d, t as int, i),
        overlap_after(frames, d, t)[160 + i].bits == 0,
{
    lemma_carried(frames, d, ti as nat, i);
    lemma_carried(frames, d, t, i);
    lemma_carried(frames, d, t, 160 + i);
    let g = synthesis_rows(frames, d);
    assert forall|l: int| 0 <= l < t implies (#[trigger] g(l)).len() == 160 by {}
    lemma_row_of_rows(t, 160, g, ti);
    lemma_row_fits(ti, t as int, 160);
    assert(row_of(rows(t, g), ti, 160)[i] == rows(t, g)[ti * 160 + i]);
}

// ------------------------------------------------------------------ bands

/// Where the bands begin, and where the last one ends.
pub open spec fn band_edges() -> Seq<int> {
    seq![
        0int, 2, 4, 6, 8, 10, 12, 14, 16, 18, 20, 22, 24, 26, 28, 30, 32, 34, 36, 38, 40, 43, 49, 56,
        63, 71, 79, 89, 101, 113, 127, 143, 161,
    ]
}

/// The bands begin where the edges say.
pub proof fn law_bands_have_these_edges(b: int)
    requires
        0 <= b < 32,
    ensures
        band_start(b as nat) == band_edges()[b],
        band_start(b as nat) + band_width(b) == band_edges()[b + 1],
        2 <= band_edges()[b + 1] - band_edges()[b] <= 18,
        0 <= band_edges()[b] < band_edges()[b + 1] <= 161,
{
    lemma_band_widths();
    lemma_low_bands(20);
    assert(band_start(21) == 43);
    assert(band_start(22) == 49);
    assert(band_start(23) == 56);
    assert(band_start(24) == 63);
    assert(band_start(25) == 71);
    assert(band_start(26) == 79);
    assert(band_start(27) == 89);
    assert(band_start(28) == 101);
    assert(band_start(29) == 113);
    assert(band_start(30) == 127);
    assert(band_start(31) == 143);
    if b < 20 {
        lemma_low_bands(b as nat);
        assert(band_edges()[b] == 2 * b && band_edges()[b + 1] == 2 * b + 2);
        assert(band_width(b) == 2);
    }
}

/// Every bin takes the gain of the band between whose edges it lies.
pub proof fn law_bins_take_the_gain_between_edges(m: Seq<F32>, t: nat, ti: int, b: int, f: int)
    requires
        0 <= ti < t,
        0 <= b < 32,
        band_edges()[b] <= f < band_edges()[b + 1],
    ensures
        erb_inv_of(m, t).len() == t * 161,
        erb_inv_of(m, t)[ti * 161 + f] == m[ti * 32 + b],
{
    law_bands_have_these_edges(b);
    lemma_erb_inv_len(m, t);
    law_bins_take_their_bands_gain(m, t, ti, b, f - band_edges()[b]);
}

/// The masked spectra: from bin 64 on, every part is the noisy part times the gain of its band, and the
/// first 64 bins are the deep filter's.
pub proof fn law_merging_masks_and_filters(
    spec: Seq<Complex>,
    mask: Seq<F32>,
    coefs: Seq<F32>,
    t: nat,
    ti: int,
    b: int,
    f: int,
    p: real,
    q: real,
    m: real,
)
    requires
        0 <= ti < t,
        0 <= b < 32,
        band_edges()[b] <= f < band_edges()[b + 1],
        t * 161 <= spec.len(),
        t * 32 <= mask.len(),
        t * 640 <= coefs.len(),
        parts_bounded(spec, p),
        bounded(mask, q),
        bounded(coefs, q),
        p * q <= m,
        moderate(2real * m),
    ensures
        ({
            let r = merged_of(spec, mask, coefs, t)[ti * 161 + f];
            let x = spec[ti * 161 + f];
            let g = mask[ti * 32 + b].value();
            &&& merged_of(spec, mask, coefs, t).len() == t * 161
            &&& f >= 64 ==> near(r.re, x.re.value() * g, 2real * m / 16777216real) && near(
                r.im,
                x.im.value() * g,
                2real * m / 16777216real,
            )
            &&& f < 64 ==> near(
                r.re,
                sum(5, |o: int| tap_re(spec, coefs, ti, f, o)),
                slack(5, 2real * m),
            ) && near(r.im, sum(5, |o: int| tap_im(spec, coefs, ti, f, o)), slack(5, 2real * m))
        }),
{
    law_bands_have_these_edges(b);
    let gains = erb_inv_of(mask, t);
    let masked = Seq::new(t * FREQS as nat, |i: int| spec[i].scaled_spec(gains[i]));
    lemma_place(ti, f, t as int, 161);
    if f < 64 {
        law_the_deep_filter_weighs_five_frames(spec, coefs, t, masked, ti, f, p, q, m);
    } else {
        law_the_deep_filter_leaves_the_upper_bins(spec, coefs, t, masked, ti, f);
        law_bins_take_the_gain_between_edges(mask, t, ti, b, f);
        lemma_place(ti, b, t as int, 32);
        let x = spec[ti * 161 + f];
        let g = mask[ti * 32 + b];
        assert(between(x.re, -p, p) && between(x.im, -p, p) && between(g, -q, q));
        lemma_bounded_product(x.re, g, p, q, m);
        lemma_bounded_product(x.im, g, p, q, m);
        lemma_mul(x.re, g);
        lemma_mul(x.im, g);
        lemma_close(x.re.mul_spec(g), x.re.value() * g.value(), 2real * m);
        lemma_close(x.im.mul_spec(g), x.im.value() * g.value(), 2real * m);
    }
}

/// The exact energy of a bin.
pub open spec fn exact_energy(x: Complex) -> real {
    x.re.value() * x.re.value() + x.im.value() * x.im.value()
}

proof fn lemma_energy_near(x: Complex, p: real, m: real)
    requires
        between(x.re, -p, p),
        between(x.im, -p, p),
        p * p <= m,
        moderate(2real * m),
    ensures
        near(x.energy_spec(), exact_energy(x), 8real * (2real * m) / 16777216real),
        0real <= exact_energy(x) <= 2real * m,
{
    lemma_bounded_product(x.re, x.re, p, p, m);
    lemma_bounded_product(x.im, x.im, p, p, m);
    let (a, b) = (x.re.value(), x.im.value());
    assert(a * a >= 0real && b * b >= 0real) by (nonlinear_arith);
    lemma_two_products(x.re, x.re, x.im, x.im, m);
}

proof fn lemma_energy_sum_tracks(row: Seq<Complex>, from: int, n: nat, p: real, m: real)
    requires
        0 <= from,
        from + n <= row.len(),
        n <= 18,
        parts_bounded(row, p),
        p * p <= m,
        moderate(2real * m),
    ensures
        tracks(
            energy_sum(row, from, from + n),
            sum(n, |j: int| exact_energy(row[from + j])),
            n as int,
            2real * m,
        ),
    decreases n,
{
    let g = |j: int| exact_energy(row[from + j]);
    if n == 0 {
        lemma_tracks_zero(2real * m);
    } else {
        let k = n - 1;
        lemma_energy_sum_tracks(row, from, k as nat, p, m);
        let x = row[from + k];
        assert(between(x.re, -p, p) && between(x.im, -p, p));
        lemma_energy_near(x, p, m);
        lemma_tracks_term(
            x.energy_spec(),
            g(k),
            energy_sum(row, from, from + k),
            sum(k as nat, g),
            k,
            2real * m,
        );
    }
}

/// The energy of a band is the mean energy of the bins between its edges, plus `1e-10`.
pub proof fn law_band_energies_are_means(
    spec: Seq<Complex>,
    t: nat,
    ti: int,
    b: int,
    p: real,
    m: real,
)
    requires
        0 <= ti < t,
        0 <= b < 32,
        t * 161 <= spec.len(),
        parts_bounded(spec, p),
        p * p <= m,
        moderate(2real * m),
    ensures
        ({
            let from = band_edges()[b];
            let w = band_edges()[b + 1] - band_edges()[b];
            &&& erb_energies_of(spec, t).len() == t * 32
            &&& near(
                erb_energies_of(spec, t)[ti * 32 + b],
                sum(w as nat, |j: int| exact_energy(spec[ti * 161 + from + j])) / (w as real)
                    + 1real / 10000000000real,
                slack(18, 2real * m) + 1real / 1000000000000000real,
            )
        }),
{
    law_bands_have_these_edges(b);
    let from = band_edges()[b];
    let w = band_edges()[b + 1] - band_edges()[b];
    let wr = w as real;
    let mm = 2real * m;
    lemma_row_fits(ti, t as int, 161);
    let row = row_of(spec, ti, 161);
    assert forall|i: int| 0 <= i < row.len() implies between((#[trigger] row[i]).re, -p, p)
        && between(row[i].im, -p, p) by {
        assert(row[i] == spec[ti * 161 + i]);
    }
    lemma_energy_sum_tracks(row, from, w as nat, p, m);
    let (g, h) = (
        |j: int| exact_energy(row[from + j]),
        |j: int| exact_energy(spec[ti * 161 + from + j]),
    );
    assert forall|j: int| 0 <= j < w implies #[trigger] g(j) == h(j) by {
        assert(row[from + j] == spec[ti * 161 + (from + j)]);
    }
    lemma_sum_eq(w as nat, g, h);
    let e = energy_sum(row, from, from + w);
    let a = sum(w as nat, g);
    lemma_slack_grows(w, 18, mm);
    assert(slack(18, mm) == 612real * mm / 16777216real);
    assert((w + 1) as real * mm <= 19real * mm) by (nonlinear_arith)
        requires
            w <= 18,
            mm >= 0real,
    ;
    // over the width
    law_small_integers_are_numbers(w);
    let n = F32::of_int(w);
    assert(!n.is_zero_spec()) by {
        if n.is_zero_spec() {
            crate::sums::lemma_zero_value(n);
        }
    }
    let ev = e.value();
    let x = ev / wr;
    assert(-(20real * mm) <= ev <= 20real * mm);
    assert(-(10real * mm) <= x <= 10real * mm) by (nonlinear_arith)
        requires
            x == ev / wr,
            -(20real * mm) <= ev <= 20real * mm,
            wr >= 2real,
    {
        assert(x * wr == ev);
    }
    vstd::arithmetic::power2::lemma2_to64();
    crate::values::lemma_power_monotonic(40, 127);
    assert(power(40) == 1099511627776real) by {
        vstd::arithmetic::power2::lemma2_to64_rest();
    }
    law_division_is_off_by_a_share(e, n);
    lemma_smallest_step();
    let y = a / wr;
    assert(-(slack(18, mm) / 2real) <= x - y <= slack(18, mm) / 2real) by (nonlinear_arith)
        requires
            x == ev / wr,
            y == a / wr,
            wr >= 2real,
            -slack(18, mm) <= ev - a <= slack(18, mm),
    {
        assert((x - y) * wr == ev - a);
    }
    // the floor
    let c = bits(ENERGY_FLOOR);
    lemma_floor_value();
    let d = e.div_spec(n);
    lemma_add(d, c);
    lemma_close(d.add_spec(c), d.value() + c.value(), 11real * mm + 1real / 1000000000real);
    let gr = energy_rows(spec);
    lemma_row_of_rows(t, 32, gr, ti);
    lemma_row_fits(ti, t as int, 32);
    assert(row_of(rows(t, gr), ti, 32)[b] == rows(t, gr)[ti * 32 + b]);
}

proof fn lemma_floor_value()
    ensures
        bits(ENERGY_FLOOR).is_finite_spec(),
        -(1real / 100000000000000000real) <= bits(ENERGY_FLOOR).value() - 1real / 10000000000real
            <= 1real / 100000000000000000real,
{
    vstd::arithmetic::power2::lemma2_to64();
    vstd::arithmetic::power2::lemma2_to64_rest();
    lemma_bits(bits(ENERGY_FLOOR), 57, 144115188075855872);
}

// ------------------------------------------------------------------ band features

/// The moved mean on reals: `x * (1 - alpha) + s * alpha`.
proof fn lemma_moved_near(s: F32, x: F32, alpha: F32, b: real)
    requires
        between(s, -b, b),
        between(x, -b, b),
        between(alpha, 0real, 1real),
        1real / 1099511627776real <= b <= 1000000real,
    ensures
        near(
            moved(s, x, alpha),
            x.value() * (1real - alpha.value()) + s.value() * alpha.value(),
            6real * b / 16777216real,
        ),
{
    lemma_units();
    let one = bits(ONE);
    let c = one.sub_spec(alpha);
    let (sv, xv, av, cv) = (s.value(), x.value(), alpha.value(), c.value());
    lemma_neg(alpha);
    lemma_add(one, alpha.neg_spec());
    lemma_zero();
    lemma_within(c, 1real - av, F32::zero_spec(), one);
    lemma_close(c, 1real - av, 1real);
    let (p, q) = (x.mul_spec(c), s.mul_spec(alpha));
    lemma_mul(x, c);
    lemma_product(xv, cv, b, 1real);
    lemma_close(p, xv * cv, b);
    lemma_mul(s, alpha);
    lemma_product(sv, av, b, 1real);
    lemma_close(q, sv * av, b);
    let w = 1real - av;
    let g = cv - w;
    lemma_product(xv, g, b, 1real / 16777216real);
    assert(b * (1real / 16777216real) == b / 16777216real) by (nonlinear_arith);
    assert(xv * cv == xv * w + xv * g) by (nonlinear_arith)
        requires
            g == cv - w,
    ;
    lemma_add(p, q);
    lemma_close(p.add_spec(q), p.value() + q.value(), 21real / 10real * b);
}

/// Level and feature of a band, out of the logarithm of its energy and the mean so far.
proof fn lemma_band_step(s: F32, x: F32, alpha: F32)
    requires
        between(s, -128real, 128real),
        between(x, -10real, 10real),
        between(alpha, 0real, 9999real / 10000real),
    ensures
        ({
            let db = bits(TEN).mul_spec(x);
            let s1 = moved(s, db, alpha);
            let v = db.sub_spec(s1).div_spec(bits(FORTY));
            let (l, a) = (10real * x.value(), alpha.value());
            &&& between(s1, -128real, 128real)
            &&& near(s1, l * (1real - a) + s.value() * a, 1real / 15000real)
            &&& near(v, (l - s1.value()) / 40real, 1real / 400000real)
            &&& near(v, a * (l - s.value()) / 40real, 1real / 200000real)
        }),
{
    vstd::arithmetic::power2::lemma2_to64();
    let (ten, forty) = (bits(TEN), bits(FORTY));
    lemma_bits(ten, 20, 1048576);
    lemma_bits(forty, 18, 262144);
    let db = ten.mul_spec(x);
    lemma_mul(ten, x);
    lemma_close(db, 10real * x.value(), 100real);
    let (l, a, sv, dv) = (10real * x.value(), alpha.value(), s.value(), db.value());
    lemma_moved_near(s, db, alpha, 128real);
    let s1 = moved(s, db, alpha);
    let w = 1real - a;
    let g = dv - l;
    lemma_product(w, g, 1real, 100real / 16777216real);
    assert(dv * w == l * w + w * g) by (nonlinear_arith)
        requires
            g == dv - l,
    ;
    // it stays in range
    assert(l * w <= 100real * w && -(100real * w) <= l * w) by (nonlinear_arith)
        requires
            -100real <= l <= 100real,
            w >= 0real,
    ;
    assert(sv * a <= 128real * a && -(128real * a) <= sv * a) by (nonlinear_arith)
        requires
            -128real <= sv <= 128real,
            a >= 0real,
    ;
    let d = db.sub_spec(s1);
    lemma_neg(s1);
    lemma_add(db, s1.neg_spec());
    lemma_close(d, dv - s1.value(), 229real);
    assert(!forty.is_zero_spec());
    crate::values::lemma_power_monotonic(3, 127);
    assert(power(3) == 8real);
    lemma_smallest_step();
    assert(forty.value() == 40real);
    let z = d.value() / forty.value();
    assert(z == d.value() / 40real);
    assert(-6real <= z <= 6real);
    law_division_is_off_by_a_share(d, forty);
    assert(a * (l - sv) == l - (l * w + sv * a)) by (nonlinear_arith)
        requires
            w == 1real - a,
    ;
}

proof fn lemma_band_states(logs: Seq<F32>, d: DspView, n: nat, b: int)
    requires
        d.wf(),
        0 <= b < 32,
        n * 32 <= logs.len(),
        bounded(logs, 10real),
        bounded(d.erb_state, 128real),
        between(d.alpha, 0real, 9999real / 10000real),
    ensures
        erb_state_after(logs, d, n).len() == 32,
        between(erb_state_after(logs, d, n)[b], -128real, 128real),
    decreases n,
{
    if n == 0 {
        assert(between(d.erb_state[b], -128real, 128real));
    } else {
        lemma_band_states(logs, d, (n - 1) as nat, b);
        let x = logs[(n - 1) * 32 + b];
        assert(between(x, -10real, 10real));
        lemma_band_step(erb_state_after(logs, d, (n - 1) as nat)[b], x, d.alpha);
    }
}

/// Band features, over all frames: with `x` the logarithm of the band's energy in frame `ti` and `s` the
/// mean before it, the mean becomes `10 * x * (1 - alpha) + s * alpha`, and the feature is what the level
/// `10 * x` lies above the new mean, over 40, which is `alpha * (10 * x - s) / 40`.
pub proof fn law_band_features_are_levels_above_their_mean(
    logs: Seq<F32>,
    d: DspView,
    t: nat,
    ti: int,
    b: int,
)
    requires
        d.wf(),
        0 <= ti < t,
        0 <= b < 32,
        t * 32 <= logs.len(),
        bounded(logs, 10real),
        bounded(d.erb_state, 128real),
        between(d.alpha, 0real, 9999real / 10000real),
    ensures
        ({
            let s0 = erb_state_after(logs, d, ti as nat)[b];
            let s1 = erb_state_after(logs, d, (ti + 1) as nat)[b];
            let v = erb_feat_of(logs, d, t)[ti * 32 + b];
            let (l, a) = (10real * logs[ti * 32 + b].value(), d.alpha.value());
            &&& erb_feat_of(logs, d, t).len() == t * 32
            &&& erb_state_after(logs, d, 0) == d.erb_state
            &&& near(s1, l * (1real - a) + s0.value() * a, 1real / 15000real)
            &&& near(v, (l - s1.value()) / 40real, 1real / 400000real)
            &&& near(v, a * (l - s0.value()) / 40real, 1real / 200000real)
        }),
{
    lemma_band_states(logs, d, ti as nat, b);
    lemma_place(ti, b, t as int, 32);
    assert(between(logs[ti * 32 + b], -10real, 10real));
    lemma_band_step(erb_state_after(logs, d, ti as nat)[b], logs[ti * 32 + b], d.alpha);
    let g = erb_rows(logs, d);
    lemma_row_of_rows(t, 32, g, ti);
    lemma_row_fits(ti, t as int, 32);
    assert(row_of(rows(t, g), ti, 32)[b] == rows(t, g)[ti * 32 + b]);
}

/// Level and feature of a band at levels and means of any size.
proof fn lemma_band_step_of_size(s: F32, x: F32, alpha: F32, b: real)
    requires
        between(s, -b, b),
        between(x, -(b / 20real), b / 20real),
        between(alpha, 0real, 1real),
        1real <= b <= 100000real,
    ensures
        ({
            let db = bits(TEN).mul_spec(x);
            let s1 = moved(s, db, alpha);
            let v = db.sub_spec(s1).div_spec(bits(FORTY));
            let (l, a) = (10real * x.value(), alpha.value());
            &&& near(s1, l * (1real - a) + s.value() * a, b / 2000000real)
            &&& near(v, (l - s1.value()) / 40real, b / 20000000real)
        }),
{
    vstd::arithmetic::power2::lemma2_to64();
    let (ten, forty) = (bits(TEN), bits(FORTY));
    lemma_bits(ten, 20, 1048576);
    lemma_bits(forty, 18, 262144);
    let db = ten.mul_spec(x);
    lemma_mul(ten, x);
    lemma_close(db, 10real * x.value(), b);
    let (l, a, sv, dv) = (10real * x.value(), alpha.value(), s.value(), db.value());
    lemma_moved_near(s, db, alpha, b);
    let s1 = moved(s, db, alpha);
    let w = 1real - a;
    let g = dv - l;
    lemma_product(w, g, 1real, b / 16777216real);
    assert(dv * w == l * w + w * g) by (nonlinear_arith)
        requires
            g == dv - l,
    ;
    lemma_product(l, w, b, 1real);
    lemma_product(sv, a, b, 1real);
    let d = db.sub_spec(s1);
    lemma_neg(s1);
    lemma_add(db, s1.neg_spec());
    lemma_close(d, dv - s1.value(), 4real * b);
    assert(!forty.is_zero_spec());
    crate::values::lemma_power_monotonic(20, 127);
    assert(power(20) == 1048576real);
    lemma_smallest_step();
    assert(forty.value() == 40real);
    let z = d.value() / forty.value();
    assert(z == d.value() / 40real);
    law_division_is_off_by_a_share(d, forty);
}

/// Band features of loud and of faint bands alike: out of a mean `s0` and a logarithm of whatever size,
/// with `b` above both in dB, the mean becomes `10 * x * (1 - alpha) + s0 * alpha`, and the feature is what
/// the level `10 * x` lies above it, over 40.
pub proof fn law_band_features_at_any_level(
    logs: Seq<F32>,
    d: DspView,
    t: nat,
    ti: int,
    band: int,
    b: real,
)
    requires
        0 <= ti < t,
        0 <= band < 32,
        t * 32 <= logs.len(),
        1real <= b <= 100000real,
        between(logs[ti * 32 + band], -(b / 20real), b / 20real),
        between(erb_state_after(logs, d, ti as nat)[band], -b, b),
        between(d.alpha, 0real, 1real),
    ensures
        ({
            let s0 = erb_state_after(logs, d, ti as nat)[band];
            let s1 = erb_state_after(logs, d, (ti + 1) as nat)[band];
            let v = erb_feat_of(logs, d, t)[ti * 32 + band];
            let (l, a) = (10real * logs[ti * 32 + band].value(), d.alpha.value());
            &&& near(s1, l * (1real - a) + s0.value() * a, b / 2000000real)
            &&& near(v, (l - s1.value()) / 40real, b / 20000000real)
        }),
{
    lemma_band_step_of_size(
        erb_state_after(logs, d, ti as nat)[band],
        logs[ti * 32 + band],
        d.alpha,
        b,
    );
    let g = erb_rows(logs, d);
    lemma_row_of_rows(t, 32, g, ti);
    lemma_row_fits(ti, t as int, 32);
    assert(row_of(rows(t, g), ti, 32)[band] == rows(t, g)[ti * 32 + band]);
}

/// The feature of a band grows with the band's energy: out of the same mean, the higher of two levels
/// gives the higher feature.
pub proof fn law_band_features_grow_with_the_energy(
    x: Seq<F32>,
    y: Seq<F32>,
    d: DspView,
    t: nat,
    ti: int,
    b: int,
)
    requires
        d.wf(),
        0 <= ti < t,
        0 <= b < 32,
        t * 32 <= x.len(),
        t * 32 <= y.len(),
        bounded(x, 10real),
        bounded(y, 10real),
        bounded(d.erb_state, 128real),
        between(d.alpha, 1real / 2real, 9999real / 10000real),
        erb_state_after(x, d, ti as nat)[b] == erb_state_after(y, d, ti as nat)[b],
        x[ti * 32 + b].value() + 1real / 10000real <= y[ti * 32 + b].value(),
    ensures
        erb_feat_of(x, d, t)[ti * 32 + b].value() < erb_feat_of(y, d, t)[ti * 32 + b].value(),
{
    law_band_features_are_levels_above_their_mean(x, d, t, ti, b);
    law_band_features_are_levels_above_their_mean(y, d, t, ti, b);
    let a = d.alpha.value();
    let (p, q) = (10real * x[ti * 32 + b].value(), 10real * y[ti * 32 + b].value());
    let s = erb_state_after(x, d, ti as nat)[b].value();
    assert(a * (q - s) >= a * (p - s) + 1real / 2000real) by (nonlinear_arith)
        requires
            a >= 1real / 2real,
            q >= p + 1real / 1000real,
    ;
}

/// Place `i` of a line of `n` places.
proof fn lemma_on_line(first: F32, last: F32, n: int, i: int, p: real)
    requires
        2 <= n <= 64,
        0 <= i < n,
        between(first, -p, p),
        between(last, -p, p),
        1real / 1000000real <= p <= 1000real,
    ensures
        near(
            on_line(first, last, n, i),
            first.value() + (last.value() - first.value()) * (i as real) / ((n - 1) as real),
            400real * p / 16777216real,
        ),
{
    let (a, b) = (first.value(), last.value());
    let s = last.sub_spec(first);
    lemma_neg(first);
    lemma_add(last, first.neg_spec());
    lemma_close(s, b - a, 2real * p);
    law_small_integers_are_numbers(i);
    law_small_integers_are_numbers(n - 1);
    let (x, y) = (F32::of_int(i), F32::of_int(n - 1));
    let (ir, nr) = (i as real, (n - 1) as real);
    let sv = s.value();
    let q = s.mul_spec(x);
    lemma_mul(s, x);
    lemma_product(sv, ir, 3real * p, 63real);
    lemma_close(q, sv * ir, 189real * p);
    assert(!y.is_zero_spec()) by {
        if y.is_zero_spec() {
            crate::sums::lemma_zero_value(y);
        }
    }
    let qv = q.value();
    let z = qv / nr;
    // the quotient is at most as large as the step
    let g = sv - (b - a);
    let h = qv - sv * ir;
    lemma_product(g, ir, 2real * p / 16777216real, 63real);
    let w = (b - a) * ir;
    assert(sv * ir == w + g * ir) by (nonlinear_arith)
        requires
            g == sv - (b - a),
            w == (b - a) * ir,
    ;
    let zz = w / nr;
    assert(-(2real * p) <= zz <= 2real * p) by (nonlinear_arith)
        requires
            zz == w / nr,
            w == (b - a) * ir,
            -(2real * p) <= b - a <= 2real * p,
            0real <= ir <= nr,
            nr >= 1real,
    {
        assert(zz * nr == w);
        assert(w <= 2real * p * ir && -(2real * p * ir) <= w);
        assert(2real * p * ir <= 2real * p * nr);
    }
    let e = qv - w;
    let c = 315real * p / 16777216real;
    assert(-c <= e <= c);
    assert(-c <= z - zz <= c) by (nonlinear_arith)
        requires
            z == qv / nr,
            zz == w / nr,
            -c <= qv - w <= c,
            c >= 0real,
            nr >= 1real,
    {
        assert((z - zz) * nr == qv - w);
    }
    vstd::arithmetic::power2::lemma2_to64();
    crate::values::lemma_power_monotonic(20, 127);
    assert(power(20) == 1048576real);
    law_division_is_off_by_a_share(q, y);
    lemma_smallest_step();
    let r = q.div_spec(y);
    lemma_add(first, r);
    lemma_close(first.add_spec(r), a + r.value(), 4real * p);
}

/// The means that a stream starts from: the levels fall from -60 to -90 dB over the 32 bands, and the
/// magnitudes from 0.001 to 0.0001 over the first 64 bins, each along a straight line.
pub proof fn law_means_start_on_straight_lines(window: Seq<F32>, alpha: F32, b: int, f: int)
    requires
        0 <= b < 32,
        0 <= f < 64,
    ensures
        fresh(window, alpha).erb_state.len() == 32,
        near(
            fresh(window, alpha).erb_state[b],
            -60real - 30real * (b as real) / 31real,
            1real / 400real,
        ),
        fresh(window, alpha).unit_state.len() == 64,
        near(
            fresh(window, alpha).unit_state[f],
            1real / 1000real - 9real / 10000real * (f as real) / 63real,
            1real / 10000000real,
        ),
{
    vstd::arithmetic::power2::lemma2_to64();
    vstd::arithmetic::power2::lemma2_to64_rest();
    lemma_bits(bits(ERB_FIRST), 18, 262144);
    lemma_bits(bits(ERB_LAST), 17, 131072);
    lemma_bits(bits(UNIT_FIRST), 33, 8589934592);
    lemma_bits(bits(UNIT_LAST), 37, 137438953472);
    lemma_on_line(bits(ERB_FIRST), bits(ERB_LAST), 32, b, 90real);
    lemma_on_line(bits(UNIT_FIRST), bits(UNIT_LAST), 64, f, 1001real / 1000000real);
    let d = fresh(window, alpha);
    assert(d.erb_state[b] == on_line(bits(ERB_FIRST), bits(ERB_LAST), 32, b));
    assert(d.unit_state[f] == on_line(bits(UNIT_FIRST), bits(UNIT_LAST), 64, f));
    assert((32int - 1) as real == 31real && (64int - 1) as real == 63real);
    let (br, fr) = (b as real, f as real);
    let (u, v) = (bits(UNIT_FIRST).value(), bits(UNIT_LAST).value());
    let w = v - u;
    let lw = bits(ERB_LAST).value() - bits(ERB_FIRST).value();
    assert(lw == -30real);
    assert(lw * br == -(30real * br)) by (nonlinear_arith)
        requires
            lw == -30real,
    ;
    let g = w + 9real / 10000real;
    assert(-(1real / 1000000000real) <= g <= 1real / 1000000000real);
    lemma_product(g, fr, 1real / 1000000000real, 63real);
    assert(w * fr == g * fr - 9real / 10000real * fr) by (nonlinear_arith)
        requires
            g == w + 9real / 10000real,
    ;
}

// ------------------------------------------------------------------ spectrum features

/// A number that is not negative and whose square is next to that of `r` is next to `r`.
proof fn lemma_roots_near(d: real, r: real, k: real)
    requires
        d >= 0real,
        r >= 0real,
        0real <= k <= 1real,
        -(k * (r * r)) <= d * d - r * r <= k * (r * r),
    ensures
        -(k * r) <= d - r <= k * r,
{
    if r > 0real {
        let g = d - r;
        let s = d + r;
        assert(g * s == d * d - r * r) by (nonlinear_arith)
            requires
                g == d - r,
                s == d + r,
        ;
        assert(k * (r * r) == (k * r) * r) by (nonlinear_arith);
        let b = k * r;
        assert(b >= 0real) by (nonlinear_arith)
            requires
                b == k * r,
                k >= 0real,
                r > 0real,
        ;
        assert(-b <= g <= b) by (nonlinear_arith)
            requires
                -(b * r) <= g * s <= b * r,
                s >= r,
                r > 0real,
                b >= 0real,
        {
            if g > b {
                assert(g * s > b * r);
            }
            if g < -b {
                assert(g * s < -(b * r));
            }
        }
    } else {
        assert(r * r == 0real) by (nonlinear_arith)
            requires
                r == 0real,
        ;
        assert(d == 0real) by (nonlinear_arith)
            requires
                d * d <= 0real,
                d >= 0real,
        ;
    }
}

/// A product that is not next to nothing is off by a share.
proof fn lemma_mul_share(a: F32, b: F32)
    requires
        between(a, -1000real, 1000real),
        between(b, -1000real, 1000real),
    ensures
        ({
            let x = a.value() * b.value();
            let size = if x < 0real {
                -x
            } else {
                x
            };
            near(a.mul_spec(b), x, size / 16777216real + power(-149))
        }),
{
    lemma_mul(a, b);
    let x = a.value() * b.value();
    lemma_product(a.value(), b.value(), 1000real, 1000real);
    lemma_close(a.mul_spec(b), x, 1000000real);
    reveal(is_near);
    lemma_24(x);
    crate::values::lemma_power_monotonic(-150, -149);
}

proof fn lemma_24(x: real)
    ensures
        x * power(-24) == x / 16777216real,
        (-x) * power(-24) == -(x / 16777216real),
{
    vstd::arithmetic::power2::lemma2_to64();
    let u = power(-24);
    assert(u == 1real / 16777216real);
    assert(x * u == x / 16777216real && (-x) * u == -(x / 16777216real)) by (nonlinear_arith)
        requires
            u == 1real / 16777216real,
    ;
}

/// The magnitude of a bin is next to the root of its energy.
proof fn lemma_magnitude_near(x: Complex, a: real)
    requires
        between(x.re, -1000real, 1000real),
        between(x.im, -1000real, 1000real),
        a >= 0real,
        a * a == exact_energy(x),
        exact_energy(x) >= 1real / 10000000000000000000000real,
    ensures
        near(x.energy_spec().sqrt_spec(), a, a / 1000000real),
{
    let (r, i) = (x.re.value(), x.im.value());
    let ee = exact_energy(x);
    assert(0real <= r * r <= 1000000real && 0real <= i * i <= 1000000real) by (nonlinear_arith)
        requires
            -1000real <= r <= 1000real,
            -1000real <= i <= 1000real,
    ;
    lemma_mul_share(x.re, x.re);
    lemma_mul_share(x.im, x.im);
    lemma_smallest_step();
    let (p, q) = (x.re.mul_spec(x.re), x.im.mul_spec(x.im));
    let e = p.add_spec(q);
    lemma_add(p, q);
    let y = p.value() + q.value();
    lemma_close(e, y, 3000000real);
    reveal(is_near);
    lemma_24(y);
    crate::values::lemma_power_monotonic(-150, -149);
    assert(-(ee / 4194304real) <= e.value() - ee <= ee / 4194304real);
    law_a_root_squares_back(e);
    let g = e.sqrt_spec().value();
    let gg = g * g;
    assert(-(ee / 1000000real) <= gg - ee <= ee / 1000000real);
    lemma_roots_near(g, a, 1real / 1000000real);
}

/// Spectrum features: the mean magnitude of a bin moves to `a * (1 - alpha) + s * alpha`, with `a` the
/// magnitude of the bin in frame `ti` and `s` the mean before it.
pub proof fn law_mean_magnitudes_move(
    spec: Seq<Complex>,
    d: DspView,
    t: nat,
    ti: int,
    f: int,
    a: real,
    p: real,
)
    requires
        0 <= ti < t,
        0 <= f < 64,
        t * 161 <= spec.len(),
        between(spec[ti * 161 + f].re, -1000real, 1000real),
        between(spec[ti * 161 + f].im, -1000real, 1000real),
        a >= 0real,
        a * a == exact_energy(spec[ti * 161 + f]),
        exact_energy(spec[ti * 161 + f]) >= 1real / 10000000000000000000000real,
        a <= p / 2real,
        between(unit_state_after(spec, d, ti as nat)[f], 0real, p),
        between(d.alpha, 0real, 1real),
        1real / 1000000000real <= p <= 1000000real,
    ensures
        ({
            let s0 = unit_state_after(spec, d, ti as nat)[f].value();
            let al = d.alpha.value();
            &&& unit_state_after(spec, d, 0) == d.unit_state
            &&& near(
                unit_state_after(spec, d, (ti + 1) as nat)[f],
                a * (1real - al) + s0 * al,
                p / 900000real,
            )
        }),
{
    let x = spec[ti * 161 + f];
    lemma_magnitude_near(x, a);
    let g = x.energy_spec().sqrt_spec();
    let s = unit_state_after(spec, d, ti as nat)[f];
    lemma_moved_near(s, g, d.alpha, p);
    let w = 1real - d.alpha.value();
    assert(unit_state_after(spec, d, (ti + 1) as nat)[f] == moved(s, g, d.alpha));
    let e = g.value() - a;
    lemma_product(w, e, 1real, p / 2000000real);
    let gv = g.value();
    assert(gv * w == a * w + w * e) by (nonlinear_arith)
        requires
            e == gv - a,
    ;
}

/// A number over the root of another.
proof fn lemma_over_root(x: F32, s: F32, r: real)
    requires
        between(x, -1000real, 1000real),
        s.is_finite_spec(),
        s.value() >= 1real / 10000000000000000000000real,
        s.value() <= 1000000real,
        r >= 0real,
        r * r == s.value(),
    ensures
        ({
            let v = x.div_spec(s.sqrt_spec());
            let size = if x.value() < 0real {
                -x.value()
            } else {
                x.value()
            };
            let b = size / 1000000real + 1real / 100000000000000000000000000real;
            v.is_finite_spec() && -b <= v.value() * r - x.value() <= b
        }),
{
    law_a_root_squares_back(s);
    let d = s.sqrt_spec();
    let dv = d.value();
    let k = 1real / 4194304real;
    lemma_roots_near(dv, r, k);
    assert(0real < r <= 1000real) by (nonlinear_arith)
        requires
            r * r <= 1000000real,
            r * r > 0real,
            r >= 0real,
    ;
    assert(r >= 1real / 100000000000real) by (nonlinear_arith)
        requires
            r * r >= 1real / 10000000000000000000000real,
            r >= 0real,
    ;
    assert(dv > 0real);
    assert(!d.is_zero_spec()) by {
        if d.is_zero_spec() {
            crate::sums::lemma_zero_value(d);
        }
    }
    let xv = x.value();
    let q = xv / dv;
    assert(q * dv == xv) by (nonlinear_arith)
        requires
            q == xv / dv,
            dv > 0real,
    ;
    // it is finite
    let big = 1000000000000000real;
    assert(-big <= q <= big) by (nonlinear_arith)
        requires
            q * dv == xv,
            -1000real <= xv <= 1000real,
            dv >= 1real / 200000000000real,
            big == 1000000000000000real,
    {
        if q > big {
            assert(q * dv > 1000real);
        }
        if q < -big {
            assert(q * dv < -1000real);
        }
    }
    vstd::arithmetic::power2::lemma2_to64();
    vstd::arithmetic::power2::lemma2_to64_rest();
    crate::values::lemma_power_monotonic(50, 127);
    assert(power(50) == 1125899906842624real);
    law_division_is_off_by_a_share(x, d);
    lemma_smallest_step();
    let v = x.div_spec(d).value();
    let e = v - q;
    let size = if xv < 0real {
        -xv
    } else {
        xv
    };
    let qs = if q < 0real {
        -q
    } else {
        q
    };
    assert(qs * dv == size) by (nonlinear_arith)
        requires
            q * dv == xv,
            dv > 0real,
            size == if xv < 0real {
                -xv
            } else {
                xv
            },
            qs == if q < 0real {
                -q
            } else {
                q
            },
    ;
    let qr = qs * r;
    assert(qr <= 101real / 100real * size) by (nonlinear_arith)
        requires
            qr == qs * r,
            qs * dv == size,
            r <= 101real / 100real * dv,
            qs >= 0real,
    ;
    let g = r - dv;
    assert(-(k * qr) <= q * g <= k * qr) by (nonlinear_arith)
        requires
            -(k * r) <= g <= k * r,
            qr == qs * r,
            qs == if q < 0real {
                -q
            } else {
                q
            },
            k > 0real,
    {
        assert(qs * g <= qs * (k * r) && -(qs * (k * r)) <= qs * g);
        assert(qs * (k * r) == k * (qs * r));
    }
    let n = power(-149);
    let c = qs / 8388608real + n;
    assert(-(c * r) <= e * r <= c * r) by (nonlinear_arith)
        requires
            -c <= e <= c,
            r > 0real,
    ;
    assert(c * r == qr / 8388608real + n * r) by (nonlinear_arith)
        requires
            c == qs / 8388608real + n,
            qr == qs * r,
    ;
    assert(n * r <= 1000real * n) by (nonlinear_arith)
        requires
            n > 0real,
            r <= 1000real,
    ;
    assert(v * r - xv == q * g + e * r) by (nonlinear_arith)
        requires
            e == v - q,
            g == r - dv,
            q * dv == xv,
    ;
}

/// Spectrum features: in both planes, the feature of bin `f` of frame `ti`, times the root `r` of the
/// mean magnitude after that frame, is the part of the bin.
pub proof fn law_spectrum_features_are_over_the_root_of_the_mean(
    spec: Seq<Complex>,
    d: DspView,
    t: nat,
    ti: int,
    f: int,
    r: real,
)
    requires
        0 <= ti < t,
        0 <= f < 64,
        t * 161 <= spec.len(),
        between(spec[ti * 161 + f].re, -1000real, 1000real),
        between(spec[ti * 161 + f].im, -1000real, 1000real),
        unit_state_after(spec, d, (ti + 1) as nat)[f].is_finite_spec(),
        1real / 10000000000000000000000real <= unit_state_after(
            spec,
            d,
            (ti + 1) as nat,
        )[f].value() <= 1000000real,
        r >= 0real,
        r * r == unit_state_after(spec, d, (ti + 1) as nat)[f].value(),
    ensures
        ({
            let out = spec_feat_of(spec, d, t);
            let x = spec[ti * 161 + f];
            let (v, w) = (out[ti * 64 + f], out[t * 64 + ti * 64 + f]);
            let part = |y: real|
                (if y < 0real {
                    -y
                } else {
                    y
                }) / 1000000real + 1real / 100000000000000000000000000real;
            let (p, q) = (v.value() * r - x.re.value(), w.value() * r - x.im.value());
            &&& out.len() == 2 * t * 64
            &&& v.is_finite_spec() && -part(x.re.value()) <= p <= part(x.re.value())
            &&& w.is_finite_spec() && -part(x.im.value()) <= q <= part(x.im.value())
        }),
{
    let x = spec[ti * 161 + f];
    let s = unit_state_after(spec, d, (ti + 1) as nat)[f];
    lemma_over_root(x.re, s, r);
    lemma_over_root(x.im, s, r);
    let (g, h) = (unit_re_rows(spec, d), unit_im_rows(spec, d));
    lemma_row_of_rows(t, 64, g, ti);
    lemma_row_of_rows(t, 64, h, ti);
    lemma_place(ti, f, t as int, 64);
    lemma_row_fits(ti, t as int, 64);
    assert(row_of(rows(t, g), ti, 64)[f] == rows(t, g)[ti * 64 + f]);
    assert(row_of(rows(t, h), ti, 64)[f] == rows(t, h)[ti * 64 + f]);
    let out = rows(t, g) + rows(t, h);
    assert(out[ti * 64 + f] == rows(t, g)[ti * 64 + f]);
    assert(out[t * 64 + (ti * 64 + f)] == rows(t, h)[ti * 64 + f]);
}

} // verus!
