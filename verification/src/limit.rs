//! What a limit on the attenuation does to the audio.
use vstd::arithmetic::power2::{lemma2_to64, pow2};
use vstd::prelude::*;

use crate::dsp::{fresh, spectra_of, spectra_rows, spectrum_rows, synthesis_of, Complex, DspView};
use crate::exponential::lemma_bounded;
use crate::float::{law_multiplication_commutes, law_plus_zero, law_times_zero, F32};
use crate::hush::{
    enhanced_of, featured, law_a_vanishing_share_changes_nothing, limit_exponent_of, limited_of,
    same_but_for_zeros, HushView, TWENTY,
};
use crate::pipeline::{
    enhance_of, forward_rows, halves_add_up, inverse_rows, law_analysis_and_synthesis_reconstruct,
    law_output_is_one_hop_late, lemma_first_hop, lemma_same_synthesis, logs_of, noisy_of,
    returned_of, started, transforms_undo_each_other, Outside,
};
use crate::ranges::{between, lemma_bits, lemma_product, lemma_units, lemma_zero};
use crate::rows::{lemma_place, lemma_row_fits, lemma_row_of_rows, lemma_rows_len, row_of, rows};
use crate::shares::{lemma_rounded, lemma_smallest_step};
use crate::simd::{bits, ONE};
use crate::sums::near;
use crate::values::{
    lemma_add, lemma_close, lemma_div, lemma_mul, lemma_neg, lemma_no_number_between, lemma_order,
    lemma_power_step, lemma_sign, lemma_within, power,
};
use crate::weights::zeros;

verus! {

/// One thousand.
pub const THOUSAND: u32 = 0x447a_0000;

/// Minus fifty.
pub const MINUS_FIFTY: u32 = 0xc248_0000;

/// The share of the noisy signal that a limit of `db` decibels keeps.
pub open spec fn share_of(o: Outside, db: Option<F32>) -> Option<F32> {
    match limit_exponent_of(db) {
        None => None,
        Some(e) => Some((o.pow10)(e)),
    }
}

/// The enhanced audio under a limit of `db` decibels; without one, fully suppressed.
pub open spec fn enhance_with_of(
    h: HushView,
    o: Outside,
    window: Seq<F32>,
    alpha: F32,
    audio: Seq<F32>,
    db: Option<F32>,
) -> Seq<F32> {
    enhance_of(h, o, window, alpha, audio, share_of(o, db))
}

/// Only the size of a limit counts, not its sign.
pub proof fn law_only_the_size_of_a_limit_counts(
    h: HushView,
    o: Outside,
    window: Seq<F32>,
    alpha: F32,
    audio: Seq<F32>,
    d: F32,
)
    ensures
        enhance_with_of(h, o, window, alpha, audio, Some(d.neg_spec())) == enhance_with_of(
            h,
            o,
            window,
            alpha,
            audio,
            Some(d),
        ),
{
    lemma_neg(d);
    assert(d.neg_spec().abs_spec() == d.abs_spec());
}

/// No limit, and one that is not a number, suppress fully.
pub proof fn law_no_limit_suppresses_fully(
    h: HushView,
    o: Outside,
    window: Seq<F32>,
    alpha: F32,
    audio: Seq<F32>,
    d: F32,
)
    requires
        d.is_nan_spec(),
    ensures
        enhance_with_of(h, o, window, alpha, audio, None) == enhance_of(
            h,
            o,
            window,
            alpha,
            audio,
            None,
        ),
        enhance_with_of(h, o, window, alpha, audio, Some(d)) == enhance_of(
            h,
            o,
            window,
            alpha,
            audio,
            None,
        ),
{
}

/// The size of a number.
pub open spec fn size_of(d: F32) -> real {
    if d.value() < 0real {
        -d.value()
    } else {
        d.value()
    }
}

/// The power of ten of a limit is minus a twentieth of the limit's size: for every finite limit it is
/// off by at most a share of 2^-23, or by the smallest step of all, and it is never above zero.
pub proof fn law_exponents_are_minus_a_twentieth(d: F32)
    requires
        d.is_finite_spec(),
    ensures
        limit_exponent_of(Some(d)) matches Some(e) && ({
            let x = size_of(d) / 20real;
            near(e, -x, x / 8388608real + power(-149)) && e.value() <= 0real
        }),
{
    let a = d.abs_spec();
    let n = a.neg_spec();
    lemma_neg(a);
    assert(a.mag() == d.mag() && !a.is_neg_spec());
    lemma_sign(d);
    lemma_sign(a);
    assert(a.value() == size_of(d));
    lemma2_to64();
    let twenty = bits(TWENTY);
    lemma_bits(twenty, 19, 524288);
    assert(twenty.value() == 20real);
    assert(!twenty.is_zero_spec());
    lemma_bounded(d);
    lemma_power_step(127);
    let x = n.value() / twenty.value();
    assert(x == -(size_of(d) / 20real));
    lemma_div(n, twenty);
    lemma_rounded(n.div_spec(twenty), x);
}

/// A larger limit asks for a smaller power of ten, if the two limits differ by more than a millionth.
pub proof fn law_exponents_fall_as_limits_grow(c: F32, d: F32)
    requires
        c.is_finite_spec(),
        d.is_finite_spec(),
        size_of(d) >= size_of(c) + size_of(c) / 1000000real,
        size_of(d) >= 1real / 100000000000000000000real,
    ensures
        limit_exponent_of(Some(c))->Some_0.value() > limit_exponent_of(Some(d))->Some_0.value(),
{
    law_exponents_are_minus_a_twentieth(c);
    law_exponents_are_minus_a_twentieth(d);
    lemma_smallest_step();
}

/// An infinite limit asks for a power of ten that is infinitely far down; no limit, and one that is not
/// a number, ask for none.
pub proof fn law_other_limits(d: F32)
    ensures
        limit_exponent_of(None) is None,
        d.is_nan_spec() ==> limit_exponent_of(Some(d)) is None,
        d.is_inf_spec() ==> (limit_exponent_of(Some(d)) matches Some(e) && e.is_inf_spec()
            && e.is_neg_spec()),
{
    reveal(F32::div_spec);
    let n = d.abs_spec().neg_spec();
    assert(!bits(TWENTY).is_nan_spec() && !bits(TWENTY).is_inf_spec());
    if d.is_inf_spec() {
        assert(d.abs_spec().mag() == d.mag());
        assert(n.mag() == d.mag() && n.is_neg_spec());
    }
}

// ------------------------------------------------------------------ from spectra to samples

/// The enhanced spectra of the whole hops of `audio`.
pub open spec fn enhanced_spectra_of(
    h: HushView,
    o: Outside,
    window: Seq<F32>,
    alpha: F32,
    audio: Seq<F32>,
    lim: Option<F32>,
) -> Seq<Complex> {
    let t = audio.len() / 160;
    let spec = noisy_of(o, window, alpha, audio);
    enhanced_of(h, started(window, alpha, audio), spec, logs_of(o, spec, t), t, lim)
}

/// The frames that come back from `t` spectra.
pub open spec fn frames_from(o: Outside, spec: Seq<Complex>, t: nat) -> Seq<F32> {
    rows(t, inverse_rows(o, spectra_of(spec, t)))
}

/// Sample `n` of the overlap-add of frames: the end of one frame under the window and the beginning
/// of the next.
pub open spec fn sample_of(frames: Seq<F32>, window: Seq<F32>, n: int) -> F32 {
    let (ti, i) = (n / 160, n % 160);
    let next = frames[ti * 320 + i].mul_spec(window[i]);
    if ti == 0 {
        F32::zero_spec().add_spec(next)
    } else {
        F32::zero_spec().add_spec(
            frames[(ti - 1) * 320 + (160 + i)].mul_spec(window[160 + i]),
        ).add_spec(next)
    }
}

proof fn lemma_sample(frames: Seq<F32>, d: DspView, t: nat, n: int)
    requires
        d.window.len() == 320,
        d.syn_buf == zeros(320),
        frames.len() == t * 320,
        0 <= n < t * 160,
    ensures
        synthesis_of(frames, d, t)[n] == sample_of(frames, d.window, n),
{
    let f = fresh(d.window, d.alpha);
    let audio = zeros(t * 160);
    lemma_same_synthesis(frames, d, f, t);
    let (ti, i) = (n / 160, n % 160);
    if ti == 0 {
        lemma_first_hop(audio, frames, f, t, i);
    } else {
        law_output_is_one_hop_late(audio, frames, f, t, ti, i);
        lemma_row_fits(ti, t as int, 320);
        lemma_row_fits(ti - 1, t as int, 320);
        assert(row_of(frames, ti - 1, 320)[160 + i] == frames[(ti - 1) * 320 + (160 + i)]);
        assert(row_of(frames, ti, 320)[i] == frames[ti * 320 + i]);
    }
}

/// A frame is the inverse transform of its spectrum.
proof fn lemma_frame(o: Outside, spec: Seq<Complex>, t: nat, ti: int, k: int)
    requires
        o.wf(),
        0 <= ti < t,
        0 <= k < 320,
    ensures
        frames_from(o, spec, t).len() == t * 320,
        frames_from(o, spec, t)[ti * 320 + k] == (o.inverse)(spectra_rows(spec)(ti))[k],
{
    let g = spectra_rows(spec);
    lemma_row_of_rows(t, 320, g, ti);
    let full = spectra_of(spec, t);
    let inv = inverse_rows(o, full);
    lemma_row_of_rows(t, 320, inv, ti);
    lemma_row_fits(ti, t as int, 320);
    assert(row_of(rows(t, inv), ti, 320)[k] == rows(t, inv)[ti * 320 + k]);
}

/// The output is made of the samples of the frames of the enhanced spectra.
proof fn lemma_output(
    h: HushView,
    o: Outside,
    window: Seq<F32>,
    alpha: F32,
    audio: Seq<F32>,
    lim: Option<F32>,
    n: int,
)
    requires
        o.wf(),
        window.len() == 320,
        0 <= n < audio.len() / 160 * 160,
    ensures
        enhance_of(h, o, window, alpha, audio, lim)[n] == sample_of(
            frames_from(
                o,
                enhanced_spectra_of(h, o, window, alpha, audio, lim),
                audio.len() / 160,
            ),
            window,
            n,
        ),
{
    let t = audio.len() / 160;
    let spec = noisy_of(o, window, alpha, audio);
    let d = featured(started(window, alpha, audio), spec, logs_of(o, spec, t), t);
    let e = enhanced_spectra_of(h, o, window, alpha, audio, lim);
    lemma_frame(o, e, t, 0, 0);
    lemma_sample(frames_from(o, e, t), d, t, n);
}

proof fn lemma_spectra_len(
    h: HushView,
    o: Outside,
    window: Seq<F32>,
    alpha: F32,
    audio: Seq<F32>,
    lim: Option<F32>,
)
    ensures
        noisy_of(o, window, alpha, audio).len() == audio.len() / 160 * 161,
        enhanced_spectra_of(h, o, window, alpha, audio, lim).len() == audio.len() / 160 * 161,
{
    let t = audio.len() / 160;
    let fft = rows(t, forward_rows(o, crate::dsp::analysis_of(audio, fresh(window, alpha))));
    lemma_rows_len(t, 161, spectrum_rows(fft));
}

// ------------------------------------------------------------------ a huge limit

/// Whether every part of every bin is a finite number.
pub open spec fn bins_are_finite(s: Seq<Complex>) -> bool {
    forall|i: int|
        0 <= i < s.len() ==> (#[trigger] s[i]).re.is_finite_spec() && s[i].im.is_finite_spec()
}

/// Whether two bins are the same but for the sign of a zero.
pub open spec fn same_bin(a: Complex, b: Complex) -> bool {
    same_but_for_zeros(a.re, b.re) && same_but_for_zeros(a.im, b.im)
}

/// Whether the sign of a zero in a spectrum changes no more than the sign of a zero in its frame, as
/// with any transform that is made of sums and products of finite numbers.
pub open spec fn signs_of_zeros_stay_apart(o: Outside) -> bool {
    forall|x: Seq<Complex>, y: Seq<Complex>, k: int|
        #![trigger (o.inverse)(x)[k], (o.inverse)(y)[k]]
        x.len() == 320 && y.len() == 320 && 0 <= k < 320 && (forall|i: int|
            0 <= i < 320 ==> same_bin(#[trigger] x[i], y[i])) ==> same_but_for_zeros(
            (o.inverse)(x)[k],
            (o.inverse)(y)[k],
        )
}

/// Whether ten to the power of minus fifty or less is nothing, as in binary32, whose smallest number
/// is above `1e-45`.
pub open spec fn small_powers_vanish(o: Outside) -> bool {
    forall|e: F32|
        !e.is_nan_spec() && e.order() <= bits(MINUS_FIFTY).order() ==> #[trigger] (o.pow10)(e)
            == F32::zero_spec()
}

proof fn lemma_same_times(a: F32, b: F32, w: F32)
    requires
        same_but_for_zeros(a, b),
        w.is_finite_spec(),
    ensures
        same_but_for_zeros(a.mul_spec(w), b.mul_spec(w)),
{
    if b.is_zero_spec() {
        law_times_zero(w, a);
        law_times_zero(w, b);
        law_multiplication_commutes(w, a);
        law_multiplication_commutes(w, b);
    }
}

proof fn lemma_same_plus(a: F32, b: F32, c: F32, d: F32)
    requires
        same_but_for_zeros(a, b),
        same_but_for_zeros(c, d),
    ensures
        same_but_for_zeros(a.add_spec(c), b.add_spec(d)),
{
    if b.is_zero_spec() && d.is_zero_spec() {
        lemma_zeros_add_up(a, c);
        lemma_zeros_add_up(b, d);
    } else if b.is_zero_spec() {
        if d.is_finite_spec() {
            law_plus_zero(d, a);
            law_plus_zero(d, b);
        } else {
            reveal(F32::add_spec);
        }
    } else if d.is_zero_spec() {
        if b.is_finite_spec() {
            law_plus_zero(b, c);
            law_plus_zero(b, d);
        } else {
            reveal(F32::add_spec);
        }
    }
}

proof fn lemma_zeros_add_up(a: F32, b: F32)
    requires
        a.is_zero_spec(),
        b.is_zero_spec(),
    ensures
        a.add_spec(b).is_zero_spec(),
{
    reveal(F32::add_spec);
    lemma2_to64();
    assert(a.sig() == 0 && b.sig() == 0);
    assert(0 * pow2(0) == 0);
}

/// Spectra that are the same but for the signs of zeros give audio that is.
proof fn lemma_same_audio(
    o: Outside,
    window: Seq<F32>,
    x: Seq<Complex>,
    y: Seq<Complex>,
    t: nat,
    n: int,
)
    requires
        o.wf(),
        signs_of_zeros_stay_apart(o),
        forall|i: int| 0 <= i < 320 ==> (#[trigger] window[i]).is_finite_spec(),
        x.len() == t * 161,
        y.len() == t * 161,
        forall|i: int| 0 <= i < t * 161 ==> same_bin(#[trigger] x[i], y[i]),
        0 <= n < t * 160,
    ensures
        same_but_for_zeros(
            sample_of(frames_from(o, x, t), window, n),
            sample_of(frames_from(o, y, t), window, n),
        ),
{
    let (ti, i) = (n / 160, n % 160);
    lemma_same_frame(o, x, y, t, ti, i);
    let (p, q) = (frames_from(o, x, t), frames_from(o, y, t));
    let k = ti * 320 + i;
    lemma_same_times(p[k], q[k], window[i]);
    let zero = F32::zero_spec();
    if ti == 0 {
        lemma_same_plus(zero, zero, p[k].mul_spec(window[i]), q[k].mul_spec(window[i]));
    } else {
        lemma_same_frame(o, x, y, t, ti - 1, 160 + i);
        let j = (ti - 1) * 320 + (160 + i);
        let w = window[160 + i];
        lemma_same_times(p[j], q[j], w);
        lemma_same_plus(zero, zero, p[j].mul_spec(w), q[j].mul_spec(w));
        lemma_same_plus(
            zero.add_spec(p[j].mul_spec(w)),
            zero.add_spec(q[j].mul_spec(w)),
            p[k].mul_spec(window[i]),
            q[k].mul_spec(window[i]),
        );
    }
}

proof fn lemma_same_frame(
    o: Outside,
    x: Seq<Complex>,
    y: Seq<Complex>,
    t: nat,
    ti: int,
    k: int,
)
    requires
        o.wf(),
        signs_of_zeros_stay_apart(o),
        x.len() == t * 161,
        y.len() == t * 161,
        forall|i: int| 0 <= i < t * 161 ==> same_bin(#[trigger] x[i], y[i]),
        0 <= ti < t,
        0 <= k < 320,
    ensures
        same_but_for_zeros(
            frames_from(o, x, t)[ti * 320 + k],
            frames_from(o, y, t)[ti * 320 + k],
        ),
{
    lemma_frame(o, x, t, ti, k);
    lemma_frame(o, y, t, ti, k);
    let (a, b) = (spectra_rows(x)(ti), spectra_rows(y)(ti));
    assert forall|f: int| 0 <= f < 320 implies same_bin(#[trigger] a[f], b[f]) by {
        if f < 161 {
            lemma_place(ti, f, t as int, 161);
            assert(same_bin(x[ti * 161 + f], y[ti * 161 + f]));
        } else {
            let g = 320 - f;
            lemma_place(ti, g, t as int, 161);
            assert(same_bin(x[ti * 161 + g], y[ti * 161 + g]));
        }
    }
    assert(same_but_for_zeros((o.inverse)(a)[k], (o.inverse)(b)[k]));
}

/// From a thousand decibels on, the power of ten is minus fifty or less.
proof fn lemma_huge(d: F32)
    requires
        !d.is_nan_spec(),
        bits(THOUSAND).order() <= d.abs_spec().order(),
    ensures
        limit_exponent_of(Some(d)) matches Some(e) && !e.is_nan_spec() && e.order() <= bits(
            MINUS_FIFTY,
        ).order(),
{
    let a = d.abs_spec();
    let n = a.neg_spec();
    let e = n.div_spec(bits(TWENTY));
    assert(a.mag() == d.mag() && !a.is_neg_spec());
    assert(n.mag() == d.mag() && n.is_neg_spec());
    if d.is_inf_spec() {
        reveal(F32::div_spec);
    } else {
        lemma2_to64();
        lemma_bits(bits(TWENTY), 19, 524288);
        lemma_bits(bits(THOUSAND), 14, 16384);
        lemma_bits(bits(MINUS_FIFTY), 18, 262144);
        lemma_order(bits(THOUSAND), a);
        lemma_neg(a);
        lemma_div(n, bits(TWENTY));
        let v = n.value();
        assert(v / 20real <= -50real);
        lemma_no_number_between(e, v / 20real, bits(MINUS_FIFTY));
    }
}

/// A huge limit suppresses as fully as none: from a thousand decibels on, in either direction, every
/// sample is the one that comes without a limit, but for the sign of a zero.
pub proof fn law_a_huge_limit_suppresses_fully(
    h: HushView,
    o: Outside,
    window: Seq<F32>,
    alpha: F32,
    audio: Seq<F32>,
    d: F32,
    n: int,
)
    requires
        o.wf(),
        signs_of_zeros_stay_apart(o),
        small_powers_vanish(o),
        window.len() == 320,
        forall|i: int| 0 <= i < 320 ==> (#[trigger] window[i]).is_finite_spec(),
        bins_are_finite(noisy_of(o, window, alpha, audio)),
        bins_are_finite(enhanced_spectra_of(h, o, window, alpha, audio, None)),
        !d.is_nan_spec(),
        bits(THOUSAND).order() <= d.abs_spec().order(),
        0 <= n < audio.len() / 160 * 160,
    ensures
        same_but_for_zeros(
            enhance_with_of(h, o, window, alpha, audio, Some(d))[n],
            enhance_with_of(h, o, window, alpha, audio, None)[n],
        ),
{
    let t = audio.len() / 160;
    let zero = F32::zero_spec();
    lemma_huge(d);
    assert(share_of(o, Some(d)) == Some(zero));
    let spec = noisy_of(o, window, alpha, audio);
    let x = enhanced_spectra_of(h, o, window, alpha, audio, Some(zero));
    let y = enhanced_spectra_of(h, o, window, alpha, audio, None);
    lemma_spectra_len(h, o, window, alpha, audio, Some(zero));
    lemma_spectra_len(h, o, window, alpha, audio, None);
    assert forall|i: int| 0 <= i < t * 161 implies same_bin(#[trigger] x[i], y[i]) by {
        assert(spec[i].re.is_finite_spec() && y[i].re.is_finite_spec());
        law_a_vanishing_share_changes_nothing(spec, y, i);
    }
    lemma_output(h, o, window, alpha, audio, Some(zero), n);
    lemma_output(h, o, window, alpha, audio, None, n);
    lemma_same_audio(o, window, x, y, t, n);
}

// ------------------------------------------------------------------ the mix in time

/// Whether both parts of every bin lie between `-r` and `r`.
pub open spec fn bins_within(s: Seq<Complex>, r: real) -> bool {
    forall|i: int|
        0 <= i < s.len() ==> between((#[trigger] s[i]).re, -r, r) && between(s[i].im, -r, r)
}

/// Whether `x` is `y * l + z * (1 - l)`, to within `d`.
pub open spec fn is_mixed(x: real, y: real, z: real, l: real, d: real) -> bool {
    -d <= x - (y * l + z * (1real - l)) <= d
}

/// Whether `x` is a mix of `y` and `z` in both parts.
pub open spec fn is_mixed_bin(x: Complex, y: Complex, z: Complex, l: real, d: real) -> bool {
    is_mixed(x.re.value(), y.re.value(), z.re.value(), l, d) && is_mixed(
        x.im.value(),
        y.im.value(),
        z.im.value(),
        l,
        d,
    )
}

/// Whether the inverse transform is linear up to `e`: a spectrum that is a mix of two others, whose
/// bins lie between `-r` and `r`, to within `r / 2^21` in every bin, comes back as that mix of their
/// frames, to within `e` in every sample.
pub open spec fn mixes_come_back(o: Outside, l: real, r: real, e: real) -> bool {
    forall|x: Seq<Complex>, y: Seq<Complex>, z: Seq<Complex>, k: int|
        #![trigger (o.inverse)(x)[k], (o.inverse)(y)[k], (o.inverse)(z)[k]]
        x.len() == 320 && y.len() == 320 && z.len() == 320 && 0 <= k < 320 && bins_within(y, r)
            && bins_within(z, r) && (forall|i: int|
            0 <= i < 320 ==> is_mixed_bin(#[trigger] x[i], y[i], z[i], l, r / 2097152real))
            ==> is_mixed(
            (o.inverse)(x)[k].value(),
            (o.inverse)(y)[k].value(),
            (o.inverse)(z)[k].value(),
            l,
            e,
        )
}

/// Whether every number lies between `-b` and `b`.
pub open spec fn all_within(s: Seq<F32>, b: real) -> bool {
    forall|i: int| 0 <= i < s.len() ==> between(#[trigger] s[i], -b, b)
}

/// One part of a mixed bin.
proof fn lemma_mixed_part(x: F32, m: F32, l: F32, r: real)
    requires
        between(x, -r, r),
        between(m, -r, r),
        between(l, 0real, 1real),
        1real / 1099511627776real <= r <= 1048576real,
    ensures
        ({
            let out = x.mul_spec(l).add_spec(m.mul_spec(bits(ONE).sub_spec(l)));
            out.is_finite_spec() && is_mixed(
                out.value(),
                x.value(),
                m.value(),
                l.value(),
                r / 2097152real,
            )
        }),
{
    lemma_units();
    lemma_zero();
    let one = bits(ONE);
    let c = one.sub_spec(l);
    let (xv, mv, lv, cv) = (x.value(), m.value(), l.value(), c.value());
    lemma_neg(l);
    lemma_add(one, l.neg_spec());
    lemma_within(c, 1real - lv, F32::zero_spec(), one);
    lemma_close(c, 1real - lv, 1real);
    let (p, q) = (x.mul_spec(l), m.mul_spec(c));
    lemma_mul(x, l);
    lemma_product(lv, xv, 1real, r);
    assert(lv * xv == xv * lv) by (nonlinear_arith);
    lemma_close(p, xv * lv, r);
    lemma_mul(m, c);
    lemma_product(cv, mv, 1real, r);
    assert(cv * mv == mv * cv) by (nonlinear_arith);
    lemma_close(q, mv * cv, r);
    lemma_add(p, q);
    lemma_close(p.add_spec(q), p.value() + q.value(), 3real * r);
    let g = cv - (1real - lv);
    lemma_product(g, mv, 1real / 16777216real, r);
    assert(mv * cv == mv * (1real - lv) + g * mv) by (nonlinear_arith)
        requires
            cv == 1real - lv + g,
    ;
}

/// With a share `l`, both parts of every bin are `l` times the noisy part plus `1 - l` times the
/// enhanced part; without one, the bins are the enhanced ones.
pub proof fn law_a_share_mixes_every_bin(
    noisy: Seq<Complex>,
    enhanced: Seq<Complex>,
    l: F32,
    i: int,
    r: real,
)
    requires
        0 <= i < enhanced.len(),
        enhanced.len() <= noisy.len(),
        bins_within(noisy, r),
        bins_within(enhanced, r),
        between(l, 0real, 1real),
        1real / 1099511627776real <= r <= 1048576real,
    ensures
        ({
            let out = limited_of(noisy, enhanced, Some(l))[i];
            let (x, y, v, d) = (noisy[i], enhanced[i], l.value(), r / 2097152real);
            &&& limited_of(noisy, enhanced, Some(l)).len() == enhanced.len()
            &&& near(out.re, v * x.re.value() + (1real - v) * y.re.value(), d)
            &&& near(out.im, v * x.im.value() + (1real - v) * y.im.value(), d)
        }),
        limited_of(noisy, enhanced, None) == enhanced,
{
    let (x, y, v) = (noisy[i], enhanced[i], l.value());
    assert(between(x.re, -r, r) && between(x.im, -r, r));
    assert(between(y.re, -r, r) && between(y.im, -r, r));
    lemma_mixed_part(x.re, y.re, l, r);
    lemma_mixed_part(x.im, y.im, l, r);
    let (a, b, c, d, w) = (
        x.re.value(),
        x.im.value(),
        y.re.value(),
        y.im.value(),
        1real - v,
    );
    assert(v * a == a * v && v * b == b * v && w * c == c * w && w * d == d * w)
        by (nonlinear_arith);
}

/// The mix of a frame, from that of its spectrum.
proof fn lemma_mixed_frame(
    o: Outside,
    x: Seq<Complex>,
    y: Seq<Complex>,
    z: Seq<Complex>,
    l: F32,
    r: real,
    e: real,
    t: nat,
    ti: int,
    k: int,
)
    requires
        o.wf(),
        mixes_come_back(o, l.value(), r, e),
        between(l, 0real, 1real),
        1real / 1099511627776real <= r <= 1048576real,
        x == limited_of(y, z, Some(l)),
        y.len() == t * 161,
        z.len() == t * 161,
        bins_within(y, r),
        bins_within(z, r),
        0 <= ti < t,
        0 <= k < 320,
    ensures
        ({
            let j = ti * 320 + k;
            is_mixed(
                frames_from(o, x, t)[j].value(),
                frames_from(o, y, t)[j].value(),
                frames_from(o, z, t)[j].value(),
                l.value(),
                e,
            )
        }),
{
    lemma_frame(o, x, t, ti, k);
    lemma_frame(o, y, t, ti, k);
    lemma_frame(o, z, t, ti, k);
    let (a, b, c) = (spectra_rows(x)(ti), spectra_rows(y)(ti), spectra_rows(z)(ti));
    let d = r / 2097152real;
    assert forall|f: int| 0 <= f < 320 implies is_mixed_bin(
        #[trigger] a[f],
        b[f],
        c[f],
        l.value(),
        d,
    ) && between(b[f].re, -r, r) && between(b[f].im, -r, r) && between(c[f].re, -r, r) && between(
        c[f].im,
        -r,
        r,
    ) by {
        let g = if f < 161 {
            f
        } else {
            320 - f
        };
        lemma_place(ti, g, t as int, 161);
        let i = ti * 161 + g;
        assert(between(y[i].re, -r, r) && between(z[i].re, -r, r));
        lemma_mixed_part(y[i].re, z[i].re, l, r);
        lemma_mixed_part(y[i].im, z[i].im, l, r);
        if f >= 161 {
            lemma_neg(x[i].im);
            lemma_neg(y[i].im);
            lemma_neg(z[i].im);
            lemma_minus_mixed(x[i].im.value(), y[i].im.value(), z[i].im.value(), l.value(), d);
        }
    }
    assert(bins_within(b, r)) by {
        assert forall|f: int| 0 <= f < b.len() implies between((#[trigger] b[f]).re, -r, r)
            && between(b[f].im, -r, r) by {
            assert(is_mixed_bin(a[f], b[f], c[f], l.value(), d));
        }
    }
    assert(bins_within(c, r)) by {
        assert forall|f: int| 0 <= f < c.len() implies between((#[trigger] c[f]).re, -r, r)
            && between(c[f].im, -r, r) by {
            assert(is_mixed_bin(a[f], b[f], c[f], l.value(), d));
        }
    }
    assert(is_mixed(
        (o.inverse)(a)[k].value(),
        (o.inverse)(b)[k].value(),
        (o.inverse)(c)[k].value(),
        l.value(),
        e,
    ));
}

proof fn lemma_minus_mixed(x: real, y: real, z: real, l: real, d: real)
    requires
        is_mixed(x, y, z, l, d),
    ensures
        is_mixed(-x, -y, -z, l, d),
{
    assert((-y) * l == -(y * l) && (-z) * (1real - l) == -(z * (1real - l))) by (nonlinear_arith);
}

/// How far a sample is from the exact sum of its two halves.
proof fn lemma_sample_near(f1: F32, w1: F32, f2: F32, w2: F32, b: real)
    requires
        between(f1, -b, b),
        between(f2, -b, b),
        between(w1, 0real, 1real),
        between(w2, 0real, 1real),
        1real / 1099511627776real <= b <= 1048576real,
    ensures
        ({
            let s = F32::zero_spec().add_spec(f1.mul_spec(w1)).add_spec(f2.mul_spec(w2));
            s.is_finite_spec() && -(5real * b / 16777216real) <= s.value() - (w1.value()
                * f1.value() + w2.value() * f2.value()) <= 5real * b / 16777216real
        }),
        ({
            let s = F32::zero_spec().add_spec(f2.mul_spec(w2));
            s.is_finite_spec() && -(5real * b / 16777216real) <= s.value() - w2.value()
                * f2.value() <= 5real * b / 16777216real
        }),
{
    lemma_half_near(f1, w1, b);
    lemma_half_near(f2, w2, b);
    let (p, q) = (F32::zero_spec().add_spec(f1.mul_spec(w1)), f2.mul_spec(w2));
    lemma_add(p, q);
    lemma_close(p.add_spec(q), p.value() + q.value(), 21real / 10real * b);
}

proof fn lemma_half_near(f: F32, w: F32, b: real)
    requires
        between(f, -b, b),
        between(w, 0real, 1real),
        1real / 1099511627776real <= b <= 1048576real,
    ensures
        f.mul_spec(w).is_finite_spec(),
        F32::zero_spec().add_spec(f.mul_spec(w)).is_finite_spec(),
        F32::zero_spec().add_spec(f.mul_spec(w)).value() == f.mul_spec(w).value(),
        -(b / 16777216real) <= f.mul_spec(w).value() - w.value() * f.value() <= b / 16777216real,
        -b <= w.value() * f.value() <= b,
{
    let p = f.mul_spec(w);
    let (fv, wv) = (f.value(), w.value());
    lemma_mul(f, w);
    lemma_product(wv, fv, 1real, b);
    assert(wv * fv == fv * wv) by (nonlinear_arith);
    lemma_close(p, fv * wv, b);
    lemma_zero();
    lemma_add(F32::zero_spec(), p);
    lemma_within(F32::zero_spec().add_spec(p), 0real + p.value(), p, p);
}

/// A mix under the window.
proof fn lemma_windowed_mix(x: real, y: real, z: real, l: real, e: real, w: real)
    requires
        is_mixed(x, y, z, l, e),
        0real <= w <= 1real,
        e >= 0real,
    ensures
        is_mixed(w * x, w * y, w * z, l, e),
{
    let d = x - (y * l + z * (1real - l));
    lemma_product(w, d, 1real, e);
    let (p, q) = (y * l, z * (1real - l));
    assert(w * x == w * p + w * q + w * d) by (nonlinear_arith)
        requires
            x == p + q + d,
    ;
    assert((w * y) * l == w * p) by (nonlinear_arith)
        requires
            p == y * l,
    ;
    let m = 1real - l;
    assert((w * z) * m == w * q) by (nonlinear_arith)
        requires
            q == z * m,
    ;
}

/// The mix of a sum.
proof fn lemma_mix_adds(
    x: real,
    y: real,
    z: real,
    e: real,
    p: real,
    q: real,
    s: real,
    d: real,
    l: real,
)
    requires
        is_mixed(x, y, z, l, e),
        is_mixed(p, q, s, l, d),
    ensures
        is_mixed(x + p, y + q, z + s, l, e + d),
{
    let m = 1real - l;
    assert((y + q) * l == y * l + q * l && (z + s) * m == z * m + s * m) by (nonlinear_arith);
}

/// What is next to three numbers is mixed as they are.
proof fn lemma_mix_near(x: real, y: real, z: real, e: real, p: real, q: real, s: real, d: real, l: real)
    requires
        is_mixed(x, y, z, l, e),
        0real <= l <= 1real,
        -d <= p - x <= d,
        -d <= q - y <= d,
        -d <= s - z <= d,
    ensures
        is_mixed(p, q, s, l, e + 3real * d),
{
    let (a, b, c, m) = (p - x, q - y, s - z, 1real - l);
    lemma_product(l, b, 1real, d);
    lemma_product(m, c, 1real, d);
    assert(l * b == b * l && m * c == c * m) by (nonlinear_arith);
    lemma_mix_adds(x, y, z, e, a, b, c, 3real * d, l);
}

/// A share of the noisy signal stays in the audio as it does in the spectra: with a share `l` and an
/// inverse transform that is linear up to `e`, every sample is `l` times the sample that comes if
/// nothing is done to the spectra, plus `1 - l` times the sample that comes without a limit, to
/// within `2 * e`, and `b / 2^20` for the rounding of frames whose samples lie between `-b` and `b`.
pub proof fn law_the_audio_is_mixed_as_the_spectra_are(
    h: HushView,
    o: Outside,
    window: Seq<F32>,
    alpha: F32,
    audio: Seq<F32>,
    l: F32,
    r: real,
    b: real,
    e: real,
    n: int,
)
    requires
        o.wf(),
        between(l, 0real, 1real),
        1real / 1099511627776real <= r <= 1048576real,
        1real / 1099511627776real <= b <= 1048576real,
        e >= 0real,
        mixes_come_back(o, l.value(), r, e),
        window.len() == 320,
        forall|i: int| 0 <= i < 320 ==> between(#[trigger] window[i], 0real, 1real),
        bins_within(noisy_of(o, window, alpha, audio), r),
        bins_within(enhanced_spectra_of(h, o, window, alpha, audio, None), r),
        all_within(returned_of(o, window, alpha, audio), b),
        ({
            let t = audio.len() / 160;
            let x = enhanced_spectra_of(h, o, window, alpha, audio, Some(l));
            let z = enhanced_spectra_of(h, o, window, alpha, audio, None);
            all_within(frames_from(o, x, t), b) && all_within(frames_from(o, z, t), b)
        }),
        0 <= n < audio.len() / 160 * 160,
    ensures
        ({
            let t = audio.len() / 160;
            let x = enhance_of(h, o, window, alpha, audio, Some(l))[n];
            let y = synthesis_of(
                returned_of(o, window, alpha, audio),
                started(window, alpha, audio),
                t,
            )[n];
            let z = enhance_of(h, o, window, alpha, audio, None)[n];
            &&& x.is_finite_spec() && y.is_finite_spec() && z.is_finite_spec()
            &&& is_mixed(
                x.value(),
                y.value(),
                z.value(),
                l.value(),
                2real * e + b / 1048576real,
            )
        }),
{
    let t = audio.len() / 160;
    let y = noisy_of(o, window, alpha, audio);
    let x = enhanced_spectra_of(h, o, window, alpha, audio, Some(l));
    let z = enhanced_spectra_of(h, o, window, alpha, audio, None);
    lemma_spectra_len(h, o, window, alpha, audio, None);
    lemma_output(h, o, window, alpha, audio, Some(l), n);
    lemma_output(h, o, window, alpha, audio, None, n);
    let (fx, fy, fz) = (frames_from(o, x, t), frames_from(o, y, t), frames_from(o, z, t));
    lemma_frame(o, x, t, 0, 0);
    lemma_frame(o, y, t, 0, 0);
    lemma_frame(o, z, t, 0, 0);
    lemma_sample(fy, started(window, alpha, audio), t, n);
    let lv = l.value();
    let (ti, i) = (n / 160, n % 160);
    let k = ti * 320 + i;
    let w2 = window[i];
    let w1 = window[160 + i];
    let d = 5real * b / 16777216real;
    assert(0 <= k < t * 320);
    assert(between(fx[k], -b, b) && between(fy[k], -b, b) && between(fz[k], -b, b));
    lemma_mixed_frame(o, x, y, z, l, r, e, t, ti, i);
    let (x2, y2, z2) = (fx[k].value(), fy[k].value(), fz[k].value());
    lemma_windowed_mix(x2, y2, z2, lv, e, w2.value());
    if ti == 0 {
        lemma_sample_near(fx[k], w2, fx[k], w2, b);
        lemma_sample_near(fy[k], w2, fy[k], w2, b);
        lemma_sample_near(fz[k], w2, fz[k], w2, b);
        lemma_mix_near(
            w2.value() * x2,
            w2.value() * y2,
            w2.value() * z2,
            e,
            sample_of(fx, window, n).value(),
            sample_of(fy, window, n).value(),
            sample_of(fz, window, n).value(),
            d,
            lv,
        );
    } else {
        let j = (ti - 1) * 320 + (160 + i);
        assert(0 <= j < t * 320);
        assert(between(fx[j], -b, b) && between(fy[j], -b, b) && between(fz[j], -b, b));
        lemma_mixed_frame(o, x, y, z, l, r, e, t, ti - 1, 160 + i);
        let (x1, y1, z1) = (fx[j].value(), fy[j].value(), fz[j].value());
        lemma_windowed_mix(x1, y1, z1, lv, e, w1.value());
        lemma_sample_near(fx[j], w1, fx[k], w2, b);
        lemma_sample_near(fy[j], w1, fy[k], w2, b);
        lemma_sample_near(fz[j], w1, fz[k], w2, b);
        let (v1, v2) = (w1.value(), w2.value());
        lemma_mix_adds(v1 * x1, v1 * y1, v1 * z1, e, v2 * x2, v2 * y2, v2 * z2, e, lv);
        lemma_mix_near(
            v1 * x1 + v2 * x2,
            v1 * y1 + v2 * y2,
            v1 * z1 + v2 * z2,
            e + e,
            sample_of(fx, window, n).value(),
            sample_of(fy, window, n).value(),
            sample_of(fz, window, n).value(),
            d,
            lv,
        );
    }
}

/// A share of the noisy signal is that share of the audio itself, one hop late: with transforms that
/// undo each other, a window whose halves add up and an inverse transform that is linear up to
/// `4e-5`, every sample is within `1e-4` of `audio * l + enhanced * (1 - l)`.
pub proof fn law_a_share_of_the_audio_stays(
    h: HushView,
    o: Outside,
    window: Seq<F32>,
    alpha: F32,
    audio: Seq<F32>,
    l: F32,
    r: real,
    n: int,
)
    requires
        o.wf(),
        between(l, 0real, 1real),
        1real / 1099511627776real <= r <= 1048576real,
        mixes_come_back(o, l.value(), r, 4real / 100000real),
        halves_add_up(window),
        transforms_undo_each_other(o, window, alpha, audio),
        forall|k: int| 0 <= k < audio.len() ==> between(#[trigger] audio[k], -1real, 1real),
        bins_within(noisy_of(o, window, alpha, audio), r),
        bins_within(enhanced_spectra_of(h, o, window, alpha, audio, None), r),
        all_within(returned_of(o, window, alpha, audio), 4real),
        ({
            let t = audio.len() / 160;
            let x = enhanced_spectra_of(h, o, window, alpha, audio, Some(l));
            let z = enhanced_spectra_of(h, o, window, alpha, audio, None);
            all_within(frames_from(o, x, t), 4real) && all_within(frames_from(o, z, t), 4real)
        }),
        0 <= n < audio.len() / 160 * 160,
    ensures
        ({
            let x = enhance_of(h, o, window, alpha, audio, Some(l))[n];
            let y = if n < 160 {
                0real
            } else {
                audio[n - 160].value()
            };
            let z = enhance_of(h, o, window, alpha, audio, None)[n];
            &&& x.is_finite_spec() && z.is_finite_spec()
            &&& is_mixed(x.value(), y, z.value(), l.value(), 1real / 10000real)
        }),
{
    let e = 4real / 100000real;
    law_the_audio_is_mixed_as_the_spectra_are(h, o, window, alpha, audio, l, r, 4real, e, n);
    law_analysis_and_synthesis_reconstruct(o, window, alpha, audio, n);
    let t = audio.len() / 160;
    let y = synthesis_of(
        returned_of(o, window, alpha, audio),
        started(window, alpha, audio),
        t,
    )[n].value();
    let a = if n < 160 {
        0real
    } else {
        audio[n - 160].value()
    };
    let (lv, g) = (l.value(), a - y);
    lemma_product(lv, g, 1real, 1real / 100000real);
    assert(a * lv == y * lv + lv * g) by (nonlinear_arith)
        requires
            a == y + g,
    ;
}

} // verus!
