use hush_vani::dsp::{
    apply_df, erb_energies, erb_inv, spectra, spectrum, Complex, Dsp, DF_ORDER, ERB_WIDTHS, FFT, FREQS,
    HOP, NB_DF, NB_ERB, SR,
};
use hush_vani::hush::{frame_count, limit, limit_exponent, merge};
use hush_vani::{Error, Hush, F32};

fn f(x: f32) -> F32 {
    F32::from_bits(x.to_bits())
}

fn n(x: F32) -> f32 {
    f32::from_bits(x.to_bits())
}

fn up(x: &[f32]) -> Vec<F32> {
    x.iter().map(|&v| f(v)).collect()
}

fn bits(x: &[F32]) -> Vec<u32> {
    x.iter().map(|v| v.to_bits()).collect()
}

fn plain(x: &[f32]) -> Vec<u32> {
    x.iter().map(|v| v.to_bits()).collect()
}

fn c(re: f32, im: f32) -> Complex {
    Complex { re: f(re), im: f(im) }
}

fn window() -> Vec<f32> {
    (0..FFT)
        .map(|i| {
            let s = (std::f64::consts::PI * (i as f64 + 0.5) / FFT as f64).sin();
            ((std::f64::consts::PI / 2.0) * s * s).sin() as f32
        })
        .collect()
}

fn alpha() -> f32 {
    (-(HOP as f64 / SR as f64)).exp() as f32
}

fn wave(k: usize) -> Vec<f32> {
    (0..k).map(|i| ((i * 37 % 101) as f32 - 50.0) / 64.0).collect()
}

fn noise_spec(t: usize) -> Vec<Complex> {
    (0..t * FREQS).map(|i| c(((i * 29 % 83) as f32 - 41.0) / 99.0, ((i * 53 % 71) as f32 - 35.0) / 77.0)).collect()
}

#[test]
fn constants_are_consistent() {
    assert_eq!(Hush::SAMPLE_RATE, 16_000);
    assert_eq!(Hush::LATENCY_SAMPLES, 160);
    assert_eq!(Hush::FRAME_SAMPLES, 160);
    assert_eq!((SR, FFT, HOP, FREQS), (16000, 320, 160, 161));
    assert_eq!((NB_ERB, NB_DF, DF_ORDER), (32, 64, 5));
    assert_eq!(ERB_WIDTHS.iter().sum::<usize>(), FREQS);
}

#[test]
fn frames_overlap_by_one_hop() {
    let audio = wave(3 * HOP + 7);
    let mut d = Dsp::new(up(&window()), f(alpha()));
    let frames = d.analysis(&up(&audio));
    assert_eq!(frames.len(), 3 * FFT);
    let w = window();
    let mut buf = vec![0f32; FFT];
    for ti in 0..3 {
        buf.copy_within(HOP.., 0);
        buf[HOP..].copy_from_slice(&audio[ti * HOP..(ti + 1) * HOP]);
        let want: Vec<f32> = (0..FFT).map(|i| buf[i] * w[i]).collect();
        assert_eq!(bits(&frames[ti * FFT..(ti + 1) * FFT]), plain(&want));
    }
}

#[test]
fn a_stream_goes_on_where_it_stopped() {
    let audio = up(&wave(4 * HOP));
    let mut one = Dsp::new(up(&window()), f(alpha()));
    let whole = one.analysis(&audio);
    let mut two = Dsp::new(up(&window()), f(alpha()));
    let mut parts = two.analysis(&audio[..HOP]);
    parts.extend(two.analysis(&audio[HOP..]));
    assert_eq!(bits(&whole), bits(&parts));
}

#[test]
fn spectra_keep_half_the_bins_scaled() {
    let t = 2;
    let fft: Vec<Complex> = (0..t * FFT).map(|i| c(i as f32, -(i as f32) / 3.0)).collect();
    let spec = spectrum(&fft, t);
    assert_eq!(spec.len(), t * FREQS);
    let s = 1.0 / FFT as f32;
    for ti in 0..t {
        for b in 0..FREQS {
            let x = ti * FFT + b;
            let v = spec[ti * FREQS + b];
            assert_eq!(n(v.re).to_bits(), (x as f32 * s).to_bits());
            assert_eq!(n(v.im).to_bits(), ((-(x as f32) / 3.0) * s).to_bits());
        }
    }
}

#[test]
fn full_spectra_are_mirrored() {
    let spec = noise_spec(2);
    let full = spectra(&spec, 2);
    assert_eq!(full.len(), 2 * FFT);
    for ti in 0..2 {
        for b in 0..FREQS {
            assert_eq!(full[ti * FFT + b], spec[ti * FREQS + b]);
        }
        for b in FREQS..FFT {
            let m = spec[ti * FREQS + (FFT - b)];
            assert_eq!(full[ti * FFT + b].re, m.re);
            assert_eq!(n(full[ti * FFT + b].im), -n(m.im));
        }
    }
}

#[test]
fn band_energies_are_means() {
    let t = 2;
    let spec = noise_spec(t);
    let e = erb_energies(&spec, t);
    assert_eq!(e.len(), t * NB_ERB);
    for ti in 0..t {
        let mut f0 = 0;
        for (b, &w) in ERB_WIDTHS.iter().enumerate() {
            let mut s = 0f32;
            for k in f0..f0 + w {
                let (re, im) = (n(spec[ti * FREQS + k].re), n(spec[ti * FREQS + k].im));
                s += re * re + im * im;
            }
            f0 += w;
            assert_eq!(n(e[ti * NB_ERB + b]).to_bits(), (s / w as f32 + 1e-10).to_bits());
        }
    }
}

#[test]
fn band_features_follow_their_mean() {
    let t = 3;
    let logs: Vec<f32> = (0..t * NB_ERB).map(|i| (i % 17) as f32 * -0.4).collect();
    let mut d = Dsp::new(up(&window()), f(alpha()));
    let out = d.erb_feat(&up(&logs), t);
    let a = alpha();
    let mut state: Vec<f32> =
        (0..NB_ERB).map(|i| -60.0 + (-90.0 - -60.0) * (i as f32) / (NB_ERB as f32 - 1.0)).collect();
    for ti in 0..t {
        for b in 0..NB_ERB {
            let db = 10.0 * logs[ti * NB_ERB + b];
            state[b] = db * (1.0 - a) + state[b] * a;
            assert_eq!(n(out[ti * NB_ERB + b]).to_bits(), ((db - state[b]) / 40.0).to_bits());
        }
    }
}

#[test]
fn spectrum_features_have_unit_norm() {
    let t = 3;
    let spec = noise_spec(t);
    let mut d = Dsp::new(up(&window()), f(alpha()));
    let out = d.spec_feat(&spec, t);
    assert_eq!(out.len(), 2 * t * NB_DF);
    let a = alpha();
    let mut state: Vec<f32> =
        (0..NB_DF).map(|i| 0.001 + (0.0001 - 0.001) * (i as f32) / (NB_DF as f32 - 1.0)).collect();
    for ti in 0..t {
        for b in 0..NB_DF {
            let (re, im) = (n(spec[ti * FREQS + b].re), n(spec[ti * FREQS + b].im));
            let mag = (re * re + im * im).sqrt();
            state[b] = mag * (1.0 - a) + state[b] * a;
            let r = state[b].sqrt();
            assert_eq!(n(out[ti * NB_DF + b]).to_bits(), (re / r).to_bits());
            assert_eq!(n(out[(t + ti) * NB_DF + b]).to_bits(), (im / r).to_bits());
        }
    }
}

#[test]
fn overlap_adds_windowed_frames() {
    let t = 3;
    let frames = wave(t * FFT);
    let mut d = Dsp::new(up(&window()), f(alpha()));
    let out = d.synthesis(&up(&frames), t);
    assert_eq!(out.len(), t * HOP);
    let w = window();
    let mut buf = vec![0f32; FFT];
    for ti in 0..t {
        for i in 0..FFT {
            buf[i] += frames[ti * FFT + i] * w[i];
        }
        assert_eq!(bits(&out[ti * HOP..(ti + 1) * HOP]), plain(&buf[..HOP]));
        buf.copy_within(HOP.., 0);
        buf[HOP..].fill(0.0);
    }
}

#[test]
fn masks_are_expanded_over_their_bands() {
    let t = 2;
    let m: Vec<f32> = (0..t * NB_ERB).map(|i| i as f32).collect();
    let g = erb_inv(&up(&m), t);
    assert_eq!(g.len(), t * FREQS);
    assert_eq!(n(g[0]), 0.0);
    assert_eq!(n(g[1]), 0.0);
    assert_eq!(n(g[2]), 1.0);
    assert_eq!(n(g[40]), 20.0);
    assert_eq!(n(g[42]), 20.0);
    assert_eq!(n(g[43]), 21.0);
    assert_eq!(n(g[160]), 31.0);
    assert_eq!(n(g[161]), 32.0);
    assert_eq!(n(g[2 * FREQS - 1]), 63.0);
}

fn plain_filter(spec: &[Complex], coefs: &[f32], ti: usize, b: usize) -> (f32, f32) {
    let (mut re, mut im) = (0f32, 0f32);
    for o in 0..DF_ORDER {
        if ti + o < DF_ORDER - 1 {
            continue;
        }
        let s = spec[(ti + o - (DF_ORDER - 1)) * FREQS + b];
        let (sr, si) = (n(s.re), n(s.im));
        let x = coefs[(ti * NB_DF + b) * 2 * DF_ORDER + o * 2];
        let y = coefs[(ti * NB_DF + b) * 2 * DF_ORDER + o * 2 + 1];
        re += sr * x - si * y;
        im += si * x + sr * y;
    }
    (re, im)
}

#[test]
fn deep_filter_is_causal_and_keeps_the_upper_bins() {
    let t = 7;
    let spec = noise_spec(t);
    let coefs = wave(t * NB_DF * 2 * DF_ORDER);
    let mut out = vec![c(7.0, 8.0); t * FREQS + 3];
    apply_df(&spec, &up(&coefs), t, &mut out);
    for ti in 0..t {
        for b in 0..FREQS {
            let v = out[ti * FREQS + b];
            if b < NB_DF {
                let (re, im) = plain_filter(&spec, &coefs, ti, b);
                assert_eq!((n(v.re).to_bits(), n(v.im).to_bits()), (re.to_bits(), im.to_bits()));
            } else {
                assert_eq!(v, c(7.0, 8.0));
            }
        }
    }
    assert_eq!(out[t * FREQS + 2], c(7.0, 8.0));
    let mut other = spec.clone();
    for v in other[5 * FREQS..].iter_mut() {
        *v = c(1.0, 1.0);
    }
    let mut late = vec![c(7.0, 8.0); t * FREQS];
    apply_df(&other, &up(&coefs), t, &mut late);
    assert_eq!(out[..5 * FREQS], late[..5 * FREQS]);
}

#[test]
fn merging_masks_all_bins_and_filters_the_first() {
    let t = 2;
    let spec = noise_spec(t);
    let mask = wave(t * NB_ERB);
    let coefs = wave(t * NB_DF * 10);
    let out = merge(&spec, &up(&mask), &up(&coefs), t);
    let g = erb_inv(&up(&mask), t);
    for ti in 0..t {
        for b in 0..FREQS {
            let (v, s) = (out[ti * FREQS + b], spec[ti * FREQS + b]);
            let want = if b < NB_DF {
                plain_filter(&spec, &coefs, ti, b)
            } else {
                let k = n(g[ti * FREQS + b]);
                (n(s.re) * k, n(s.im) * k)
            };
            assert_eq!((n(v.re).to_bits(), n(v.im).to_bits()), (want.0.to_bits(), want.1.to_bits()));
        }
    }
}

#[test]
fn limits_mix_the_noisy_signal_back_in() {
    let noisy = vec![c(1.0, -2.0), c(0.5, 0.25)];
    let clean = vec![c(0.1, 0.2), c(-0.3, 0.4)];
    let lim = 10f32.powf(-12.0 / 20.0);
    let out = limit(&noisy, clean.clone(), Some(f(lim)));
    for i in 0..2 {
        let re = n(noisy[i].re) * lim + n(clean[i].re) * (1.0 - lim);
        assert_eq!(n(out[i].re).to_bits(), re.to_bits());
    }
    assert_eq!(limit(&noisy, clean.clone(), None), clean);
}

#[test]
fn a_limit_of_no_decibels_keeps_the_noisy_signal() {
    let noisy = vec![c(1.0, -2.0), c(0.5, 0.25)];
    let clean = vec![c(0.1, 0.2), c(-0.3, 0.4)];
    let lim = limit_exponent(Some(f(0.0))).map(|e| f(10f32.powf(n(e))));
    assert_eq!(lim, Some(f(1.0)));
    assert_eq!(limit(&noisy, clean, lim), noisy);
}

#[test]
fn limits_are_read_as_magnitudes() {
    assert_eq!(limit_exponent(None), None);
    assert_eq!(limit_exponent(Some(f(0.0))).map(n), Some(0.0));
    assert_eq!(limit_exponent(Some(f(-0.0))).map(n), Some(0.0));
    assert_eq!(limit_exponent(Some(F32::nan())), None);
    assert_eq!(limit_exponent(Some(f(12.0))).map(n), Some(-12.0 / 20.0));
    assert_eq!(limit_exponent(Some(f(-12.0))).map(n), Some(-12.0 / 20.0));
}

#[test]
fn frames_are_whole() {
    assert_eq!(frame_count(160).unwrap(), 1);
    assert_eq!(frame_count(319).unwrap(), 1);
    assert_eq!(frame_count(320).unwrap(), 2);
    for k in [0usize, 3, 159] {
        match frame_count(k) {
            Err(Error::TooShort { samples, needed }) => assert_eq!((samples, needed), (k, 160)),
            _ => panic!("accepted"),
        }
    }
    match Hush::start(&up(&wave(100)), up(&window()), f(alpha())) {
        Err(Error::TooShort { samples: 100, needed: 160 }) => {}
        _ => panic!("accepted"),
    }
    let (_, frames) = Hush::start(&up(&wave(500)), up(&window()), f(alpha())).ok().unwrap();
    assert_eq!(frames.len(), 3 * FFT);
}

#[test]
fn the_output_is_one_hop_late() {
    let audio = wave(5 * HOP);
    let mut d = Dsp::new(up(&window()), f(alpha()));
    let frames = d.analysis(&up(&audio));
    let out = d.synthesis(&frames, 5);
    assert_eq!(out.len(), 5 * HOP);
    for i in HOP..5 * HOP {
        assert!((n(out[i]) - audio[i - HOP]).abs() < 1e-5);
    }
}

#[test]
fn a_vanishing_share_changes_nothing() {
    let noisy = vec![c(1.0, -2.0), c(f32::MAX, 3.0)];
    let clean = vec![c(0.1, 0.2), c(-0.3, 1e-42)];
    assert_eq!(limit(&noisy, clean.clone(), Some(f(0.0))), clean);
}
