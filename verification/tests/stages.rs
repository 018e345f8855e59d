use std::collections::HashMap;
use std::sync::Arc;

use hush_vani::dsp::{erb_energies, spectra, spectrum, Complex, Dsp};
use hush_vani::hush::limit_exponent;
use hush_vani::simd::{sigmoid, tanh, CpuFeatures};
use hush_vani::{Decoders, Encoder, Error, Hush, Model, WeightBank, Weights, F32};

const TENSORS: [(&str, &[usize]); 62] = [
    ("enc/onnx::Conv_310", &[16, 1, 3, 3]),
    ("enc/onnx::Conv_311", &[16]),
    ("enc/erb_conv1.0.weight", &[16, 1, 1, 3]),
    ("enc/onnx::Conv_313", &[16, 16, 1, 1]),
    ("enc/onnx::Conv_314", &[16]),
    ("enc/erb_conv2.0.weight", &[16, 1, 1, 3]),
    ("enc/onnx::Conv_316", &[16, 16, 1, 1]),
    ("enc/onnx::Conv_317", &[16]),
    ("enc/erb_conv3.0.weight", &[16, 1, 1, 3]),
    ("enc/onnx::Conv_319", &[16, 16, 1, 1]),
    ("enc/onnx::Conv_320", &[16]),
    ("enc/df_conv0.1.weight", &[16, 1, 3, 3]),
    ("enc/onnx::Conv_322", &[16, 16, 1, 1]),
    ("enc/onnx::Conv_323", &[16]),
    ("enc/df_conv1.0.weight", &[16, 1, 1, 3]),
    ("enc/onnx::Conv_325", &[16, 16, 1, 1]),
    ("enc/onnx::Conv_326", &[16]),
    ("enc/df_fc_emb.0.weight", &[16, 32, 8]),
    ("enc/emb_gru.linear_in.0.weight", &[1, 128, 256]),
    ("enc/emb_gru.linear_out.0.weight", &[1, 256, 128]),
    ("enc/onnx::GRU_360", &[1, 768, 256]),
    ("enc/onnx::GRU_361", &[1, 768, 256]),
    ("enc/onnx::GRU_362", &[1, 1536]),
    ("enc/onnx::MatMul_365", &[128, 1]),
    ("enc/lsnr_fc.0.bias", &[1]),
    ("erb_dec/emb_gru.linear_in.0.weight", &[1, 128, 256]),
    ("erb_dec/emb_gru.linear_out.0.weight", &[1, 256, 128]),
    ("erb_dec/onnx::GRU_291", &[1, 768, 256]),
    ("erb_dec/onnx::GRU_292", &[1, 768, 256]),
    ("erb_dec/onnx::GRU_293", &[1, 1536]),
    ("erb_dec/onnx::Conv_247", &[16, 16, 1, 1]),
    ("erb_dec/onnx::Conv_248", &[16]),
    ("erb_dec/convt3.0.weight", &[16, 1, 1, 3]),
    ("erb_dec/onnx::Conv_250", &[16, 16, 1, 1]),
    ("erb_dec/onnx::Conv_251", &[16]),
    ("erb_dec/onnx::Conv_253", &[16, 16, 1, 1]),
    ("erb_dec/onnx::Conv_254", &[16]),
    ("erb_dec/convt2.0.weight", &[16, 1, 1, 3]),
    ("erb_dec/onnx::Conv_256", &[16, 16, 1, 1]),
    ("erb_dec/onnx::Conv_257", &[16]),
    ("erb_dec/onnx::Conv_259", &[16, 16, 1, 1]),
    ("erb_dec/onnx::Conv_260", &[16]),
    ("erb_dec/convt1.0.weight", &[16, 1, 1, 3]),
    ("erb_dec/onnx::Conv_262", &[16, 16, 1, 1]),
    ("erb_dec/onnx::Conv_263", &[16]),
    ("erb_dec/onnx::Conv_265", &[16, 16, 1, 1]),
    ("erb_dec/onnx::Conv_266", &[16]),
    ("erb_dec/onnx::Conv_268", &[1, 16, 1, 3]),
    ("erb_dec/onnx::Conv_269", &[1]),
    ("df_dec/df_gru.linear_in.0.weight", &[1, 128, 256]),
    ("df_dec/df_out.0.weight", &[1, 256, 640]),
    ("df_dec/onnx::GRU_337", &[1, 768, 256]),
    ("df_dec/onnx::GRU_338", &[1, 768, 256]),
    ("df_dec/onnx::GRU_339", &[1, 1536]),
    ("df_dec/onnx::GRU_357", &[1, 768, 256]),
    ("df_dec/onnx::GRU_358", &[1, 768, 256]),
    ("df_dec/onnx::GRU_359", &[1, 1536]),
    ("df_dec/onnx::GRU_377", &[1, 768, 256]),
    ("df_dec/onnx::GRU_378", &[1, 768, 256]),
    ("df_dec/onnx::GRU_379", &[1, 1536]),
    ("df_dec/onnx::Conv_314", &[10, 16, 1, 1]),
    ("df_dec/onnx::Conv_315", &[10]),
];

fn up(x: &[f32]) -> Vec<F32> {
    x.iter().map(|v| F32::from_bits(v.to_bits())).collect()
}

fn same(a: &[F32], b: &[f32]) {
    let x: Vec<u32> = a.iter().map(|v| v.to_bits()).collect();
    let y: Vec<u32> = b.iter().map(|v| v.to_bits()).collect();
    assert_eq!(x, y);
}

fn rnd(n: usize, seed: u64) -> Vec<f32> {
    let mut s = seed;
    (0..n)
        .map(|_| {
            s = s.wrapping_mul(6364136223846793005).wrapping_add(1);
            ((s >> 33) as f32 / (1u64 << 31) as f32) - 0.5
        })
        .collect()
}

/// A whole set of weights that are not trained, and their numbers by name.
fn weights(leave_out: &str, short: &str) -> (Vec<u8>, String, HashMap<String, Vec<f32>>) {
    let (mut bin, mut txt, mut map) = (Vec::new(), String::new(), HashMap::new());
    let mut off = 0;
    for (i, (name, shape)) in TENSORS.iter().enumerate() {
        let n: usize = shape.iter().product();
        let gain = if n > 1000 { 0.25 } else { 1.0 };
        let v: Vec<f32> = rnd(n, 1000 + i as u64).iter().map(|x| x * gain).collect();
        bin.extend(v.iter().flat_map(|x| x.to_le_bytes()));
        let dims: Vec<String> = shape.iter().map(|d| d.to_string()).collect();
        if *name != leave_out {
            let len = if *name == short { n - 1 } else { n };
            txt += &format!("{name} {} {off} {len}\n", dims.join(","));
        }
        off += n;
        map.insert(name.to_string(), v);
    }
    (bin, txt, map)
}

fn load(leave_out: &str, short: &str) -> Weights {
    let (bin, txt, _) = weights(leave_out, short);
    Weights::from_bytes(&bin, &txt).unwrap()
}

fn sig(x: f32) -> f32 {
    f32::from_bits(sigmoid(F32::from_bits(x.to_bits())).to_bits())
}

fn tnh(x: f32) -> f32 {
    f32::from_bits(tanh(F32::from_bits(x.to_bits())).to_bits())
}

fn dot(a: &[f32], b: &[f32]) -> f32 {
    let mut acc = [0f32; 8];
    for i in 0..a.len() {
        acc[i % 8] = a[i].mul_add(b[i], acc[i % 8]);
    }
    (acc[0] + acc[1]) + (acc[2] + acc[3]) + ((acc[4] + acc[5]) + (acc[6] + acc[7]))
}

fn relu(x: Vec<f32>) -> Vec<f32> {
    x.into_iter().map(|v| if v < 0.0 { 0.0 } else { v }).collect()
}

fn mix(x: &[f32], tf: usize, w: &[f32], b: &[f32], cout: usize) -> Vec<f32> {
    let mut out = vec![0f32; cout * tf];
    for o in 0..cout {
        for p in 0..tf {
            out[o * tf + p] = (0..16).fold(b[o], |s, c| w[o * 16 + c].mul_add(x[c * tf + p], s));
        }
    }
    relu(out)
}

fn depthwise(x: &[f32], t: usize, f: usize, w: &[f32], stride: usize) -> (Vec<f32>, usize) {
    let fo = (f - 1) / stride + 1;
    let mut out = vec![0f32; 16 * t * fo];
    for r in 0..16 * t {
        for o in 0..fo {
            let mut s = 0f32;
            for k in 0..3 {
                let i = (o * stride + k) as isize - 1;
                if i >= 0 && (i as usize) < f {
                    s = w[r / t * 3 + k].mul_add(x[r * f + i as usize], s);
                }
            }
            out[r * fo + o] = s;
        }
    }
    (out, fo)
}

fn transposed(x: &[f32], t: usize, f: usize, w: &[f32]) -> Vec<f32> {
    let mut out = vec![0f32; 16 * t * 2 * f];
    for r in 0..16 * t {
        let k = &w[r / t * 3..r / t * 3 + 3];
        for i in 0..f {
            out[r * 2 * f + 2 * i] = x[r * f + i] * k[1];
            let mut odd = x[r * f + i] * k[2];
            if i + 1 < f {
                odd = k[0].mul_add(x[r * f + i + 1], odd);
            }
            out[r * 2 * f + 2 * i + 1] = odd;
        }
    }
    out
}

fn causal(x: &[f32], planes: usize, t: usize, f: usize, w: &[f32], b: Option<&[f32]>) -> Vec<f32> {
    let mut out = vec![0f32; 16 * t * f];
    for o in 0..16 {
        let c = o / (16 / planes);
        for ti in 0..t {
            for fi in 0..f {
                let mut s = b.map_or(0.0, |b| b[o]);
                for kt in 0..3 {
                    for kf in 0..3 {
                        if ti + kt < 2 {
                            continue;
                        }
                        let i = (fi + kf) as isize - 1;
                        let u = if i < 0 || i as usize >= f {
                            0.0
                        } else {
                            x[(c * t + ti + kt - 2) * f + i as usize]
                        };
                        s = w[(o * 3 + kt) * 3 + kf].mul_add(u, s);
                    }
                }
                out[(o * t + ti) * f + fi] = s;
            }
        }
    }
    out
}

fn linear(x: &[f32], t: usize, g: usize, i: usize, h: usize, w: &[f32]) -> Vec<f32> {
    let mut out = vec![0f32; t * g * h];
    for ti in 0..t {
        for gi in 0..g {
            for hh in 0..h {
                let mut s = 0f32;
                for ii in 0..i {
                    let xs = x[(ti * g + gi) * i + ii];
                    if xs != 0.0 {
                        s = xs.mul_add(w[(gi * i + ii) * h + hh], s);
                    }
                }
                out[(ti * g + gi) * h + hh] = s;
            }
        }
    }
    out
}

fn recurrent(x: &[f32], t: usize, w: &[f32], r: &[f32], b: &[f32]) -> Vec<f32> {
    let hs = 256;
    let mut h = vec![0f32; hs];
    let mut y = Vec::new();
    for ti in 0..t {
        let xw: Vec<f32> = (0..3 * hs)
            .map(|j| dot(&w[j * hs..(j + 1) * hs], &x[ti * hs..(ti + 1) * hs]) + b[j])
            .collect();
        let hr: Vec<f32> = (0..3 * hs).map(|j| dot(&r[j * hs..(j + 1) * hs], &h) + 0.0).collect();
        let rb = &b[3 * hs..];
        for k in 0..hs {
            let z = sig(xw[k] + hr[k] + rb[k]);
            let q = sig(xw[hs + k] + hr[hs + k] + rb[hs + k]);
            let n = tnh(xw[2 * hs + k] + q * (hr[2 * hs + k] + rb[2 * hs + k]));
            h[k] = (1.0 - z).mul_add(n, z * h[k]);
        }
        y.extend_from_slice(&h);
    }
    y
}

struct Plain {
    e0: Vec<f32>,
    e1: Vec<f32>,
    e2: Vec<f32>,
    e3: Vec<f32>,
    emb: Vec<f32>,
    c0: Vec<f32>,
    lsnr: Vec<f32>,
}

fn plain_encode(m: &HashMap<String, Vec<f32>>, erb: &[f32], spec: &[f32], t: usize) -> Plain {
    let g = |n: &str| m[&format!("enc/{n}")].as_slice();
    let e0 = relu(causal(erb, 1, t, 32, g("onnx::Conv_310"), Some(g("onnx::Conv_311"))));
    let block = |x: &[f32], f: usize, dw: &str, pw: &str, pb: &str, stride: usize| {
        let (y, fo) = depthwise(x, t, f, g(dw), stride);
        mix(&y, t * fo, g(pw), g(pb), 16)
    };
    let e1 = block(&e0, 32, "erb_conv1.0.weight", "onnx::Conv_313", "onnx::Conv_314", 2);
    let e2 = block(&e1, 16, "erb_conv2.0.weight", "onnx::Conv_316", "onnx::Conv_317", 2);
    let e3 = block(&e2, 8, "erb_conv3.0.weight", "onnx::Conv_319", "onnx::Conv_320", 1);
    let c = causal(spec, 2, t, 64, g("df_conv0.1.weight"), None);
    let c0 = mix(&c, t * 64, g("onnx::Conv_322"), g("onnx::Conv_323"), 16);
    let c1 = block(&c0, 64, "df_conv1.0.weight", "onnx::Conv_325", "onnx::Conv_326", 2);
    let mut cf = vec![0f32; t * 512];
    for ch in 0..16 {
        for ti in 0..t {
            for f in 0..32 {
                cf[ti * 512 + f * 16 + ch] = c1[(ch * t + ti) * 32 + f];
            }
        }
    }
    let mut emb = relu(linear(&cf, t, 16, 32, 8, g("df_fc_emb.0.weight")));
    for ch in 0..16 {
        for ti in 0..t {
            for f in 0..8 {
                emb[ti * 128 + f * 16 + ch] += e3[(ch * t + ti) * 8 + f];
            }
        }
    }
    let x = relu(linear(&emb, t, 1, 128, 256, g("emb_gru.linear_in.0.weight")));
    let y = recurrent(&x, t, g("onnx::GRU_360"), g("onnx::GRU_361"), g("onnx::GRU_362"));
    let emb = relu(linear(&y, t, 1, 256, 128, g("emb_gru.linear_out.0.weight")));
    let lsnr = (0..t)
        .map(|ti| {
            sig(dot(&emb[ti * 128..(ti + 1) * 128], g("onnx::MatMul_365")) + g("lsnr_fc.0.bias")[0]) * 50.0 - 15.0
        })
        .collect();
    Plain { e0, e1, e2, e3, emb, c0, lsnr }
}

fn plain_mask(m: &HashMap<String, Vec<f32>>, e: &Plain, t: usize) -> Vec<f32> {
    let g = |n: &str| m[&format!("erb_dec/{n}")].as_slice();
    let x = relu(linear(&e.emb, t, 1, 128, 256, g("emb_gru.linear_in.0.weight")));
    let x = recurrent(&x, t, g("onnx::GRU_291"), g("onnx::GRU_292"), g("onnx::GRU_293"));
    let x = relu(linear(&x, t, 1, 256, 128, g("emb_gru.linear_out.0.weight")));
    let mut y = vec![0f32; 16 * t * 8];
    for ch in 0..16 {
        for ti in 0..t {
            for f in 0..8 {
                y[(ch * t + ti) * 8 + f] = x[ti * 128 + f * 16 + ch];
            }
        }
    }
    let skip = |acc: Vec<f32>, s: &[f32], f: usize, pw: &str, pb: &str| -> Vec<f32> {
        acc.iter().zip(mix(s, t * f, g(pw), g(pb), 16)).map(|(a, b)| a + b).collect()
    };
    let y = skip(y, &e.e3, 8, "onnx::Conv_247", "onnx::Conv_248");
    let (y, _) = depthwise(&y, t, 8, g("convt3.0.weight"), 1);
    let y = mix(&y, t * 8, g("onnx::Conv_250"), g("onnx::Conv_251"), 16);
    let y = skip(y, &e.e2, 8, "onnx::Conv_253", "onnx::Conv_254");
    let y = transposed(&y, t, 8, g("convt2.0.weight"));
    let y = mix(&y, t * 16, g("onnx::Conv_256"), g("onnx::Conv_257"), 16);
    let y = skip(y, &e.e1, 16, "onnx::Conv_259", "onnx::Conv_260");
    let y = transposed(&y, t, 16, g("convt1.0.weight"));
    let y = mix(&y, t * 32, g("onnx::Conv_262"), g("onnx::Conv_263"), 16);
    let y = skip(y, &e.e0, 32, "onnx::Conv_265", "onnx::Conv_266");
    let (w, b) = (g("onnx::Conv_268"), g("onnx::Conv_269")[0]);
    let mut out = vec![0f32; t * 32];
    for ti in 0..t {
        for f in 0..32 {
            let mut s = b;
            for c in 0..16 {
                for k in 0..3 {
                    let i = (f + k) as isize - 1;
                    let u = if i < 0 || i >= 32 { 0.0 } else { y[(c * t + ti) * 32 + i as usize] };
                    s = w[c * 3 + k].mul_add(u, s);
                }
            }
            out[ti * 32 + f] = sig(s);
        }
    }
    out
}

fn plain_coefs(m: &HashMap<String, Vec<f32>>, e: &Plain, t: usize) -> Vec<f32> {
    let g = |n: &str| m[&format!("df_dec/{n}")].as_slice();
    let mut h = relu(linear(&e.emb, t, 1, 128, 256, g("df_gru.linear_in.0.weight")));
    for (w, r, b) in [
        ("onnx::GRU_337", "onnx::GRU_338", "onnx::GRU_339"),
        ("onnx::GRU_357", "onnx::GRU_358", "onnx::GRU_359"),
        ("onnx::GRU_377", "onnx::GRU_378", "onnx::GRU_379"),
    ] {
        h = recurrent(&h, t, g(w), g(r), g(b));
    }
    let mut coefs: Vec<f32> =
        linear(&h, t, 1, 256, 640, g("df_out.0.weight")).into_iter().map(tnh).collect();
    let cp = mix(&e.c0, t * 64, g("onnx::Conv_314"), g("onnx::Conv_315"), 10);
    for k in 0..10 {
        for ti in 0..t {
            for f in 0..64 {
                coefs[ti * 640 + f * 10 + k] += cp[(k * t + ti) * 64 + f];
            }
        }
    }
    coefs
}

#[test]
fn stages_follow_their_layers() {
    let t = 3;
    let (bin, txt, map) = weights("", "");
    let w = Arc::new(Weights::from_bytes(&bin, &txt).unwrap());
    let enc = Encoder::new(Arc::clone(&w)).ok().unwrap();
    let dec = Decoders::new(w).ok().unwrap();
    let (erb, spec) = (rnd(t * 32, 1), rnd(2 * t * 64, 2));
    let p = plain_encode(&map, &erb, &spec, t);
    assert!(enc.is_sized(t));
    let e = enc.encode(&up(&erb), &up(&spec), t);
    same(&e.e0, &p.e0);
    same(&e.e1, &p.e1);
    same(&e.e2, &p.e2);
    same(&e.e3, &p.e3);
    same(&e.c0, &p.c0);
    same(&e.emb, &p.emb);
    same(&e.lsnr, &p.lsnr);
    assert!(p.lsnr.iter().all(|v| *v > -15.0 && *v < 35.0));
    assert!(dec.are_sized(t, e.emb.len()));
    same(&dec.erb_dec(&e, t), &plain_mask(&map, &p, t));
    same(&dec.df_dec(&e, t), &plain_coefs(&map, &p, t));
}

#[test]
fn one_model_holds_all_stages() {
    let t = 1;
    let (_, _, map) = weights("", "");
    let w = load("", "");
    let m = Model::new(w).ok().unwrap();
    let (erb, spec) = (rnd(t * 32, 3), rnd(2 * t * 64, 4));
    let p = plain_encode(&map, &erb, &spec, t);
    assert!(m.is_sized(t));
    let e = m.enc(&up(&erb), &up(&spec), t);
    assert!(m.decoders_are_sized(t, e.emb.len()));
    same(&e.lsnr, &p.lsnr);
    same(&m.erb_dec(&e, t), &plain_mask(&map, &p, t));
    same(&m.df_dec(&e, t), &plain_coefs(&map, &p, t));
}

#[test]
fn every_missing_tensor_is_named() {
    for (name, _) in TENSORS {
        match Hush::build(load(name, "")) {
            Err(Error::MissingTensor(n)) => assert_eq!(n, name),
            _ => panic!("built without {name}"),
        }
    }
    match Model::new(load("df_dec/onnx::GRU_378", "")) {
        Err(Error::MissingTensor(n)) => assert_eq!(n, "df_dec/onnx::GRU_378"),
        _ => panic!("built"),
    }
}

#[test]
fn a_short_recurrent_matrix_cannot_be_packed() {
    for name in ["enc/onnx::GRU_361", "df_dec/onnx::GRU_338"] {
        let text = format!("{name}: too short for GRU shape [1, 768, 256]");
        assert!(matches!(Hush::build(load("", name)), Err(Error::Weights(t)) if t == text));
        assert!(matches!(Model::new(load("", name)), Err(Error::Weights(t)) if t == text));
    }
    assert!(matches!(
        Hush::build(load("enc/lsnr_fc.0.bias", "df_dec/onnx::GRU_338")),
        Err(Error::MissingTensor(_))
    ));
}

#[test]
fn short_tensors_are_told_before_a_run() {
    for name in ["enc/onnx::Conv_310", "erb_dec/onnx::Conv_269", "df_dec/onnx::Conv_314", "enc/onnx::MatMul_365"] {
        let h = Hush::build(load("", name)).ok().unwrap();
        assert!(!h.is_sized(1), "{name}");
        let text = "tensors do not have the model's sizes";
        assert!(matches!(Hush::checked_build(load("", name)), Err(Error::Weights(t)) if t == text));
    }
    let h = Hush::checked_build(load("", "")).ok().unwrap();
    assert!(h.is_sized(1) && h.is_sized(1000));
    assert!(!h.is_sized(0) && !h.is_sized(usize::MAX / 512));
}

#[test]
fn recurrent_shapes_are_checked() {
    let bin = vec![0u8; 4 * 96];
    let w = Arc::new(Weights::from_bytes(&bin, "p/r 1,12,8 0 96\np/s 12,8 0 96\np/t 1,13,4 0 52\n").unwrap());
    assert!(WeightBank::new(Arc::clone(&w), &["p/s"], &["p/r"]).is_ok());
    for (names, text) in [
        (["p/r", "p/s"], "p/s: unexpected GRU shape [12, 8]"),
        (["p/t", "p/q"], "p/t: unexpected GRU shape [1, 13, 4]"),
    ] {
        match WeightBank::new(Arc::clone(&w), &[], &names) {
            Err(Error::Weights(m)) => assert_eq!(m, text),
            _ => panic!("packed"),
        }
    }
    match WeightBank::new(Arc::clone(&w), &["p/r", "p/x", "p/y"], &["p/t"]) {
        Err(Error::MissingTensor(n)) => assert_eq!(n, "p/x"),
        _ => panic!("found"),
    }
    match WeightBank::new(w, &[], &["p/z"]) {
        Err(Error::MissingTensor(n)) => assert_eq!(n, "p/z"),
        _ => panic!("found"),
    }
}

#[test]
fn the_path_through_the_model_is_the_stages_in_turn() {
    let t = 2;
    let (bin, txt, map) = weights("", "");
    let hush = Hush::from_bytes(&bin, &txt).ok().unwrap();
    let window = up(&vec![1.0; 320]);
    let alpha = F32::from_bits(0.99f32.to_bits());
    let spec: Vec<Complex> = rnd(t * 161, 5)
        .iter()
        .zip(rnd(t * 161, 6))
        .map(|(a, b)| Complex { re: F32::from_bits(a.to_bits()), im: F32::from_bits(b.to_bits()) })
        .collect();
    let logs: Vec<F32> = erb_energies(&spec, t)
        .iter()
        .map(|e| F32::from_bits(f32::from_bits(e.to_bits()).log10().to_bits()))
        .collect();
    let mut d = Dsp::new(window.clone(), alpha);
    let erb: Vec<f32> = d.erb_feat(&logs, t).iter().map(|v| f32::from_bits(v.to_bits())).collect();
    let feat: Vec<f32> = d.spec_feat(&spec, t).iter().map(|v| f32::from_bits(v.to_bits())).collect();
    let p = plain_encode(&map, &erb, &feat, t);
    let mask = up(&plain_mask(&map, &p, t));
    let coefs = up(&plain_coefs(&map, &p, t));
    let want = hush_vani::hush::merge(&spec, &mask, &coefs, t);
    let mut d = Dsp::new(window.clone(), alpha);
    let got = hush.enhance_spectrum(&mut d, &spec, &logs, t, None);
    assert_eq!(got, want);
    let mut d = Dsp::new(window, alpha);
    same(&hush.local_snr(&mut d, &spec, &logs, t), &p.lsnr);
}

#[test]
fn earlier_frames_do_not_see_later_ones() {
    let (bin, txt, _) = weights("", "");
    let hush = Hush::from_bytes(&bin, &txt).ok().unwrap();
    let alpha = F32::from_bits(0.99f32.to_bits());
    let spec: Vec<Complex> = rnd(3 * 161, 7)
        .iter()
        .zip(rnd(3 * 161, 8))
        .map(|(a, b)| Complex { re: F32::from_bits(a.to_bits()), im: F32::from_bits(b.to_bits()) })
        .collect();
    let logs = up(&rnd(3 * 32, 9));
    let run = |spec: &[Complex], logs: &[F32], t: usize| {
        let mut d = Dsp::new(up(&vec![1.0; 320]), alpha);
        hush.enhance_spectrum(&mut d, spec, logs, t, None)
    };
    let long = run(&spec, &logs, 3);
    let short = run(&spec, &logs, 2);
    assert_eq!(long[..2 * 161], short[..]);
    let mut other = spec.clone();
    other[2 * 161..].fill(Complex { re: alpha, im: alpha });
    let changed = run(&other, &logs, 3);
    assert_eq!(long[..2 * 161], changed[..2 * 161]);
    assert_ne!(long[2 * 161..], changed[2 * 161..]);
}

#[test]
fn loading_tells_the_first_fault() {
    let (bin, txt, _) = weights("", "");
    match Hush::from_bytes(&bin[..bin.len() - 1], &txt) {
        Err(Error::Weights(m)) => assert_eq!(m, "f32 blob length is not a multiple of 4"),
        _ => panic!("loaded"),
    }
    let (bin, txt, _) = weights("erb_dec/convt2.0.weight", "");
    match Hush::from_bytes(&bin, &txt) {
        Err(Error::MissingTensor(n)) => assert_eq!(n, "erb_dec/convt2.0.weight"),
        _ => panic!("loaded"),
    }
    let (bin, txt, _) = weights("", "erb_dec/convt2.0.weight");
    match Hush::from_bytes(&bin, &txt) {
        Err(Error::Weights(m)) => assert_eq!(m, "tensors do not have the model's sizes"),
        _ => panic!("loaded"),
    }
}

#[test]
fn acceleration_needs_both_features() {
    assert!(Hush::is_accelerated(CpuFeatures { avx2: true, fma: true, f16c: false }));
    assert!(!Hush::is_accelerated(CpuFeatures { avx2: true, fma: false, f16c: true }));
    assert!(!Hush::is_accelerated(CpuFeatures { avx2: false, fma: true, f16c: true }));
}

#[test]
fn a_model_can_be_shared_between_threads() {
    fn shared<T: Send + Sync>() {}
    shared::<Hush>();
}

fn num(x: f32) -> F32 {
    F32::from_bits(x.to_bits())
}

fn plain(x: F32) -> f32 {
    f32::from_bits(x.to_bits())
}

fn vorbis() -> Vec<F32> {
    (0..320)
        .map(|i| {
            let s = (std::f64::consts::PI * (i as f64 + 0.5) / 320.0).sin();
            num((std::f64::consts::FRAC_PI_2 * s * s).sin() as f32)
        })
        .collect()
}

/// A transform of 320 numbers, in either direction, without normalisation.
fn transform(x: &[(f64, f64)], sign: f64) -> Vec<(f64, f64)> {
    (0..320)
        .map(|k| {
            x.iter().enumerate().fold((0.0, 0.0), |(re, im), (i, &(a, b))| {
                let p = sign * 2.0 * std::f64::consts::PI * ((k * i) % 320) as f64 / 320.0;
                let (s, c) = p.sin_cos();
                (re + a * c - b * s, im + a * s + b * c)
            })
        })
        .collect()
}

/// The whole path, with a limit in dB.
fn enhance_audio(hush: &Hush, audio: &[f32], db: Option<f32>) -> Vec<f32> {
    let (mut d, frames) = Hush::start(&up(audio), vorbis(), num(0.99)).ok().unwrap();
    let t = frames.len() / 320;
    let fft: Vec<Complex> = frames
        .chunks_exact(320)
        .flat_map(|f| {
            let x: Vec<(f64, f64)> = f.iter().map(|&v| (plain(v) as f64, 0.0)).collect();
            transform(&x, -1.0)
        })
        .map(|(re, im)| Complex { re: num(re as f32), im: num(im as f32) })
        .collect();
    let spec = spectrum(&fft, t);
    let logs: Vec<F32> = erb_energies(&spec, t).iter().map(|&e| num(plain(e).log10())).collect();
    let lim = limit_exponent(db.map(num)).map(|e| num(10f32.powf(plain(e))));
    let out = hush.enhance_spectrum(&mut d, &spec, &logs, t, lim);
    let back: Vec<F32> = spectra(&out, t)
        .chunks_exact(320)
        .flat_map(|s| {
            let x: Vec<(f64, f64)> = s.iter().map(|c| (plain(c.re) as f64, plain(c.im) as f64)).collect();
            transform(&x, 1.0)
        })
        .map(|(re, _)| num(re as f32))
        .collect();
    d.synthesis(&back, t).iter().map(|&v| plain(v)).collect()
}

fn recording(hops: usize) -> Vec<f32> {
    rnd(hops * 160, 42).iter().map(|v| v * 0.8).collect()
}

#[test]
fn only_the_size_of_a_limit_counts_in_the_audio() {
    let hush = Hush::checked_build(load("", "")).ok().unwrap();
    let audio = recording(2);
    let (a, b) = (enhance_audio(&hush, &audio, Some(12.0)), enhance_audio(&hush, &audio, Some(-12.0)));
    assert_eq!(a, b);
    let (c, d) = (enhance_audio(&hush, &audio, Some(1000.0)), enhance_audio(&hush, &audio, None));
    assert_eq!(c, d);
    assert_ne!(a, d);
}

#[test]
fn a_limit_mixes_the_audio() {
    let hush = Hush::checked_build(load("", "")).ok().unwrap();
    let audio = recording(3);
    let (x, z) = (enhance_audio(&hush, &audio, Some(6.0)), enhance_audio(&hush, &audio, None));
    let l = 10f32.powf(-0.3) as f64;
    assert_eq!(x.len(), 480);
    for n in 0..480 {
        let y = if n < 160 { 0.0 } else { audio[n - 160] as f64 };
        let want = y * l + z[n] as f64 * (1.0 - l);
        assert!((x[n] as f64 - want).abs() < 1e-4, "{n}: {} {want}", x[n]);
    }
}

#[test]
fn the_beginning_of_a_recording_gives_the_beginning_of_the_output() {
    let hush = Hush::checked_build(load("", "")).ok().unwrap();
    let audio = recording(3);
    let long = enhance_audio(&hush, &audio, None);
    let short = enhance_audio(&hush, &audio[..370], None);
    assert_eq!(short.len(), 320);
    assert_eq!(short[..], long[..320]);
}

#[test]
fn one_frame_decides_whether_a_model_is_sized() {
    let h = Hush::checked_build(load("", "")).ok().unwrap();
    for t in [1, 2, 7, 100_000, usize::MAX / 1024] {
        assert!(h.is_sized(t), "{t}");
    }
    assert!(!h.is_sized(usize::MAX / 1024 + 1));
}
