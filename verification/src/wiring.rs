//! How the stages are wired: which layer reads which tensor and which earlier result, and what the
//! steps between the layers do to each number.
use vstd::arithmetic::mul::*;
use vstd::prelude::*;

use crate::bank::{bank_gru_of, bank_of, gl_of, law_recurrent_matrices_are_packed, BankView};
use crate::decoders::{
    df_dec_of, erb_dec_of, lemma_df_dec_gru_names, lemma_erb_dec_gru_names,
};
use crate::dsp::{erb_feat_of, spec_feat_of, Complex, DspView};
use crate::encoder::{encode_of, lemma_encoder_gru_names, EncOutView};
use crate::exponential::{hyperbolic, is_exponential, logistic};
use crate::float::F32;
use crate::gates::{law_sigmoid_follows_its_argument, law_tanh_follows_its_argument};
use crate::hush::{enhanced_of, limited_of, merged_of, HushView};
use crate::kernels::law_grouped_linear_weighs_its_group;
use crate::layers::{
    added, channels_at, channels_first_of, frames_first_of, frames_of, plane_rows, planes_of,
};
use crate::nn::{
    conv1x3_of, conv3x3_causal_of, convtranspose_dw_of, dw_conv13_of, gru_of, pack_of,
    pointwise_of, relu_seq,
};
use crate::ranges::{between, lemma_zero};
use crate::rows::lemma_rows_len;
use crate::simd::{relu_of, sigmoid_seq, tanh_seq};
use crate::sums::{bounded, moderate, near, slack, sum};
use crate::values::{lemma_add, lemma_close, lemma_order};
use crate::weights::ArenaView;

verus! {

// ------------------------------------------------------------------ place by place

/// The rectifier keeps what is not negative and makes zero of what is, place by place.
pub proof fn law_the_rectifier_cuts_at_zero(x: Seq<F32>, i: int)
    requires
        0 <= i < x.len(),
        x[i].is_finite_spec(),
    ensures
        relu_seq(x).len() == x.len(),
        relu_seq(x)[i].is_finite_spec(),
        relu_seq(x)[i].value() == if x[i].value() < 0real {
            0real
        } else {
            x[i].value()
        },
{
    lemma_zero();
    lemma_order(F32::zero_spec(), x[i]);
    lemma_order(x[i], F32::zero_spec());
    assert(relu_seq(x)[i] == relu_of(x[i]));
}

/// What is not a number stays so under the rectifier, and so does the infinity above; the one below
/// becomes zero.
pub proof fn law_the_rectifier_on_what_is_not_finite(x: Seq<F32>, i: int)
    requires
        0 <= i < x.len(),
        !x[i].is_finite_spec(),
    ensures
        relu_seq(x)[i] == if x[i].is_inf_spec() && x[i].is_neg_spec() {
            F32 { bits: 0 }
        } else {
            x[i]
        },
{
    assert(relu_seq(x)[i] == relu_of(x[i]));
}

/// The logistic function and the hyperbolic tangent are taken place by place.
pub proof fn law_activations_work_place_by_place(f: spec_fn(real) -> real, x: Seq<F32>, i: int)
    requires
        is_exponential(f),
        0 <= i < x.len(),
        x[i].is_finite_spec(),
    ensures
        sigmoid_seq(x).len() == x.len(),
        near(sigmoid_seq(x)[i], logistic(f(-x[i].value())), 2real / 10000000real),
        tanh_seq(x).len() == x.len(),
        near(tanh_seq(x)[i], hyperbolic(f(2real * x[i].value())), 2real / 10000000real),
{
    law_sigmoid_follows_its_argument(f, x[i], x[i].value(), 0real);
    law_tanh_follows_its_argument(f, x[i], x[i].value(), 0real);
}

/// Two arrays are added place by place, as far as both go.
pub proof fn law_arrays_add_place_by_place(x: Seq<F32>, y: Seq<F32>, i: int, p: real)
    requires
        0 <= i < x.len(),
        i < y.len(),
        between(x[i], -p, p),
        between(y[i], -p, p),
        1real / 1099511627776real <= p <= 1000000real,
    ensures
        added(x, y).len() == x.len(),
        near(added(x, y)[i], x[i].value() + y[i].value(), 2real * p / 16777216real),
{
    lemma_add(x[i], y[i]);
    lemma_close(x[i].add_spec(y[i]), x[i].value() + y[i].value(), 2real * p);
}

/// Behind the end of the shorter array nothing is added.
pub proof fn law_nothing_is_added_behind_the_end(x: Seq<F32>, y: Seq<F32>, i: int)
    requires
        y.len() <= i < x.len(),
    ensures
        added(x, y)[i] == x[i],
{
}

/// A map `(C, T, F)` frame by frame holds channel `ch` at frequency `fi` of frame `ti` at place
/// `(ti, fi, ch)`.
pub proof fn law_frames_first_moves_the_channels_last(
    x: Seq<F32>,
    c: nat,
    t: nat,
    f: nat,
    ch: int,
    ti: int,
    fi: int,
)
    requires
        0 <= ch < c,
        0 <= ti < t,
        0 <= fi < f,
    ensures
        frames_first_of(x, c, t, f).len() == t * (f * c),
        frames_first_of(x, c, t, f)[(ti * f + fi) * c + ch] == x[(ch * t + ti) * f + fi],
{
    let g = frames_of(x, c, t as int, f);
    assert forall|k: int| 0 <= k < t implies (#[trigger] g(k)).len() == f * c by {
        lemma_rows_len(f, c as int, channels_at(x, c, t as int, f as int, k));
    }
    let h = channels_at(x, c, t as int, f as int, ti);
    crate::kernels::lemma_map_cell(t, f, c as int, g, h, ti, fi, ch);
    lemma_rows_len(t, (f * c) as int, g);
}

/// The other way round, place `(ch, ti, fi)` holds what stood at `(ti, fi, ch)`.
pub proof fn law_channels_first_moves_the_channels_first(
    x: Seq<F32>,
    c: nat,
    t: nat,
    f: nat,
    ch: int,
    ti: int,
    fi: int,
)
    requires
        0 <= ch < c,
        0 <= ti < t,
        0 <= fi < f,
    ensures
        channels_first_of(x, c, t, f).len() == c * (t * f),
        channels_first_of(x, c, t, f)[(ch * t + ti) * f + fi] == x[(ti * f + fi) * c + ch],
{
    let g = planes_of(x, c as int, t, f);
    assert forall|k: int| 0 <= k < c implies (#[trigger] g(k)).len() == t * f by {
        lemma_rows_len(t, f as int, plane_rows(x, c as int, f, k));
    }
    crate::kernels::lemma_map_cell(
        c,
        t,
        f as int,
        g,
        plane_rows(x, c as int, f, ch),
        ch,
        ti,
        fi,
    );
    lemma_rows_len(c, (t * f) as int, g);
    lemma_mul_is_distributive_add_other_way(c as int, ti * f, fi);
    lemma_mul_is_associative(ti, f as int, c as int);
}

/// A named grouped linear layer: with the named tensor of shape `[G, I, H]`, place `j` of group `gi` of
/// row `ti` weighs the places of that group of that row.
pub proof fn law_named_linear_layers_weigh_their_group(
    a: ArenaView,
    x: Seq<F32>,
    t: nat,
    name: Seq<char>,
    ti: int,
    gi: int,
    j: int,
    p: real,
    q: real,
    m: real,
)
    requires
        a.tensors[name].shape.len() >= 3,
        0 <= ti < t,
        0 <= gi < a.tensors[name].shape[0],
        0 <= j < a.tensors[name].shape[2],
        a.tensors[name].shape[1] <= 3900,
        ({
            let s = a.tensors[name].shape;
            t * s[0] * s[1] <= x.len() && s[0] * (s[1] * s[2]) <= a.tensor(name).len()
        }),
        bounded(x, p),
        bounded(a.tensor(name), q),
        p * q <= m,
        moderate(m),
    ensures
        ({
            let s = a.tensors[name].shape;
            let (g, i, h) = (s[0] as int, s[1] as int, s[2] as int);
            let w = a.tensor(name);
            near(
                gl_of(a, x, t, name)[ti * (g * h) + (gi * h + j)],
                sum(
                    i as nat,
                    |k: int|
                        x[(ti * g + gi) * i + k].value() * w[gi * (i * h) + (k * h + j)].value(),
                ),
                slack(i, m),
            )
        }),
{
    let s = a.tensors[name].shape;
    law_grouped_linear_weighs_its_group(
        x,
        t,
        s[0] as nat,
        s[1] as nat,
        s[2] as nat,
        a.tensor(name),
        ti,
        gi,
        j,
        p,
        q,
        m,
    );
}

/// A named recurrent unit of a standing bank reads the three tensors of its name, the second one as the
/// recurrent matrix `[1, 768, 256]`.
pub proof fn law_named_recurrent_units_read_their_tensors(
    a: ArenaView,
    required: Seq<Seq<char>>,
    gru_r: Seq<Seq<char>>,
    x: Seq<F32>,
    t: nat,
    i: int,
    prefix: Seq<char>,
    ids: (Seq<char>, Seq<char>, Seq<char>),
)
    requires
        bank_of(a, required, gru_r) is Ok,
        gru_r.contains(prefix + "/"@ + ids.1),
        a.tensors[prefix + "/"@ + ids.1].shape == seq![1usize, 768, 256],
    ensures
        bank_gru_of(bank_of(a, required, gru_r)->Ok_0, x, t, i, prefix, ids) == gru_of(
            x,
            t,
            i,
            a.tensor(prefix + "/"@ + ids.0),
            pack_of(a.tensor(prefix + "/"@ + ids.1), 768, 256),
            a.tensor(prefix + "/"@ + ids.2),
            256,
        ),
{
    let name = prefix + "/"@ + ids.1;
    law_recurrent_matrices_are_packed(a, required, gru_r, gru_r.index_of(name));
}

// ------------------------------------------------------------------ the encoder

/// A 1x1 convolution of 16 channels to `cout`, and the rectifier.
pub open spec fn mix(a: ArenaView, x: Seq<F32>, tf: nat, w: Seq<char>, b: Seq<char>, cout: nat) -> Seq<
    F32,
> {
    relu_seq(pointwise_of(x, 16, tf, a.tensor(w), Some(a.tensor(b)), cout))
}

/// The recurrent unit of 256 over its three tensors.
pub open spec fn recurrent(b: BankView, x: Seq<F32>, t: nat, w: Seq<char>, r: Seq<char>, c: Seq<char>) -> Seq<
    F32,
> {
    gru_of(x, t, 256, b.w.tensor(w), b.packed[r], b.w.tensor(c), 256)
}

/// The encoder's band path: a causal 3x3 convolution of the band features, and three rounds of a
/// depthwise convolution over frequency, a 1x1 convolution and the rectifier, which take 32 bands to 16,
/// to 8, and keep 8; each round reads what the one before gave out.
pub proof fn law_the_band_path_is_four_convolutions(
    b: BankView,
    erb: Seq<F32>,
    spec: Seq<F32>,
    t: nat,
)
    ensures
        ({
            let e = encode_of(b, erb, spec, t);
            let w = |name: Seq<char>| b.w.tensor(name);
            &&& e.e0 == relu_seq(
                conv3x3_causal_of(
                    erb,
                    1,
                    t,
                    32,
                    w("enc/onnx::Conv_310"@),
                    Some(w("enc/onnx::Conv_311"@)),
                    16,
                    1,
                ),
            )
            &&& e.e1 == mix(
                b.w,
                dw_conv13_of(e.e0, 16, t, 32, w("enc/erb_conv1.0.weight"@), 2),
                t * 16,
                "enc/onnx::Conv_313"@,
                "enc/onnx::Conv_314"@,
                16,
            )
            &&& e.e2 == mix(
                b.w,
                dw_conv13_of(e.e1, 16, t, 16, w("enc/erb_conv2.0.weight"@), 2),
                t * 8,
                "enc/onnx::Conv_316"@,
                "enc/onnx::Conv_317"@,
                16,
            )
            &&& e.e3 == mix(
                b.w,
                dw_conv13_of(e.e2, 16, t, 8, w("enc/erb_conv3.0.weight"@), 1),
                t * 8,
                "enc/onnx::Conv_319"@,
                "enc/onnx::Conv_320"@,
                16,
            )
        }),
{
}

/// The encoder's spectrum path and its embedding: a causal 3x3 convolution of both planes by themselves
/// and a 1x1 convolution; then from 64 bins to 32, frame by frame through a linear layer, added to the
/// band path's last map, and through a linear layer, the recurrent unit and another linear layer.
pub proof fn law_the_embedding_joins_both_paths(
    b: BankView,
    erb: Seq<F32>,
    spec: Seq<F32>,
    t: nat,
)
    ensures
        ({
            let e = encode_of(b, erb, spec, t);
            let w = |name: Seq<char>| b.w.tensor(name);
            let c1 = mix(
                b.w,
                dw_conv13_of(e.c0, 16, t, 64, w("enc/df_conv1.0.weight"@), 2),
                t * 32,
                "enc/onnx::Conv_325"@,
                "enc/onnx::Conv_326"@,
                16,
            );
            let joined = added(
                relu_seq(gl_of(b.w, frames_first_of(c1, 16, t, 32), t, "enc/df_fc_emb.0.weight"@)),
                frames_first_of(e.e3, 16, t, 8),
            );
            let x = relu_seq(gl_of(b.w, joined, t, "enc/emb_gru.linear_in.0.weight"@));
            let y = recurrent(
                b,
                x,
                t,
                "enc/onnx::GRU_360"@,
                "enc/onnx::GRU_361"@,
                "enc/onnx::GRU_362"@,
            );
            &&& e.c0 == mix(
                b.w,
                conv3x3_causal_of(spec, 2, t, 64, w("enc/df_conv0.1.weight"@), None, 16, 2),
                t * 64,
                "enc/onnx::Conv_322"@,
                "enc/onnx::Conv_323"@,
                16,
            )
            &&& e.emb == relu_seq(gl_of(b.w, y, t, "enc/emb_gru.linear_out.0.weight"@))
        }),
{
    lemma_encoder_gru_names();
}

// ------------------------------------------------------------------ the decoders

/// The band decoder: a linear layer, the recurrent unit and another linear layer make a map of 8 bands
/// out of the embedding; to it the skip connections of the encoder are added, each through its own 1x1
/// convolution, from the last to the first, with a convolution that keeps 8 bands, one that widens them
/// to 16 and one that widens them to 32 in between; the mask is the logistic function of a last
/// convolution.
pub proof fn law_the_band_decoder_adds_the_skips(b: BankView, e: EncOutView, t: nat)
    ensures
        ({
            let w = |name: Seq<char>| b.w.tensor(name);
            let skip = |x: Seq<F32>, f: nat, p: Seq<char>, q: Seq<char>| mix(b.w, x, t * f, p, q, 16);
            let x = relu_seq(gl_of(b.w, e.emb, t, "erb_dec/emb_gru.linear_in.0.weight"@));
            let y = recurrent(
                b,
                x,
                t,
                "erb_dec/onnx::GRU_291"@,
                "erb_dec/onnx::GRU_292"@,
                "erb_dec/onnx::GRU_293"@,
            );
            let z = relu_seq(gl_of(b.w, y, t, "erb_dec/emb_gru.linear_out.0.weight"@));
            let d3 = added(
                channels_first_of(z, 16, t, 8),
                skip(e.e3, 8, "erb_dec/onnx::Conv_247"@, "erb_dec/onnx::Conv_248"@),
            );
            let d2 = added(
                mix(
                    b.w,
                    dw_conv13_of(d3, 16, t, 8, w("erb_dec/convt3.0.weight"@), 1),
                    t * 8,
                    "erb_dec/onnx::Conv_250"@,
                    "erb_dec/onnx::Conv_251"@,
                    16,
                ),
                skip(e.e2, 8, "erb_dec/onnx::Conv_253"@, "erb_dec/onnx::Conv_254"@),
            );
            let d1 = added(
                mix(
                    b.w,
                    convtranspose_dw_of(d2, 16, t, 8, w("erb_dec/convt2.0.weight"@)),
                    t * 16,
                    "erb_dec/onnx::Conv_256"@,
                    "erb_dec/onnx::Conv_257"@,
                    16,
                ),
                skip(e.e1, 16, "erb_dec/onnx::Conv_259"@, "erb_dec/onnx::Conv_260"@),
            );
            let d0 = added(
                mix(
                    b.w,
                    convtranspose_dw_of(d1, 16, t, 16, w("erb_dec/convt1.0.weight"@)),
                    t * 32,
                    "erb_dec/onnx::Conv_262"@,
                    "erb_dec/onnx::Conv_263"@,
                    16,
                ),
                skip(e.e0, 32, "erb_dec/onnx::Conv_265"@, "erb_dec/onnx::Conv_266"@),
            );
            erb_dec_of(b, e, t) == sigmoid_seq(
                conv1x3_of(
                    d0,
                    16,
                    t,
                    32,
                    w("erb_dec/onnx::Conv_268"@),
                    w("erb_dec/onnx::Conv_269"@),
                    1,
                ),
            )
        }),
{
    lemma_erb_dec_gru_names();
}

/// The deep-filter decoder: a linear layer and three recurrent units, one after the other, then a linear
/// layer under the hyperbolic tangent, plus the encoder's spectrum map through a 1x1 convolution to ten
/// channels, frame by frame.
pub proof fn law_the_filter_decoder_adds_the_spectrum_path(b: BankView, e: EncOutView, t: nat)
    ensures
        ({
            let x = relu_seq(gl_of(b.w, e.emb, t, "df_dec/df_gru.linear_in.0.weight"@));
            let h1 = recurrent(
                b,
                x,
                t,
                "df_dec/onnx::GRU_337"@,
                "df_dec/onnx::GRU_338"@,
                "df_dec/onnx::GRU_339"@,
            );
            let h2 = recurrent(
                b,
                h1,
                t,
                "df_dec/onnx::GRU_357"@,
                "df_dec/onnx::GRU_358"@,
                "df_dec/onnx::GRU_359"@,
            );
            let h3 = recurrent(
                b,
                h2,
                t,
                "df_dec/onnx::GRU_377"@,
                "df_dec/onnx::GRU_378"@,
                "df_dec/onnx::GRU_379"@,
            );
            df_dec_of(b, e, t) == added(
                tanh_seq(gl_of(b.w, h3, t, "df_dec/df_out.0.weight"@)),
                frames_first_of(
                    mix(
                        b.w,
                        e.c0,
                        t * 64,
                        "df_dec/onnx::Conv_314"@,
                        "df_dec/onnx::Conv_315"@,
                        10,
                    ),
                    10,
                    t,
                    64,
                ),
            )
        }),
{
    lemma_df_dec_gru_names();
}

/// The enhanced spectra: the encoder reads both features, both decoders read the encoder, the band mask
/// and the filter coefficients go to the noisy spectra, and the limit mixes these back in.
pub proof fn law_enhancing_runs_the_stages_in_turn(
    h: HushView,
    d: DspView,
    spec: Seq<Complex>,
    logs: Seq<F32>,
    t: nat,
    lim: Option<F32>,
)
    ensures
        ({
            let e = encode_of(h.enc, erb_feat_of(logs, d, t), spec_feat_of(spec, d, t), t);
            let m = merged_of(spec, erb_dec_of(h.dec, e, t), df_dec_of(h.dec, e, t), t);
            enhanced_of(h, d, spec, logs, t, lim) == limited_of(spec, m, lim)
        }),
{
}

} // verus!
