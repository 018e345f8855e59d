//! The encoder, the first stage of the model.
//!
//! Takes the band features and the complex-spectrum features and produces the shared embedding,
//! the four skip connections, the deep-filter feature `c0`, and the predicted local SNR.
use std::sync::Arc;
use vstd::arithmetic::mul::*;
use vstd::prelude::*;

use crate::bank::{
    bank_gru_of, bank_of, gl_of, law_recurrent_matrices_are_packed,
    law_required_tensors_are_there, names_of, qualified_of, BankView, HIDDEN, WeightBank,
};
use crate::error::{Error, ErrorView};
use crate::float::F32;
use crate::layers::{
    add_to, added, block, block_of, frames_first, frames_first_of, gl_sized, gl_width, has, holds,
    gl_is_sized, holds_at_least, lemma_gl_sized, mix_fits, mix_is_sized, mixed, mixed_of,
    output_width,
};
use crate::nn::{
    conv3x3_causal, conv3x3_causal_of, dot, dot_of, lemma_even_groups_fit, relu_, relu_seq,
    strided,
};
use crate::rows::{row_at, row_of};
use crate::simd::{bits, sigmoid, sigmoid_of};
use crate::weights::{ArenaView, Weights};

verus! {

/// 50, the span of the predicted local SNR in dB.
pub const LSNR_SPAN: u32 = 0x4248_0000;

/// 15, by how much the predicted local SNR reaches below zero.
pub const LSNR_FLOOR: u32 = 0x4170_0000;

/// Tensors the encoder reads.
pub open spec fn encoder_required() -> Seq<Seq<char>> {
    seq![
        "enc/onnx::Conv_310"@,
        "enc/onnx::Conv_311"@,
        "enc/erb_conv1.0.weight"@,
        "enc/onnx::Conv_313"@,
        "enc/onnx::Conv_314"@,
        "enc/erb_conv2.0.weight"@,
        "enc/onnx::Conv_316"@,
        "enc/onnx::Conv_317"@,
        "enc/erb_conv3.0.weight"@,
        "enc/onnx::Conv_319"@,
        "enc/onnx::Conv_320"@,
        "enc/df_conv0.1.weight"@,
        "enc/onnx::Conv_322"@,
        "enc/onnx::Conv_323"@,
        "enc/df_conv1.0.weight"@,
        "enc/onnx::Conv_325"@,
        "enc/onnx::Conv_326"@,
        "enc/df_fc_emb.0.weight"@,
        "enc/emb_gru.linear_in.0.weight"@,
        "enc/emb_gru.linear_out.0.weight"@,
        "enc/onnx::GRU_360"@,
        "enc/onnx::GRU_361"@,
        "enc/onnx::GRU_362"@,
        "enc/onnx::MatMul_365"@,
        "enc/lsnr_fc.0.bias"@,
    ]
}

/// The recurrent matrix of the encoder.
pub open spec fn encoder_gru_r() -> Seq<Seq<char>> {
    seq!["enc/onnx::GRU_361"@]
}

/// Tensors the encoder reads. Validated once at construction.
pub(crate) fn required_tensors() -> (r: Vec<&'static str>)
    ensures
        names_of(r@) == encoder_required(),
{
    let r = vec![
        "enc/onnx::Conv_310",
        "enc/onnx::Conv_311",
        "enc/erb_conv1.0.weight",
        "enc/onnx::Conv_313",
        "enc/onnx::Conv_314",
        "enc/erb_conv2.0.weight",
        "enc/onnx::Conv_316",
        "enc/onnx::Conv_317",
        "enc/erb_conv3.0.weight",
        "enc/onnx::Conv_319",
        "enc/onnx::Conv_320",
        "enc/df_conv0.1.weight",
        "enc/onnx::Conv_322",
        "enc/onnx::Conv_323",
        "enc/df_conv1.0.weight",
        "enc/onnx::Conv_325",
        "enc/onnx::Conv_326",
        "enc/df_fc_emb.0.weight",
        "enc/emb_gru.linear_in.0.weight",
        "enc/emb_gru.linear_out.0.weight",
        "enc/onnx::GRU_360",
        "enc/onnx::GRU_361",
        "enc/onnx::GRU_362",
        "enc/onnx::MatMul_365",
        "enc/lsnr_fc.0.bias",
    ];
    assert(names_of(r@) =~= encoder_required());
    r
}

/// The recurrent matrix of the encoder.
pub(crate) fn recurrent_matrices() -> (r: Vec<&'static str>)
    ensures
        names_of(r@) == encoder_gru_r(),
{
    let r = vec!["enc/onnx::GRU_361"];
    assert(names_of(r@) =~= encoder_gru_r());
    r
}

/// Whether every tensor that the encoder reads is there, and its recurrent matrix in panels.
pub open spec fn encoder_has(b: BankView) -> bool {
    &&& has(b, "enc/onnx::Conv_310"@)
    &&& has(b, "enc/onnx::Conv_311"@)
    &&& has(b, "enc/erb_conv1.0.weight"@)
    &&& has(b, "enc/onnx::Conv_313"@)
    &&& has(b, "enc/onnx::Conv_314"@)
    &&& has(b, "enc/erb_conv2.0.weight"@)
    &&& has(b, "enc/onnx::Conv_316"@)
    &&& has(b, "enc/onnx::Conv_317"@)
    &&& has(b, "enc/erb_conv3.0.weight"@)
    &&& has(b, "enc/onnx::Conv_319"@)
    &&& has(b, "enc/onnx::Conv_320"@)
    &&& has(b, "enc/df_conv0.1.weight"@)
    &&& has(b, "enc/onnx::Conv_322"@)
    &&& has(b, "enc/onnx::Conv_323"@)
    &&& has(b, "enc/df_conv1.0.weight"@)
    &&& has(b, "enc/onnx::Conv_325"@)
    &&& has(b, "enc/onnx::Conv_326"@)
    &&& has(b, "enc/df_fc_emb.0.weight"@)
    &&& has(b, "enc/emb_gru.linear_in.0.weight"@)
    &&& has(b, "enc/emb_gru.linear_out.0.weight"@)
    &&& has(b, "enc/onnx::GRU_360"@)
    &&& has(b, "enc/onnx::GRU_361"@)
    &&& has(b, "enc/onnx::GRU_362"@)
    &&& has(b, "enc/onnx::MatMul_365"@)
    &&& has(b, "enc/lsnr_fc.0.bias"@)
    &&& b.packed.contains_key("enc/onnx::GRU_361"@)
}

/// A bank over the encoder's tensors has them all.
pub proof fn lemma_encoder_has(a: ArenaView, names: Seq<Seq<char>>, mats: Seq<Seq<char>>)
    requires
        encoder_required().is_prefix_of(names),
        encoder_gru_r().is_prefix_of(mats),
    ensures
        bank_of(a, names, mats) matches Ok(b) ==> encoder_has(b),
{
    if bank_of(a, names, mats) is Ok {
        let b = bank_of(a, names, mats)->Ok_0;
        assert forall|i: int| 0 <= i < names.len() implies has(b, #[trigger] names[i]) by {
            law_required_tensors_are_there(a, names, mats, i);
        }
        law_recurrent_matrices_are_packed(a, names, mats, 0);
        assert(names[0] == "enc/onnx::Conv_310"@);
        assert(names[1] == "enc/onnx::Conv_311"@);
        assert(names[2] == "enc/erb_conv1.0.weight"@);
        assert(names[3] == "enc/onnx::Conv_313"@);
        assert(names[4] == "enc/onnx::Conv_314"@);
        assert(names[5] == "enc/erb_conv2.0.weight"@);
        assert(names[6] == "enc/onnx::Conv_316"@);
        assert(names[7] == "enc/onnx::Conv_317"@);
        assert(names[8] == "enc/erb_conv3.0.weight"@);
        assert(names[9] == "enc/onnx::Conv_319"@);
        assert(names[10] == "enc/onnx::Conv_320"@);
        assert(names[11] == "enc/df_conv0.1.weight"@);
        assert(names[12] == "enc/onnx::Conv_322"@);
        assert(names[13] == "enc/onnx::Conv_323"@);
        assert(names[14] == "enc/df_conv1.0.weight"@);
        assert(names[15] == "enc/onnx::Conv_325"@);
        assert(names[16] == "enc/onnx::Conv_326"@);
        assert(names[17] == "enc/df_fc_emb.0.weight"@);
        assert(names[18] == "enc/emb_gru.linear_in.0.weight"@);
        assert(names[19] == "enc/emb_gru.linear_out.0.weight"@);
        assert(names[20] == "enc/onnx::GRU_360"@);
        assert(names[21] == "enc/onnx::GRU_361"@);
        assert(names[22] == "enc/onnx::GRU_362"@);
        assert(names[23] == "enc/onnx::MatMul_365"@);
        assert(names[24] == "enc/lsnr_fc.0.bias"@);
        assert(mats.subrange(0, 1)[0] == mats[0]);
    }
}

/// Whether the encoder's tensors hold what a run over `t` frames reads.
pub open spec fn encoder_sized(b: BankView, t: int) -> bool {
    &&& holds(b, "enc/onnx::Conv_310"@, 144)
    &&& holds(b, "enc/onnx::Conv_311"@, 16)
    &&& holds(b, "enc/erb_conv1.0.weight"@, 48)
    &&& mix_fits(b, "enc/onnx::Conv_313"@, "enc/onnx::Conv_314"@, 16)
    &&& holds(b, "enc/erb_conv2.0.weight"@, 48)
    &&& mix_fits(b, "enc/onnx::Conv_316"@, "enc/onnx::Conv_317"@, 16)
    &&& holds(b, "enc/erb_conv3.0.weight"@, 48)
    &&& mix_fits(b, "enc/onnx::Conv_319"@, "enc/onnx::Conv_320"@, 16)
    &&& holds(b, "enc/df_conv0.1.weight"@, 144)
    &&& mix_fits(b, "enc/onnx::Conv_322"@, "enc/onnx::Conv_323"@, 16)
    &&& holds(b, "enc/df_conv1.0.weight"@, 48)
    &&& mix_fits(b, "enc/onnx::Conv_325"@, "enc/onnx::Conv_326"@, 16)
    &&& gl_sized(b, t, "enc/df_fc_emb.0.weight"@, 512)
    &&& gl_width(b, "enc/df_fc_emb.0.weight"@) >= 128
    &&& gl_sized(
        b,
        t,
        "enc/emb_gru.linear_in.0.weight"@,
        gl_width(b, "enc/df_fc_emb.0.weight"@),
    )
    &&& gl_width(b, "enc/emb_gru.linear_in.0.weight"@) == 256
    &&& holds(b, "enc/onnx::GRU_360"@, 196608)
    &&& 196608 <= b.packed["enc/onnx::GRU_361"@].len()
    &&& holds(b, "enc/onnx::GRU_362"@, 1536)
    &&& gl_sized(b, t, "enc/emb_gru.linear_out.0.weight"@, 256)
    &&& gl_width(b, "enc/emb_gru.linear_out.0.weight"@) >= 128
    &&& b.w.tensors["enc/onnx::MatMul_365"@].len == 128
    &&& holds(b, "enc/lsnr_fc.0.bias"@, 1)
}

/// Encoder outputs, as numbers.
pub struct EncOutView {
    pub e0: Seq<F32>,
    pub e1: Seq<F32>,
    pub e2: Seq<F32>,
    pub e3: Seq<F32>,
    pub emb: Seq<F32>,
    pub c0: Seq<F32>,
    pub lsnr: Seq<F32>,
}

/// Encoder outputs, consumed by the decoders.
///
/// `e0`..`e3` are the skip connections (channels-major `[16, T, F]`), `emb` is the `[T, 128]`
/// embedding, `c0` is the `[16, T, 64]` deep-filter feature, and `lsnr` is the per-frame predicted
/// local SNR in dB.
pub struct EncOut {
    /// Skip connection, `[16, T, 32]`.
    pub e0: Vec<F32>,
    /// Skip connection, `[16, T, 16]`.
    pub e1: Vec<F32>,
    /// Skip connection, `[16, T, 8]`.
    pub e2: Vec<F32>,
    /// Skip connection, `[16, T, 8]`.
    pub e3: Vec<F32>,
    /// Shared embedding, `[T, 128]`.
    pub emb: Vec<F32>,
    /// Deep-filter feature, `[16, T, 64]`.
    pub c0: Vec<F32>,
    /// Predicted local SNR per frame, in dB, `[T]`.
    pub lsnr: Vec<F32>,
}

impl View for EncOut {
    type V = EncOutView;

    open spec fn view(&self) -> EncOutView {
        EncOutView {
            e0: self.e0@,
            e1: self.e1@,
            e2: self.e2@,
            e3: self.e3@,
            emb: self.emb@,
            c0: self.c0@,
            lsnr: self.lsnr@,
        }
    }
}

/// The first band convolution: 3x3 causal, 1 to 16 channels, 32 bands.
pub open spec fn e0_of(b: BankView, feat_erb: Seq<F32>, t: nat) -> Seq<F32> {
    relu_seq(
        conv3x3_causal_of(
            feat_erb,
            1,
            t,
            32,
            b.w.tensor("enc/onnx::Conv_310"@),
            Some(b.w.tensor("enc/onnx::Conv_311"@)),
            16,
            1,
        ),
    )
}

/// The second band convolution, 32 to 16 bands.
pub open spec fn e1_of(b: BankView, e0: Seq<F32>, t: nat) -> Seq<F32> {
    block_of(
        b,
        e0,
        t,
        32,
        "enc/erb_conv1.0.weight"@,
        "enc/onnx::Conv_313"@,
        "enc/onnx::Conv_314"@,
        2,
    )
}

/// The third band convolution, 16 to 8 bands.
pub open spec fn e2_of(b: BankView, e1: Seq<F32>, t: nat) -> Seq<F32> {
    block_of(
        b,
        e1,
        t,
        16,
        "enc/erb_conv2.0.weight"@,
        "enc/onnx::Conv_316"@,
        "enc/onnx::Conv_317"@,
        2,
    )
}

/// The fourth band convolution, 8 bands.
pub open spec fn e3_of(b: BankView, e2: Seq<F32>, t: nat) -> Seq<F32> {
    block_of(
        b,
        e2,
        t,
        8,
        "enc/erb_conv3.0.weight"@,
        "enc/onnx::Conv_319"@,
        "enc/onnx::Conv_320"@,
        1,
    )
}

/// The first spectrum convolution: 3x3 causal, one group for the real and one for the imaginary
/// plane, no bias; then a 1x1 convolution.
pub open spec fn c0_of(b: BankView, feat_spec: Seq<F32>, t: nat) -> Seq<F32> {
    mixed_of(
        b,
        conv3x3_causal_of(
            feat_spec,
            2,
            t,
            64,
            b.w.tensor("enc/df_conv0.1.weight"@),
            None,
            16,
            2,
        ),
        t * 64,
        "enc/onnx::Conv_322"@,
        "enc/onnx::Conv_323"@,
        16,
    )
}

/// The second spectrum convolution, 64 to 32 bins.
pub open spec fn c1_of(b: BankView, c0: Seq<F32>, t: nat) -> Seq<F32> {
    block_of(
        b,
        c0,
        t,
        64,
        "enc/df_conv1.0.weight"@,
        "enc/onnx::Conv_325"@,
        "enc/onnx::Conv_326"@,
        2,
    )
}

/// What goes into the encoder's recurrent unit: the spectrum path through its linear layer, plus
/// the band path.
pub open spec fn joined_of(b: BankView, e3: Seq<F32>, c1: Seq<F32>, t: nat) -> Seq<F32> {
    added(
        relu_seq(gl_of(b.w, frames_first_of(c1, 16, t, 32), t, "enc/df_fc_emb.0.weight"@)),
        frames_first_of(e3, 16, t, 8),
    )
}

/// The embedding: a linear layer, the recurrent unit, and another linear layer.
pub open spec fn emb_of(b: BankView, joined: Seq<F32>, t: nat) -> Seq<F32> {
    let x = relu_seq(gl_of(b.w, joined, t, "enc/emb_gru.linear_in.0.weight"@));
    let y = bank_gru_of(
        b,
        x,
        t,
        256,
        "enc"@,
        ("onnx::GRU_360"@, "onnx::GRU_361"@, "onnx::GRU_362"@),
    );
    relu_seq(gl_of(b.w, y, t, "enc/emb_gru.linear_out.0.weight"@))
}

/// The predicted local SNR of one frame, in dB: `50 * sigmoid(w . emb + b) - 15`.
pub open spec fn lsnr_at(b: BankView, emb: Seq<F32>, ti: int) -> F32 {
    sigmoid_of(
        dot_of(row_of(emb, ti, 128), b.w.tensor("enc/onnx::MatMul_365"@)).add_spec(
            b.w.tensor("enc/lsnr_fc.0.bias"@)[0],
        ),
    ).mul_spec(bits(LSNR_SPAN)).sub_spec(bits(LSNR_FLOOR))
}

/// What the encoder makes of `t` frames of features.
pub open spec fn encode_of(
    b: BankView,
    feat_erb: Seq<F32>,
    feat_spec: Seq<F32>,
    t: nat,
) -> EncOutView {
    let e0 = e0_of(b, feat_erb, t);
    let e1 = e1_of(b, e0, t);
    let e2 = e2_of(b, e1, t);
    let e3 = e3_of(b, e2, t);
    let c0 = c0_of(b, feat_spec, t);
    let emb = emb_of(b, joined_of(b, e3, c1_of(b, c0, t), t), t);
    EncOutView { e0, e1, e2, e3, emb, c0, lsnr: Seq::new(t, |ti: int| lsnr_at(b, emb, ti)) }
}

/// Whether a run over `t` frames stays within the machine's address range.
pub open spec fn frames_fit(t: int) -> bool {
    0 < t && 1024 * t <= usize::MAX
}

fn band_path(bank: &WeightBank, feat_erb: &[F32], t: usize) -> (r: (
    Vec<F32>,
    Vec<F32>,
    Vec<F32>,
    Vec<F32>,
))
    requires
        encoder_has(bank@),
        encoder_sized(bank@, t as int),
        frames_fit(t as int),
        t * 32 <= feat_erb@.len(),
    ensures
        r.0@ == e0_of(bank@, feat_erb@, t as nat),
        r.1@ == e1_of(bank@, r.0@, t as nat),
        r.2@ == e2_of(bank@, r.1@, t as nat),
        r.3@ == e3_of(bank@, r.2@, t as nat),
        r.0@.len() == 16 * t * 32,
        r.1@.len() == 16 * t * 16,
        r.2@.len() == 16 * t * 8,
        r.3@.len() == 16 * t * 8,
{
    proof {
        lemma_even_groups_fit(1, 16, 1);
        assert(strided(32, 2) == 16);
        assert(strided(16, 2) == 8);
        assert(strided(8, 1) == 8);
    }
    let w = bank.t("enc/onnx::Conv_310");
    let b = bank.t("enc/onnx::Conv_311");
    let mut e0 = conv3x3_causal(feat_erb, 1, t, 32, w, Some(b), 16, 1);
    relu_(e0.as_mut_slice());
    let e1 = block(
        bank,
        e0.as_slice(),
        t,
        32,
        "enc/erb_conv1.0.weight",
        "enc/onnx::Conv_313",
        "enc/onnx::Conv_314",
        2,
    );
    let e2 = block(
        bank,
        e1.as_slice(),
        t,
        16,
        "enc/erb_conv2.0.weight",
        "enc/onnx::Conv_316",
        "enc/onnx::Conv_317",
        2,
    );
    let e3 = block(
        bank,
        e2.as_slice(),
        t,
        8,
        "enc/erb_conv3.0.weight",
        "enc/onnx::Conv_319",
        "enc/onnx::Conv_320",
        1,
    );
    (e0, e1, e2, e3)
}

fn spectrum_path(bank: &WeightBank, feat_spec: &[F32], t: usize) -> (r: (Vec<F32>, Vec<F32>))
    requires
        encoder_has(bank@),
        encoder_sized(bank@, t as int),
        frames_fit(t as int),
        2 * t * 64 <= feat_spec@.len(),
    ensures
        r.0@ == c0_of(bank@, feat_spec@, t as nat),
        r.1@ == c1_of(bank@, r.0@, t as nat),
        r.0@.len() == 16 * t * 64,
        r.1@.len() == 16 * t * 32,
{
    proof {
        lemma_even_groups_fit(2, 16, 2);
        assert(strided(64, 2) == 32);
    }
    let w = bank.t("enc/df_conv0.1.weight");
    let c = conv3x3_causal(feat_spec, 2, t, 64, w, None, 16, 2);
    let c0 = mixed(
        bank,
        c.as_slice(),
        t * 64,
        "enc/onnx::Conv_322",
        "enc/onnx::Conv_323",
        16,
    );
    let c1 = block(
        bank,
        c0.as_slice(),
        t,
        64,
        "enc/df_conv1.0.weight",
        "enc/onnx::Conv_325",
        "enc/onnx::Conv_326",
        2,
    );
    (c0, c1)
}

fn join(bank: &WeightBank, e3: &[F32], c1: &[F32], t: usize) -> (r: Vec<F32>)
    requires
        encoder_has(bank@),
        encoder_sized(bank@, t as int),
        frames_fit(t as int),
        e3@.len() == 16 * t * 8,
        c1@.len() == 16 * t * 32,
    ensures
        r@ == joined_of(bank@, e3@, c1@, t as nat),
        r@.len() == t * gl_width(bank@, "enc/df_fc_emb.0.weight"@),
{
    let cf = frames_first(c1, 16, t, 32);
    proof {
        lemma_gl_sized(bank@, t as int, "enc/df_fc_emb.0.weight"@, 512, cf@.len());
    }
    let mut emb = bank.gl(cf.as_slice(), t, "enc/df_fc_emb.0.weight");
    relu_(emb.as_mut_slice());
    let ef = frames_first(e3, 16, t, 8);
    add_to(emb.as_mut_slice(), ef.as_slice());
    emb
}

/// The encoder's weights under the names that its recurrent unit puts together.
pub proof fn lemma_encoder_gru_names()
    ensures
        qualified_of("enc"@, "onnx::GRU_360"@) == "enc/onnx::GRU_360"@,
        qualified_of("enc"@, "onnx::GRU_361"@) == "enc/onnx::GRU_361"@,
        qualified_of("enc"@, "onnx::GRU_362"@) == "enc/onnx::GRU_362"@,
{
    reveal_strlit("enc");
    reveal_strlit("/");
    reveal_strlit("onnx::GRU_360");
    reveal_strlit("onnx::GRU_361");
    reveal_strlit("onnx::GRU_362");
    reveal_strlit("enc/onnx::GRU_360");
    reveal_strlit("enc/onnx::GRU_361");
    reveal_strlit("enc/onnx::GRU_362");
    assert(qualified_of("enc"@, "onnx::GRU_360"@) =~= "enc/onnx::GRU_360"@);
    assert(qualified_of("enc"@, "onnx::GRU_361"@) =~= "enc/onnx::GRU_361"@);
    assert(qualified_of("enc"@, "onnx::GRU_362"@) =~= "enc/onnx::GRU_362"@);
}

fn embed(bank: &WeightBank, joined: &[F32], t: usize) -> (r: Vec<F32>)
    requires
        encoder_has(bank@),
        encoder_sized(bank@, t as int),
        frames_fit(t as int),
        joined@.len() == t * gl_width(bank@, "enc/df_fc_emb.0.weight"@),
    ensures
        r@ == emb_of(bank@, joined@, t as nat),
        r@.len() == t * gl_width(bank@, "enc/emb_gru.linear_out.0.weight"@),
{
    proof {
        lemma_gl_sized(
            bank@,
            t as int,
            "enc/emb_gru.linear_in.0.weight"@,
            gl_width(bank@, "enc/df_fc_emb.0.weight"@),
            joined@.len(),
        );
        lemma_encoder_gru_names();
    }
    let mut x = bank.gl(joined, t, "enc/emb_gru.linear_in.0.weight");
    relu_(x.as_mut_slice());
    let y = bank.gru(
        x.as_slice(),
        t,
        HIDDEN,
        "enc",
        ("onnx::GRU_360", "onnx::GRU_361", "onnx::GRU_362"),
    );
    proof {
        lemma_gl_sized(bank@, t as int, "enc/emb_gru.linear_out.0.weight"@, 256, y@.len());
    }
    let mut emb = bank.gl(y.as_slice(), t, "enc/emb_gru.linear_out.0.weight");
    relu_(emb.as_mut_slice());
    emb
}

fn predict_lsnr(bank: &WeightBank, emb: &[F32], t: usize) -> (r: Vec<F32>)
    requires
        encoder_has(bank@),
        encoder_sized(bank@, t as int),
        t * 128 <= emb@.len(),
    ensures
        r@ == Seq::new(t as nat, |ti: int| lsnr_at(bank@, emb@, ti)),
{
    let wl = bank.t("enc/onnx::MatMul_365");
    let bl = bank.t("enc/lsnr_fc.0.bias")[0];
    let mut r: Vec<F32> = Vec::new();
    for ti in 0..t
        invariant
            t * 128 <= emb@.len(),
            wl@ == bank@.w.tensor("enc/onnx::MatMul_365"@),
            wl@.len() == 128,
            bl == bank@.w.tensor("enc/lsnr_fc.0.bias"@)[0],
            r@ == Seq::new(ti as nat, |i: int| lsnr_at(bank@, emb@, i)),
    {
        let v = sigmoid(dot(row_at(emb, ti, 128), wl).add(bl));
        r.push(v.mul(F32::from_bits(LSNR_SPAN)).sub(F32::from_bits(LSNR_FLOOR)));
        assert(r@ =~= Seq::new((ti + 1) as nat, |i: int| lsnr_at(bank@, emb@, i)));
    }
    r
}

/// Runs the encoder's layers over a bank that holds its tensors.
pub(crate) fn encode_with(bank: &WeightBank, feat_erb: &[F32], feat_spec: &[F32], t: usize) -> (r:
    EncOut)
    requires
        encoder_has(bank@),
        encoder_sized(bank@, t as int),
        frames_fit(t as int),
        t * 32 <= feat_erb@.len(),
        2 * t * 64 <= feat_spec@.len(),
    ensures
        r@ == encode_of(bank@, feat_erb@, feat_spec@, t as nat),
        enc_out_sized(r@, t as int, gl_width(bank@, "enc/emb_gru.linear_out.0.weight"@)),
{
    let (e0, e1, e2, e3) = band_path(bank, feat_erb, t);
    let (c0, c1) = spectrum_path(bank, feat_spec, t);
    let joined = join(bank, e3.as_slice(), c1.as_slice(), t);
    let emb = embed(bank, joined.as_slice(), t);
    proof {
        lemma_mul_inequality(128, gl_width(bank@, "enc/emb_gru.linear_out.0.weight"@), t as int);
        lemma_mul_is_commutative(
            gl_width(bank@, "enc/emb_gru.linear_out.0.weight"@),
            t as int,
        );
    }
    let lsnr = predict_lsnr(bank, emb.as_slice(), t);
    EncOut { e0, e1, e2, e3, emb, c0, lsnr }
}

/// Whether the encoder's tensors hold what a run over `t` frames reads.
pub(crate) fn encoder_is_sized(bank: &WeightBank, t: usize) -> (r: bool)
    requires
        encoder_has(bank@),
    ensures
        r == encoder_sized(bank@, t as int),
{
    let convolutions = holds_at_least(bank, "enc/onnx::Conv_310", 144) && holds_at_least(
        bank,
        "enc/onnx::Conv_311",
        16,
    ) && holds_at_least(bank, "enc/erb_conv1.0.weight", 48) && mix_is_sized(
        bank,
        "enc/onnx::Conv_313",
        "enc/onnx::Conv_314",
        16,
    ) && holds_at_least(bank, "enc/erb_conv2.0.weight", 48) && mix_is_sized(
        bank,
        "enc/onnx::Conv_316",
        "enc/onnx::Conv_317",
        16,
    ) && holds_at_least(bank, "enc/erb_conv3.0.weight", 48) && mix_is_sized(
        bank,
        "enc/onnx::Conv_319",
        "enc/onnx::Conv_320",
        16,
    ) && holds_at_least(bank, "enc/df_conv0.1.weight", 144) && mix_is_sized(
        bank,
        "enc/onnx::Conv_322",
        "enc/onnx::Conv_323",
        16,
    ) && holds_at_least(bank, "enc/df_conv1.0.weight", 48) && mix_is_sized(
        bank,
        "enc/onnx::Conv_325",
        "enc/onnx::Conv_326",
        16,
    );
    if !convolutions {
        return false;
    }
    if !gl_is_sized(bank, t, "enc/df_fc_emb.0.weight", 512) {
        return false;
    }
    let width = output_width(bank, "enc/df_fc_emb.0.weight");
    if width < 128 || !gl_is_sized(bank, t, "enc/emb_gru.linear_in.0.weight", width)
        || !gl_is_sized(bank, t, "enc/emb_gru.linear_out.0.weight", 256) {
        return false;
    }
    output_width(bank, "enc/emb_gru.linear_in.0.weight") == 256 && holds_at_least(
        bank,
        "enc/onnx::GRU_360",
        196608,
    ) && bank.panels("enc/onnx::GRU_361").len() >= 196608 && holds_at_least(
        bank,
        "enc/onnx::GRU_362",
        1536,
    ) && output_width(bank, "enc/emb_gru.linear_out.0.weight") >= 128 && bank.t(
        "enc/onnx::MatMul_365",
    ).len() == 128 && holds_at_least(bank, "enc/lsnr_fc.0.bias", 1)
}

/// The sizes of the encoder's outputs over `t` frames, with an embedding of width `width`.
pub open spec fn enc_out_sized(e: EncOutView, t: int, width: int) -> bool {
    &&& e.e0.len() == 16 * t * 32
    &&& e.e1.len() == 16 * t * 16
    &&& e.e2.len() == 16 * t * 8
    &&& e.e3.len() == 16 * t * 8
    &&& e.emb.len() == t * width
    &&& e.c0.len() == 16 * t * 64
    &&& e.lsnr.len() == t
}

/// The encoder stage. Construct once with [`Encoder::new`], then call
/// [`encode`](Encoder::encode).
pub struct Encoder {
    bank: WeightBank,
}

impl View for Encoder {
    type V = BankView;

    closed spec fn view(&self) -> BankView {
        self.bank@
    }
}

impl Encoder {
    #[verifier::type_invariant]
    spec fn inv(self) -> bool {
        encoder_has(self.bank@)
    }

    /// Builds the encoder from shared weights, validating and packing what it needs.
    pub fn new(weights: Arc<Weights>) -> (r: Result<Encoder, Error>)
        ensures
            match r {
                Ok(e) => bank_of(weights@, encoder_required(), encoder_gru_r()) == Ok::<
                    BankView,
                    ErrorView,
                >(e@),
                Err(e) => bank_of(weights@, encoder_required(), encoder_gru_r()) == Err::<
                    BankView,
                    ErrorView,
                >(e@),
            },
    {
        let required = required_tensors();
        let mats = recurrent_matrices();
        match WeightBank::new(weights, required.as_slice(), mats.as_slice()) {
            Ok(bank) => {
                proof {
                    assert(encoder_required().is_prefix_of(encoder_required()));
                    assert(encoder_gru_r().is_prefix_of(encoder_gru_r()));
                    lemma_encoder_has(bank@.w, encoder_required(), encoder_gru_r());
                }
                Ok(Encoder { bank })
            },
            Err(e) => Err(e),
        }
    }

    /// Whether the encoder's tensors hold what a run over `t` frames reads.
    pub fn is_sized(&self, t: usize) -> (r: bool)
        ensures
            r == encoder_sized(self@, t as int),
    {
        proof {
            use_type_invariant(self);
        }
        encoder_is_sized(&self.bank, t)
    }

    /// Runs the encoder over `t` frames of features.
    ///
    /// `feat_erb` is `[1, T, 32]`, `feat_spec` is `[2, T, 64]` (real then imaginary).
    pub fn encode(&self, feat_erb: &[F32], feat_spec: &[F32], t: usize) -> (r: EncOut)
        requires
            encoder_sized(self@, t as int),
            frames_fit(t as int),
            t * 32 <= feat_erb@.len(),
            2 * t * 64 <= feat_spec@.len(),
        ensures
            r@ == encode_of(self@, feat_erb@, feat_spec@, t as nat),
            enc_out_sized(r@, t as int, gl_width(self@, "enc/emb_gru.linear_out.0.weight"@)),
    {
        proof {
            use_type_invariant(self);
        }
        encode_with(&self.bank, feat_erb, feat_spec, t)
    }

    /// How wide the rows of the embedding are.
    pub fn emb_width(&self) -> (r: u128)
        requires
            self@.w.tensors["enc/emb_gru.linear_out.0.weight"@].shape.len() >= 3,
        ensures
            r == gl_width(self@, "enc/emb_gru.linear_out.0.weight"@),
    {
        proof {
            use_type_invariant(self);
        }
        output_width(&self.bank, "enc/emb_gru.linear_out.0.weight")
    }

    /// The weight bank underneath.
    pub fn bank(&self) -> (r: &WeightBank)
        ensures
            r@ == self@,
    {
        &self.bank
    }
}

} // verus!
