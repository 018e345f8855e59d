//! The decoders, the second stage of the model.
//!
//! Given the encoder's [`EncOut`], the band decoder produces a 32-band spectral mask and the
//! deep-filter decoder produces order-5 complex filter coefficients.
use std::sync::Arc;
use vstd::arithmetic::mul::*;
use vstd::prelude::*;

use crate::bank::{
    bank_gru_of, bank_of, gl_fits, gl_of, law_recurrent_matrices_are_packed,
    law_required_tensors_are_there, names_of, qualified_of, BankView, HIDDEN, WeightBank,
};
use crate::encoder::{frames_fit, EncOut, EncOutView};
use crate::error::{Error, ErrorView};
use crate::float::F32;
use crate::layers::{
    add_to, added, block, block_of, channels_first, channels_first_of, frames_first,
    frames_first_of, gl_is_fit, gl_is_sized, gl_sized, gl_width, has, holds, holds_at_least,
    lemma_gl_sized, mix_fits, mix_is_sized, mixed, mixed_of, output_width,
};
use crate::nn::{
    conv1x3, conv1x3_of, convtranspose_dw, convtranspose_dw_of, relu_, relu_seq, strided,
};
use crate::simd::{sigmoid_seq, sigmoid_slice, tanh_seq, tanh_slice};
use crate::weights::{ArenaView, Weights};

verus! {

/// Tensors the decoders read.
pub open spec fn decoders_required() -> Seq<Seq<char>> {
    seq![
        "erb_dec/emb_gru.linear_in.0.weight"@,
        "erb_dec/emb_gru.linear_out.0.weight"@,
        "erb_dec/onnx::GRU_291"@,
        "erb_dec/onnx::GRU_292"@,
        "erb_dec/onnx::GRU_293"@,
        "erb_dec/onnx::Conv_247"@,
        "erb_dec/onnx::Conv_248"@,
        "erb_dec/convt3.0.weight"@,
        "erb_dec/onnx::Conv_250"@,
        "erb_dec/onnx::Conv_251"@,
        "erb_dec/onnx::Conv_253"@,
        "erb_dec/onnx::Conv_254"@,
        "erb_dec/convt2.0.weight"@,
        "erb_dec/onnx::Conv_256"@,
        "erb_dec/onnx::Conv_257"@,
        "erb_dec/onnx::Conv_259"@,
        "erb_dec/onnx::Conv_260"@,
        "erb_dec/convt1.0.weight"@,
        "erb_dec/onnx::Conv_262"@,
        "erb_dec/onnx::Conv_263"@,
        "erb_dec/onnx::Conv_265"@,
        "erb_dec/onnx::Conv_266"@,
        "erb_dec/onnx::Conv_268"@,
        "erb_dec/onnx::Conv_269"@,
        "df_dec/df_gru.linear_in.0.weight"@,
        "df_dec/df_out.0.weight"@,
        "df_dec/onnx::GRU_337"@,
        "df_dec/onnx::GRU_338"@,
        "df_dec/onnx::GRU_339"@,
        "df_dec/onnx::GRU_357"@,
        "df_dec/onnx::GRU_358"@,
        "df_dec/onnx::GRU_359"@,
        "df_dec/onnx::GRU_377"@,
        "df_dec/onnx::GRU_378"@,
        "df_dec/onnx::GRU_379"@,
        "df_dec/onnx::Conv_314"@,
        "df_dec/onnx::Conv_315"@,
    ]
}

/// The recurrent matrices of the decoders.
pub open spec fn decoders_gru_r() -> Seq<Seq<char>> {
    seq![
        "erb_dec/onnx::GRU_292"@,
        "df_dec/onnx::GRU_338"@,
        "df_dec/onnx::GRU_358"@,
        "df_dec/onnx::GRU_378"@,
    ]
}

/// Tensors the decoders read. Validated once at construction.
pub(crate) fn required_tensors() -> (r: Vec<&'static str>)
    ensures
        names_of(r@) == decoders_required(),
{
    let r = vec![
        "erb_dec/emb_gru.linear_in.0.weight",
        "erb_dec/emb_gru.linear_out.0.weight",
        "erb_dec/onnx::GRU_291",
        "erb_dec/onnx::GRU_292",
        "erb_dec/onnx::GRU_293",
        "erb_dec/onnx::Conv_247",
        "erb_dec/onnx::Conv_248",
        "erb_dec/convt3.0.weight",
        "erb_dec/onnx::Conv_250",
        "erb_dec/onnx::Conv_251",
        "erb_dec/onnx::Conv_253",
        "erb_dec/onnx::Conv_254",
        "erb_dec/convt2.0.weight",
        "erb_dec/onnx::Conv_256",
        "erb_dec/onnx::Conv_257",
        "erb_dec/onnx::Conv_259",
        "erb_dec/onnx::Conv_260",
        "erb_dec/convt1.0.weight",
        "erb_dec/onnx::Conv_262",
        "erb_dec/onnx::Conv_263",
        "erb_dec/onnx::Conv_265",
        "erb_dec/onnx::Conv_266",
        "erb_dec/onnx::Conv_268",
        "erb_dec/onnx::Conv_269",
        "df_dec/df_gru.linear_in.0.weight",
        "df_dec/df_out.0.weight",
        "df_dec/onnx::GRU_337",
        "df_dec/onnx::GRU_338",
        "df_dec/onnx::GRU_339",
        "df_dec/onnx::GRU_357",
        "df_dec/onnx::GRU_358",
        "df_dec/onnx::GRU_359",
        "df_dec/onnx::GRU_377",
        "df_dec/onnx::GRU_378",
        "df_dec/onnx::GRU_379",
        "df_dec/onnx::Conv_314",
        "df_dec/onnx::Conv_315",
    ];
    assert(names_of(r@) =~= decoders_required());
    r
}

/// The recurrent matrices of the decoders.
pub(crate) fn recurrent_matrices() -> (r: Vec<&'static str>)
    ensures
        names_of(r@) == decoders_gru_r(),
{
    let r = vec![
        "erb_dec/onnx::GRU_292",
        "df_dec/onnx::GRU_338",
        "df_dec/onnx::GRU_358",
        "df_dec/onnx::GRU_378",
    ];
    assert(names_of(r@) =~= decoders_gru_r());
    r
}

/// Whether every tensor that the decoders read is there, and their recurrent matrices in panels.
pub open spec fn decoders_have(b: BankView) -> bool {
    &&& has(b, "erb_dec/emb_gru.linear_in.0.weight"@)
    &&& has(b, "erb_dec/emb_gru.linear_out.0.weight"@)
    &&& has(b, "erb_dec/onnx::GRU_291"@)
    &&& has(b, "erb_dec/onnx::GRU_292"@)
    &&& has(b, "erb_dec/onnx::GRU_293"@)
    &&& has(b, "erb_dec/onnx::Conv_247"@)
    &&& has(b, "erb_dec/onnx::Conv_248"@)
    &&& has(b, "erb_dec/convt3.0.weight"@)
    &&& has(b, "erb_dec/onnx::Conv_250"@)
    &&& has(b, "erb_dec/onnx::Conv_251"@)
    &&& has(b, "erb_dec/onnx::Conv_253"@)
    &&& has(b, "erb_dec/onnx::Conv_254"@)
    &&& has(b, "erb_dec/convt2.0.weight"@)
    &&& has(b, "erb_dec/onnx::Conv_256"@)
    &&& has(b, "erb_dec/onnx::Conv_257"@)
    &&& has(b, "erb_dec/onnx::Conv_259"@)
    &&& has(b, "erb_dec/onnx::Conv_260"@)
    &&& has(b, "erb_dec/convt1.0.weight"@)
    &&& has(b, "erb_dec/onnx::Conv_262"@)
    &&& has(b, "erb_dec/onnx::Conv_263"@)
    &&& has(b, "erb_dec/onnx::Conv_265"@)
    &&& has(b, "erb_dec/onnx::Conv_266"@)
    &&& has(b, "erb_dec/onnx::Conv_268"@)
    &&& has(b, "erb_dec/onnx::Conv_269"@)
    &&& has(b, "df_dec/df_gru.linear_in.0.weight"@)
    &&& has(b, "df_dec/df_out.0.weight"@)
    &&& has(b, "df_dec/onnx::GRU_337"@)
    &&& has(b, "df_dec/onnx::GRU_338"@)
    &&& has(b, "df_dec/onnx::GRU_339"@)
    &&& has(b, "df_dec/onnx::GRU_357"@)
    &&& has(b, "df_dec/onnx::GRU_358"@)
    &&& has(b, "df_dec/onnx::GRU_359"@)
    &&& has(b, "df_dec/onnx::GRU_377"@)
    &&& has(b, "df_dec/onnx::GRU_378"@)
    &&& has(b, "df_dec/onnx::GRU_379"@)
    &&& has(b, "df_dec/onnx::Conv_314"@)
    &&& has(b, "df_dec/onnx::Conv_315"@)
    &&& b.packed.contains_key("erb_dec/onnx::GRU_292"@)
    &&& b.packed.contains_key("df_dec/onnx::GRU_338"@)
    &&& b.packed.contains_key("df_dec/onnx::GRU_358"@)
    &&& b.packed.contains_key("df_dec/onnx::GRU_378"@)
}

/// A bank over names that end in the decoders' has all of theirs.
pub proof fn lemma_decoders_have(a: ArenaView, names: Seq<Seq<char>>, mats: Seq<Seq<char>>)
    requires
        decoders_required().is_suffix_of(names),
        decoders_gru_r().is_suffix_of(mats),
    ensures
        bank_of(a, names, mats) matches Ok(b) ==> decoders_have(b),
{
    if bank_of(a, names, mats) is Ok {
        let b = bank_of(a, names, mats)->Ok_0;
        let part = decoders_required();
        let at = names.len() - part.len();
        assert forall|i: int| 0 <= i < part.len() implies has(b, #[trigger] part[i]) by {
            law_required_tensors_are_there(a, names, mats, at + i);
            assert(names.subrange(at, names.len() as int)[i] == names[at + i]);
        }
        let pm = decoders_gru_r();
        let from = mats.len() - pm.len();
        assert forall|i: int| 0 <= i < pm.len() implies b.packed.contains_key(
            #[trigger] pm[i],
        ) by {
            law_recurrent_matrices_are_packed(a, names, mats, from + i);
            assert(mats.subrange(from, mats.len() as int)[i] == mats[from + i]);
        }
        assert(part[0] == "erb_dec/emb_gru.linear_in.0.weight"@);
        assert(part[1] == "erb_dec/emb_gru.linear_out.0.weight"@);
        assert(part[2] == "erb_dec/onnx::GRU_291"@);
        assert(part[3] == "erb_dec/onnx::GRU_292"@);
        assert(part[4] == "erb_dec/onnx::GRU_293"@);
        assert(part[5] == "erb_dec/onnx::Conv_247"@);
        assert(part[6] == "erb_dec/onnx::Conv_248"@);
        assert(part[7] == "erb_dec/convt3.0.weight"@);
        assert(part[8] == "erb_dec/onnx::Conv_250"@);
        assert(part[9] == "erb_dec/onnx::Conv_251"@);
        assert(part[10] == "erb_dec/onnx::Conv_253"@);
        assert(part[11] == "erb_dec/onnx::Conv_254"@);
        assert(part[12] == "erb_dec/convt2.0.weight"@);
        assert(part[13] == "erb_dec/onnx::Conv_256"@);
        assert(part[14] == "erb_dec/onnx::Conv_257"@);
        assert(part[15] == "erb_dec/onnx::Conv_259"@);
        assert(part[16] == "erb_dec/onnx::Conv_260"@);
        assert(part[17] == "erb_dec/convt1.0.weight"@);
        assert(part[18] == "erb_dec/onnx::Conv_262"@);
        assert(part[19] == "erb_dec/onnx::Conv_263"@);
        assert(part[20] == "erb_dec/onnx::Conv_265"@);
        assert(part[21] == "erb_dec/onnx::Conv_266"@);
        assert(part[22] == "erb_dec/onnx::Conv_268"@);
        assert(part[23] == "erb_dec/onnx::Conv_269"@);
        assert(part[24] == "df_dec/df_gru.linear_in.0.weight"@);
        assert(part[25] == "df_dec/df_out.0.weight"@);
        assert(part[26] == "df_dec/onnx::GRU_337"@);
        assert(part[27] == "df_dec/onnx::GRU_338"@);
        assert(part[28] == "df_dec/onnx::GRU_339"@);
        assert(part[29] == "df_dec/onnx::GRU_357"@);
        assert(part[30] == "df_dec/onnx::GRU_358"@);
        assert(part[31] == "df_dec/onnx::GRU_359"@);
        assert(part[32] == "df_dec/onnx::GRU_377"@);
        assert(part[33] == "df_dec/onnx::GRU_378"@);
        assert(part[34] == "df_dec/onnx::GRU_379"@);
        assert(part[35] == "df_dec/onnx::Conv_314"@);
        assert(part[36] == "df_dec/onnx::Conv_315"@);
        assert(pm[0] == "erb_dec/onnx::GRU_292"@);
        assert(pm[1] == "df_dec/onnx::GRU_338"@);
        assert(pm[2] == "df_dec/onnx::GRU_358"@);
        assert(pm[3] == "df_dec/onnx::GRU_378"@);
    }
}

/// Whether the band decoder's tensors hold what a run over `t` frames reads, given an embedding
/// of `emb` numbers.
pub open spec fn erb_dec_sized(b: BankView, t: int, emb: nat) -> bool {
    &&& gl_fits(b.w, emb, t, "erb_dec/emb_gru.linear_in.0.weight"@)
    &&& gl_width(b, "erb_dec/emb_gru.linear_in.0.weight"@) == 256
    &&& holds(b, "erb_dec/onnx::GRU_291"@, 196608)
    &&& 196608 <= b.packed["erb_dec/onnx::GRU_292"@].len()
    &&& holds(b, "erb_dec/onnx::GRU_293"@, 1536)
    &&& gl_sized(b, t, "erb_dec/emb_gru.linear_out.0.weight"@, 256)
    &&& gl_width(b, "erb_dec/emb_gru.linear_out.0.weight"@) >= 128
    &&& mix_fits(b, "erb_dec/onnx::Conv_247"@, "erb_dec/onnx::Conv_248"@, 16)
    &&& holds(b, "erb_dec/convt3.0.weight"@, 48)
    &&& mix_fits(b, "erb_dec/onnx::Conv_250"@, "erb_dec/onnx::Conv_251"@, 16)
    &&& mix_fits(b, "erb_dec/onnx::Conv_253"@, "erb_dec/onnx::Conv_254"@, 16)
    &&& holds(b, "erb_dec/convt2.0.weight"@, 48)
    &&& mix_fits(b, "erb_dec/onnx::Conv_256"@, "erb_dec/onnx::Conv_257"@, 16)
    &&& mix_fits(b, "erb_dec/onnx::Conv_259"@, "erb_dec/onnx::Conv_260"@, 16)
    &&& holds(b, "erb_dec/convt1.0.weight"@, 48)
    &&& mix_fits(b, "erb_dec/onnx::Conv_262"@, "erb_dec/onnx::Conv_263"@, 16)
    &&& mix_fits(b, "erb_dec/onnx::Conv_265"@, "erb_dec/onnx::Conv_266"@, 16)
    &&& holds(b, "erb_dec/onnx::Conv_268"@, 48)
    &&& holds(b, "erb_dec/onnx::Conv_269"@, 1)
}

/// Whether the deep-filter decoder's tensors hold what a run over `t` frames reads, given an
/// embedding of `emb` numbers.
pub open spec fn df_dec_sized(b: BankView, t: int, emb: nat) -> bool {
    &&& gl_fits(b.w, emb, t, "df_dec/df_gru.linear_in.0.weight"@)
    &&& gl_width(b, "df_dec/df_gru.linear_in.0.weight"@) == 256
    &&& holds(b, "df_dec/onnx::GRU_337"@, 196608)
    &&& 196608 <= b.packed["df_dec/onnx::GRU_338"@].len()
    &&& holds(b, "df_dec/onnx::GRU_339"@, 1536)
    &&& holds(b, "df_dec/onnx::GRU_357"@, 196608)
    &&& 196608 <= b.packed["df_dec/onnx::GRU_358"@].len()
    &&& holds(b, "df_dec/onnx::GRU_359"@, 1536)
    &&& holds(b, "df_dec/onnx::GRU_377"@, 196608)
    &&& 196608 <= b.packed["df_dec/onnx::GRU_378"@].len()
    &&& holds(b, "df_dec/onnx::GRU_379"@, 1536)
    &&& gl_sized(b, t, "df_dec/df_out.0.weight"@, 256)
    &&& gl_width(b, "df_dec/df_out.0.weight"@) >= 640
    &&& mix_fits(b, "df_dec/onnx::Conv_314"@, "df_dec/onnx::Conv_315"@, 10)
}

/// Whether the skip connections cover `t` frames.
pub open spec fn skips_cover(e: EncOutView, t: int) -> bool {
    &&& 16 * t * 32 <= e.e0.len()
    &&& 16 * t * 16 <= e.e1.len()
    &&& 16 * t * 8 <= e.e2.len()
    &&& 16 * t * 8 <= e.e3.len()
}

/// What the band decoder's recurrent part makes of the embedding: a map of 8 bands.
pub open spec fn erb_start_of(b: BankView, emb: Seq<F32>, t: nat) -> Seq<F32> {
    let x = relu_seq(gl_of(b.w, emb, t, "erb_dec/emb_gru.linear_in.0.weight"@));
    let y = bank_gru_of(
        b,
        x,
        t,
        256,
        "erb_dec"@,
        ("onnx::GRU_291"@, "onnx::GRU_292"@, "onnx::GRU_293"@),
    );
    let z = relu_seq(gl_of(b.w, y, t, "erb_dec/emb_gru.linear_out.0.weight"@));
    channels_first_of(z, 16, t, 8)
}

/// A map plus a skip connection of `f` bands through its 1x1 convolution.
pub open spec fn skipped_of(
    b: BankView,
    acc: Seq<F32>,
    e: Seq<F32>,
    t: nat,
    f: nat,
    pw: Seq<char>,
    pb: Seq<char>,
) -> Seq<F32> {
    added(acc, mixed_of(b, e, t * f, pw, pb, 16))
}

/// A transposed convolution from `f` to `2 * f` bands, a 1x1 convolution, and the rectifier.
pub open spec fn widened_of(
    b: BankView,
    x: Seq<F32>,
    t: nat,
    f: int,
    dw: Seq<char>,
    pw: Seq<char>,
    pb: Seq<char>,
) -> Seq<F32> {
    mixed_of(
        b,
        convtranspose_dw_of(x, 16, t, f, b.w.tensor(dw)),
        t * (2 * f) as nat,
        pw,
        pb,
        16,
    )
}

/// The band decoder up to 8 bands.
pub open spec fn erb_eight_of(b: BankView, y: Seq<F32>, e: EncOutView, t: nat) -> Seq<F32> {
    let y = skipped_of(b, y, e.e3, t, 8, "erb_dec/onnx::Conv_247"@, "erb_dec/onnx::Conv_248"@);
    let y = block_of(
        b,
        y,
        t,
        8,
        "erb_dec/convt3.0.weight"@,
        "erb_dec/onnx::Conv_250"@,
        "erb_dec/onnx::Conv_251"@,
        1,
    );
    skipped_of(b, y, e.e2, t, 8, "erb_dec/onnx::Conv_253"@, "erb_dec/onnx::Conv_254"@)
}

/// The band decoder from 8 to 16 bands.
pub open spec fn erb_sixteen_of(b: BankView, y: Seq<F32>, e: EncOutView, t: nat) -> Seq<F32> {
    let y = widened_of(
        b,
        y,
        t,
        8,
        "erb_dec/convt2.0.weight"@,
        "erb_dec/onnx::Conv_256"@,
        "erb_dec/onnx::Conv_257"@,
    );
    skipped_of(b, y, e.e1, t, 16, "erb_dec/onnx::Conv_259"@, "erb_dec/onnx::Conv_260"@)
}

/// The band decoder from 16 to 32 bands.
pub open spec fn erb_thirty_two_of(b: BankView, y: Seq<F32>, e: EncOutView, t: nat) -> Seq<F32> {
    let y = widened_of(
        b,
        y,
        t,
        16,
        "erb_dec/convt1.0.weight"@,
        "erb_dec/onnx::Conv_262"@,
        "erb_dec/onnx::Conv_263"@,
    );
    skipped_of(b, y, e.e0, t, 32, "erb_dec/onnx::Conv_265"@, "erb_dec/onnx::Conv_266"@)
}

/// The band mask, `[T, 32]`.
pub open spec fn erb_dec_of(b: BankView, e: EncOutView, t: nat) -> Seq<F32> {
    let y = erb_thirty_two_of(
        b,
        erb_sixteen_of(b, erb_eight_of(b, erb_start_of(b, e.emb, t), e, t), e, t),
        e,
        t,
    );
    sigmoid_seq(
        conv1x3_of(
            y,
            16,
            t,
            32,
            b.w.tensor("erb_dec/onnx::Conv_268"@),
            b.w.tensor("erb_dec/onnx::Conv_269"@),
            1,
        ),
    )
}

/// The three recurrent units of the deep-filter decoder, one after the other.
pub open spec fn df_recurrent_of(b: BankView, x: Seq<F32>, t: nat) -> Seq<F32> {
    let h = bank_gru_of(
        b,
        x,
        t,
        256,
        "df_dec"@,
        ("onnx::GRU_337"@, "onnx::GRU_338"@, "onnx::GRU_339"@),
    );
    let h = bank_gru_of(
        b,
        h,
        t,
        256,
        "df_dec"@,
        ("onnx::GRU_357"@, "onnx::GRU_358"@, "onnx::GRU_359"@),
    );
    bank_gru_of(
        b,
        h,
        t,
        256,
        "df_dec"@,
        ("onnx::GRU_377"@, "onnx::GRU_378"@, "onnx::GRU_379"@),
    )
}

/// The deep-filter coefficients, `[T, 64, 10]`.
pub open spec fn df_dec_of(b: BankView, e: EncOutView, t: nat) -> Seq<F32> {
    let x = relu_seq(gl_of(b.w, e.emb, t, "df_dec/df_gru.linear_in.0.weight"@));
    let h = df_recurrent_of(b, x, t);
    let coefs = tanh_seq(gl_of(b.w, h, t, "df_dec/df_out.0.weight"@));
    let cp = mixed_of(
        b,
        e.c0,
        t * 64,
        "df_dec/onnx::Conv_314"@,
        "df_dec/onnx::Conv_315"@,
        10,
    );
    added(coefs, frames_first_of(cp, 10, t, 64))
}

/// The band decoder's weights under the names that its recurrent unit puts together.
pub proof fn lemma_erb_dec_gru_names()
    ensures
        qualified_of("erb_dec"@, "onnx::GRU_291"@) == "erb_dec/onnx::GRU_291"@,
        qualified_of("erb_dec"@, "onnx::GRU_292"@) == "erb_dec/onnx::GRU_292"@,
        qualified_of("erb_dec"@, "onnx::GRU_293"@) == "erb_dec/onnx::GRU_293"@,
{
    reveal_strlit("erb_dec");
    reveal_strlit("/");
    reveal_strlit("onnx::GRU_291");
    reveal_strlit("erb_dec/onnx::GRU_291");
    reveal_strlit("onnx::GRU_292");
    reveal_strlit("erb_dec/onnx::GRU_292");
    reveal_strlit("onnx::GRU_293");
    reveal_strlit("erb_dec/onnx::GRU_293");
    assert(qualified_of("erb_dec"@, "onnx::GRU_291"@) =~= "erb_dec/onnx::GRU_291"@);
    assert(qualified_of("erb_dec"@, "onnx::GRU_292"@) =~= "erb_dec/onnx::GRU_292"@);
    assert(qualified_of("erb_dec"@, "onnx::GRU_293"@) =~= "erb_dec/onnx::GRU_293"@);
}

/// The deep-filter decoder's weights under the names that its recurrent units put together.
pub proof fn lemma_df_dec_gru_names()
    ensures
        qualified_of("df_dec"@, "onnx::GRU_337"@) == "df_dec/onnx::GRU_337"@,
        qualified_of("df_dec"@, "onnx::GRU_338"@) == "df_dec/onnx::GRU_338"@,
        qualified_of("df_dec"@, "onnx::GRU_339"@) == "df_dec/onnx::GRU_339"@,
        qualified_of("df_dec"@, "onnx::GRU_357"@) == "df_dec/onnx::GRU_357"@,
        qualified_of("df_dec"@, "onnx::GRU_358"@) == "df_dec/onnx::GRU_358"@,
        qualified_of("df_dec"@, "onnx::GRU_359"@) == "df_dec/onnx::GRU_359"@,
        qualified_of("df_dec"@, "onnx::GRU_377"@) == "df_dec/onnx::GRU_377"@,
        qualified_of("df_dec"@, "onnx::GRU_378"@) == "df_dec/onnx::GRU_378"@,
        qualified_of("df_dec"@, "onnx::GRU_379"@) == "df_dec/onnx::GRU_379"@,
{
    reveal_strlit("df_dec");
    reveal_strlit("/");
    reveal_strlit("onnx::GRU_337");
    reveal_strlit("df_dec/onnx::GRU_337");
    reveal_strlit("onnx::GRU_338");
    reveal_strlit("df_dec/onnx::GRU_338");
    reveal_strlit("onnx::GRU_339");
    reveal_strlit("df_dec/onnx::GRU_339");
    reveal_strlit("onnx::GRU_357");
    reveal_strlit("df_dec/onnx::GRU_357");
    reveal_strlit("onnx::GRU_358");
    reveal_strlit("df_dec/onnx::GRU_358");
    reveal_strlit("onnx::GRU_359");
    reveal_strlit("df_dec/onnx::GRU_359");
    reveal_strlit("onnx::GRU_377");
    reveal_strlit("df_dec/onnx::GRU_377");
    reveal_strlit("onnx::GRU_378");
    reveal_strlit("df_dec/onnx::GRU_378");
    reveal_strlit("onnx::GRU_379");
    reveal_strlit("df_dec/onnx::GRU_379");
    assert(qualified_of("df_dec"@, "onnx::GRU_337"@) =~= "df_dec/onnx::GRU_337"@);
    assert(qualified_of("df_dec"@, "onnx::GRU_338"@) =~= "df_dec/onnx::GRU_338"@);
    assert(qualified_of("df_dec"@, "onnx::GRU_339"@) =~= "df_dec/onnx::GRU_339"@);
    assert(qualified_of("df_dec"@, "onnx::GRU_357"@) =~= "df_dec/onnx::GRU_357"@);
    assert(qualified_of("df_dec"@, "onnx::GRU_358"@) =~= "df_dec/onnx::GRU_358"@);
    assert(qualified_of("df_dec"@, "onnx::GRU_359"@) =~= "df_dec/onnx::GRU_359"@);
    assert(qualified_of("df_dec"@, "onnx::GRU_377"@) =~= "df_dec/onnx::GRU_377"@);
    assert(qualified_of("df_dec"@, "onnx::GRU_378"@) =~= "df_dec/onnx::GRU_378"@);
    assert(qualified_of("df_dec"@, "onnx::GRU_379"@) =~= "df_dec/onnx::GRU_379"@);
}

fn erb_start(bank: &WeightBank, emb: &[F32], t: usize) -> (r: Vec<F32>)
    requires
        decoders_have(bank@),
        erb_dec_sized(bank@, t as int, emb@.len()),
        frames_fit(t as int),
    ensures
        r@ == erb_start_of(bank@, emb@, t as nat),
        r@.len() == 16 * t * 8,
{
    let mut x = bank.gl(emb, t, "erb_dec/emb_gru.linear_in.0.weight");
    relu_(x.as_mut_slice());
    proof {
        lemma_erb_dec_gru_names();
    }
    let y = bank.gru(
        x.as_slice(),
        t,
        HIDDEN,
        "erb_dec",
        ("onnx::GRU_291", "onnx::GRU_292", "onnx::GRU_293"),
    );
    proof {
        lemma_gl_sized(bank@, t as int, "erb_dec/emb_gru.linear_out.0.weight"@, 256, y@.len());
        lemma_mul_inequality(
            128,
            gl_width(bank@, "erb_dec/emb_gru.linear_out.0.weight"@),
            t as int,
        );
        lemma_mul_is_commutative(
            gl_width(bank@, "erb_dec/emb_gru.linear_out.0.weight"@),
            t as int,
        );
    }
    let mut z = bank.gl(y.as_slice(), t, "erb_dec/emb_gru.linear_out.0.weight");
    relu_(z.as_mut_slice());
    channels_first(z.as_slice(), 16, t, 8)
}

fn skip(bank: &WeightBank, acc: &mut Vec<F32>, e: &[F32], t: usize, f: usize, pw: &str, pb: &str)
    requires
        has(bank@, pw@),
        has(bank@, pb@),
        mix_fits(bank@, pw@, pb@, 16),
        16 * t * f <= e@.len(),
    ensures
        final(acc)@ == skipped_of(bank@, old(acc)@, e@, t as nat, f as nat, pw@, pb@),
        final(acc)@.len() == old(acc)@.len(),
{
    let total = e.len();
    proof {
        lemma_mul_is_associative(16, t as int, f as int);
    }
    let s = mixed(bank, e, t * f, pw, pb, 16);
    add_to(acc.as_mut_slice(), s.as_slice());
}

fn widen(bank: &WeightBank, x: &[F32], t: usize, f: usize, dw: &str, pw: &str, pb: &str) -> (r: Vec<
    F32,
>)
    requires
        has(bank@, dw@),
        has(bank@, pw@),
        has(bank@, pb@),
        holds(bank@, dw@, 48),
        mix_fits(bank@, pw@, pb@, 16),
        16 * t * f <= x@.len(),
        f <= 32,
        frames_fit(t as int),
    ensures
        r@ == widened_of(bank@, x@, t as nat, f as int, dw@, pw@, pb@),
        r@.len() == 16 * (t * (2 * f)),
{
    let (y, fo) = convtranspose_dw(x, 16, t, f, bank.t(dw));
    proof {
        lemma_mul_is_associative(16, t as int, fo as int);
        lemma_mul_inequality(fo as int, 64, t as int);
        lemma_mul_is_commutative(fo as int, t as int);
    }
    mixed(bank, y.as_slice(), t * fo, pw, pb, 16)
}

/// Runs the band decoder's layers over a bank that holds its tensors.
pub(crate) fn erb_dec_with(bank: &WeightBank, e: &EncOut, t: usize) -> (r: Vec<F32>)
    requires
        decoders_have(bank@),
        erb_dec_sized(bank@, t as int, e@.emb.len()),
        skips_cover(e@, t as int),
        frames_fit(t as int),
    ensures
        r@ == erb_dec_of(bank@, e@, t as nat),
        r@.len() == t * 32,
{
    let mut y = erb_start(bank, e.emb.as_slice(), t);
    assert(strided(8, 1) == 8);
    skip(
        bank,
        &mut y,
        e.e3.as_slice(),
        t,
        8,
        "erb_dec/onnx::Conv_247",
        "erb_dec/onnx::Conv_248",
    );
    let mut y = block(
        bank,
        y.as_slice(),
        t,
        8,
        "erb_dec/convt3.0.weight",
        "erb_dec/onnx::Conv_250",
        "erb_dec/onnx::Conv_251",
        1,
    );
    skip(
        bank,
        &mut y,
        e.e2.as_slice(),
        t,
        8,
        "erb_dec/onnx::Conv_253",
        "erb_dec/onnx::Conv_254",
    );
    let mut y = widen(
        bank,
        y.as_slice(),
        t,
        8,
        "erb_dec/convt2.0.weight",
        "erb_dec/onnx::Conv_256",
        "erb_dec/onnx::Conv_257",
    );
    skip(
        bank,
        &mut y,
        e.e1.as_slice(),
        t,
        16,
        "erb_dec/onnx::Conv_259",
        "erb_dec/onnx::Conv_260",
    );
    let mut y = widen(
        bank,
        y.as_slice(),
        t,
        16,
        "erb_dec/convt1.0.weight",
        "erb_dec/onnx::Conv_262",
        "erb_dec/onnx::Conv_263",
    );
    skip(
        bank,
        &mut y,
        e.e0.as_slice(),
        t,
        32,
        "erb_dec/onnx::Conv_265",
        "erb_dec/onnx::Conv_266",
    );
    let w = bank.t("erb_dec/onnx::Conv_268");
    let b = bank.t("erb_dec/onnx::Conv_269");
    let mut m = conv1x3(y.as_slice(), 16, t, 32, w, b, 1);
    sigmoid_slice(m.as_mut_slice());
    m
}

fn df_recurrent(bank: &WeightBank, x: &[F32], t: usize, Ghost(emb): Ghost<nat>) -> (r: Vec<F32>)
    requires
        decoders_have(bank@),
        df_dec_sized(bank@, t as int, emb),
        frames_fit(t as int),
        x@.len() == t * 256,
    ensures
        r@ == df_recurrent_of(bank@, x@, t as nat),
        r@.len() == t * 256,
{
    proof {
        lemma_df_dec_gru_names();
    }
    let h = bank.gru(
        x,
        t,
        HIDDEN,
        "df_dec",
        ("onnx::GRU_337", "onnx::GRU_338", "onnx::GRU_339"),
    );
    let h = bank.gru(
        h.as_slice(),
        t,
        HIDDEN,
        "df_dec",
        ("onnx::GRU_357", "onnx::GRU_358", "onnx::GRU_359"),
    );
    bank.gru(
        h.as_slice(),
        t,
        HIDDEN,
        "df_dec",
        ("onnx::GRU_377", "onnx::GRU_378", "onnx::GRU_379"),
    )
}

/// Runs the deep-filter decoder's layers over a bank that holds its tensors.
pub(crate) fn df_dec_with(bank: &WeightBank, e: &EncOut, t: usize) -> (r: Vec<F32>)
    requires
        decoders_have(bank@),
        df_dec_sized(bank@, t as int, e@.emb.len()),
        16 * t * 64 <= e@.c0.len(),
        frames_fit(t as int),
    ensures
        r@ == df_dec_of(bank@, e@, t as nat),
        r@.len() == t * gl_width(bank@, "df_dec/df_out.0.weight"@),
{
    let mut x = bank.gl(e.emb.as_slice(), t, "df_dec/df_gru.linear_in.0.weight");
    relu_(x.as_mut_slice());
    let h = df_recurrent(bank, x.as_slice(), t, Ghost(e@.emb.len()));
    proof {
        lemma_gl_sized(bank@, t as int, "df_dec/df_out.0.weight"@, 256, h@.len());
    }
    let mut coefs = bank.gl(h.as_slice(), t, "df_dec/df_out.0.weight");
    tanh_slice(coefs.as_mut_slice());
    let cp = mixed(
        bank,
        e.c0.as_slice(),
        t * 64,
        "df_dec/onnx::Conv_314",
        "df_dec/onnx::Conv_315",
        10,
    );
    let cf = frames_first(cp.as_slice(), 10, t, 64);
    add_to(coefs.as_mut_slice(), cf.as_slice());
    coefs
}

/// Whether the band decoder's tensors hold what a run over `t` frames reads, given an embedding
/// of `emb` numbers.
pub(crate) fn erb_dec_is_sized(bank: &WeightBank, t: usize, emb: usize) -> (r: bool)
    requires
        decoders_have(bank@),
    ensures
        r == erb_dec_sized(bank@, t as int, emb as nat),
{
    let convolutions = mix_is_sized(
        bank,
        "erb_dec/onnx::Conv_247",
        "erb_dec/onnx::Conv_248",
        16,
    ) && holds_at_least(bank, "erb_dec/convt3.0.weight", 48) && mix_is_sized(
        bank,
        "erb_dec/onnx::Conv_250",
        "erb_dec/onnx::Conv_251",
        16,
    ) && mix_is_sized(
        bank,
        "erb_dec/onnx::Conv_253",
        "erb_dec/onnx::Conv_254",
        16,
    ) && holds_at_least(bank, "erb_dec/convt2.0.weight", 48) && mix_is_sized(
        bank,
        "erb_dec/onnx::Conv_256",
        "erb_dec/onnx::Conv_257",
        16,
    ) && mix_is_sized(
        bank,
        "erb_dec/onnx::Conv_259",
        "erb_dec/onnx::Conv_260",
        16,
    ) && holds_at_least(bank, "erb_dec/convt1.0.weight", 48) && mix_is_sized(
        bank,
        "erb_dec/onnx::Conv_262",
        "erb_dec/onnx::Conv_263",
        16,
    ) && mix_is_sized(
        bank,
        "erb_dec/onnx::Conv_265",
        "erb_dec/onnx::Conv_266",
        16,
    ) && holds_at_least(bank, "erb_dec/onnx::Conv_268", 48) && holds_at_least(
        bank,
        "erb_dec/onnx::Conv_269",
        1,
    );
    if !convolutions {
        return false;
    }
    if !gl_is_fit(bank, emb, t, "erb_dec/emb_gru.linear_in.0.weight") || !gl_is_sized(
        bank,
        t,
        "erb_dec/emb_gru.linear_out.0.weight",
        256,
    ) {
        return false;
    }
    output_width(bank, "erb_dec/emb_gru.linear_in.0.weight") == 256 && output_width(
        bank,
        "erb_dec/emb_gru.linear_out.0.weight",
    ) >= 128 && holds_at_least(bank, "erb_dec/onnx::GRU_291", 196608) && bank.panels(
        "erb_dec/onnx::GRU_292",
    ).len() >= 196608 && holds_at_least(bank, "erb_dec/onnx::GRU_293", 1536)
}

/// Whether the deep-filter decoder's tensors hold what a run over `t` frames reads, given an
/// embedding of `emb` numbers.
pub(crate) fn df_dec_is_sized(bank: &WeightBank, t: usize, emb: usize) -> (r: bool)
    requires
        decoders_have(bank@),
    ensures
        r == df_dec_sized(bank@, t as int, emb as nat),
{
    let recurrent = holds_at_least(bank, "df_dec/onnx::GRU_337", 196608) && bank.panels(
        "df_dec/onnx::GRU_338",
    ).len() >= 196608 && holds_at_least(bank, "df_dec/onnx::GRU_339", 1536) && holds_at_least(
        bank,
        "df_dec/onnx::GRU_357",
        196608,
    ) && bank.panels("df_dec/onnx::GRU_358").len() >= 196608 && holds_at_least(
        bank,
        "df_dec/onnx::GRU_359",
        1536,
    ) && holds_at_least(bank, "df_dec/onnx::GRU_377", 196608) && bank.panels(
        "df_dec/onnx::GRU_378",
    ).len() >= 196608 && holds_at_least(bank, "df_dec/onnx::GRU_379", 1536);
    if !recurrent {
        return false;
    }
    if !gl_is_fit(bank, emb, t, "df_dec/df_gru.linear_in.0.weight") || !gl_is_sized(
        bank,
        t,
        "df_dec/df_out.0.weight",
        256,
    ) {
        return false;
    }
    output_width(bank, "df_dec/df_gru.linear_in.0.weight") == 256 && output_width(
        bank,
        "df_dec/df_out.0.weight",
    ) >= 640 && mix_is_sized(bank, "df_dec/onnx::Conv_314", "df_dec/onnx::Conv_315", 10)
}

/// The band and deep-filter decoders. Construct once with [`Decoders::new`].
pub struct Decoders {
    bank: WeightBank,
}

impl View for Decoders {
    type V = BankView;

    closed spec fn view(&self) -> BankView {
        self.bank@
    }
}

impl Decoders {
    #[verifier::type_invariant]
    spec fn inv(self) -> bool {
        decoders_have(self.bank@)
    }

    /// Builds the decoders from shared weights, validating and packing what they need.
    pub fn new(weights: Arc<Weights>) -> (r: Result<Decoders, Error>)
        ensures
            match r {
                Ok(d) => bank_of(weights@, decoders_required(), decoders_gru_r()) == Ok::<
                    BankView,
                    ErrorView,
                >(d@),
                Err(e) => bank_of(weights@, decoders_required(), decoders_gru_r()) == Err::<
                    BankView,
                    ErrorView,
                >(e@),
            },
    {
        let required = required_tensors();
        let mats = recurrent_matrices();
        match WeightBank::new(weights, required.as_slice(), mats.as_slice()) {
            Ok(bank) => {
                proof {
                    assert(decoders_required().is_suffix_of(decoders_required()));
                    assert(decoders_gru_r().is_suffix_of(decoders_gru_r()));
                    lemma_decoders_have(bank@.w, decoders_required(), decoders_gru_r());
                }
                Ok(Decoders { bank })
            },
            Err(e) => Err(e),
        }
    }

    /// Whether both decoders' tensors hold what a run over `t` frames reads, given an embedding of
    /// `emb` numbers.
    pub fn are_sized(&self, t: usize, emb: usize) -> (r: bool)
        ensures
            r == (erb_dec_sized(self@, t as int, emb as nat) && df_dec_sized(
                self@,
                t as int,
                emb as nat,
            )),
    {
        proof {
            use_type_invariant(self);
        }
        erb_dec_is_sized(&self.bank, t, emb) && df_dec_is_sized(&self.bank, t, emb)
    }

    /// Band decoder: `emb` and skip connections give a `[T, 32]` sigmoid spectral mask.
    pub fn erb_dec(&self, e: &EncOut, t: usize) -> (r: Vec<F32>)
        requires
            erb_dec_sized(self@, t as int, e@.emb.len()),
            skips_cover(e@, t as int),
            frames_fit(t as int),
        ensures
            r@ == erb_dec_of(self@, e@, t as nat),
            r@.len() == t * 32,
    {
        proof {
            use_type_invariant(self);
        }
        erb_dec_with(&self.bank, e, t)
    }

    /// Deep-filter decoder: `emb` and `c0` give `[T, 64, 10]` order-5 complex coefficients.
    pub fn df_dec(&self, e: &EncOut, t: usize) -> (r: Vec<F32>)
        requires
            df_dec_sized(self@, t as int, e@.emb.len()),
            16 * t * 64 <= e@.c0.len(),
            frames_fit(t as int),
        ensures
            r@ == df_dec_of(self@, e@, t as nat),
            r@.len() == t * gl_width(self@, "df_dec/df_out.0.weight"@),
    {
        proof {
            use_type_invariant(self);
        }
        df_dec_with(&self.bank, e, t)
    }
}

} // verus!
