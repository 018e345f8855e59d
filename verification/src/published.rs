//! The model in its published sizes: it loads, and runs over any number of frames.
use vstd::arithmetic::mul::*;
use vstd::prelude::*;

use crate::bank::{bank_of, gl_fits, law_recurrent_matrices_are_packed, BankView};
use crate::decoders::{decoders_gru_r, decoders_required, df_dec_sized, erb_dec_sized};
use crate::encoder::{encoder_gru_r, encoder_required, encoder_sized};
use crate::hush::{emb_width, hush_of, loaded_of, model_sized};
use crate::layers::{gl_sized, gl_width};
use crate::loading::law_a_bank_stands_on_its_tensors;
use crate::nn::{law_packing_keeps_every_row, pack_of};
use crate::weights::ArenaView;

verus! {

/// Whether the named tensor is there, with `n` numbers.
pub open spec fn numbers(a: ArenaView, name: Seq<char>, n: nat) -> bool {
    a.tensors.contains_key(name) && a.tensors[name].len == n
}

/// Whether the named tensor is a grouped linear layer from rows of width `i` to rows of width `o`.
pub open spec fn linear(a: ArenaView, name: Seq<char>, i: int, o: int) -> bool {
    let s = a.tensors[name].shape;
    &&& a.tensors.contains_key(name)
    &&& s.len() == 3
    &&& s[0] * s[1] == i
    &&& s[0] * s[2] == o
    &&& a.tensors[name].len == s[0] * (s[1] * s[2]) <= usize::MAX
}

/// Whether the named tensors are a recurrent unit of 256 over rows of width 256.
pub open spec fn unit(a: ArenaView, w: Seq<char>, r: Seq<char>, b: Seq<char>) -> bool {
    &&& numbers(a, w, 196608)
    &&& numbers(a, r, 196608)
    &&& a.tensors[r].shape == seq![1usize, 768, 256]
    &&& numbers(a, b, 1536)
}

/// Whether the encoder's tensors have the published sizes.
pub open spec fn published_encoder(a: ArenaView) -> bool {
    &&& numbers(a, "enc/onnx::Conv_310"@, 144)
    &&& numbers(a, "enc/onnx::Conv_311"@, 16)
    &&& numbers(a, "enc/erb_conv1.0.weight"@, 48)
    &&& numbers(a, "enc/onnx::Conv_313"@, 256)
    &&& numbers(a, "enc/onnx::Conv_314"@, 16)
    &&& numbers(a, "enc/erb_conv2.0.weight"@, 48)
    &&& numbers(a, "enc/onnx::Conv_316"@, 256)
    &&& numbers(a, "enc/onnx::Conv_317"@, 16)
    &&& numbers(a, "enc/erb_conv3.0.weight"@, 48)
    &&& numbers(a, "enc/onnx::Conv_319"@, 256)
    &&& numbers(a, "enc/onnx::Conv_320"@, 16)
    &&& numbers(a, "enc/df_conv0.1.weight"@, 144)
    &&& numbers(a, "enc/onnx::Conv_322"@, 256)
    &&& numbers(a, "enc/onnx::Conv_323"@, 16)
    &&& numbers(a, "enc/df_conv1.0.weight"@, 48)
    &&& numbers(a, "enc/onnx::Conv_325"@, 256)
    &&& numbers(a, "enc/onnx::Conv_326"@, 16)
    &&& linear(a, "enc/df_fc_emb.0.weight"@, 512, 128)
    &&& linear(a, "enc/emb_gru.linear_in.0.weight"@, 128, 256)
    &&& linear(a, "enc/emb_gru.linear_out.0.weight"@, 256, 128)
    &&& unit(a, "enc/onnx::GRU_360"@, "enc/onnx::GRU_361"@, "enc/onnx::GRU_362"@)
    &&& numbers(a, "enc/onnx::MatMul_365"@, 128)
    &&& numbers(a, "enc/lsnr_fc.0.bias"@, 1)
}

/// Whether the decoders' tensors have the published sizes.
pub open spec fn published_decoders(a: ArenaView) -> bool {
    &&& linear(a, "erb_dec/emb_gru.linear_in.0.weight"@, 128, 256)
    &&& linear(a, "erb_dec/emb_gru.linear_out.0.weight"@, 256, 128)
    &&& unit(a, "erb_dec/onnx::GRU_291"@, "erb_dec/onnx::GRU_292"@, "erb_dec/onnx::GRU_293"@)
    &&& numbers(a, "erb_dec/onnx::Conv_247"@, 256)
    &&& numbers(a, "erb_dec/onnx::Conv_248"@, 16)
    &&& numbers(a, "erb_dec/convt3.0.weight"@, 48)
    &&& numbers(a, "erb_dec/onnx::Conv_250"@, 256)
    &&& numbers(a, "erb_dec/onnx::Conv_251"@, 16)
    &&& numbers(a, "erb_dec/onnx::Conv_253"@, 256)
    &&& numbers(a, "erb_dec/onnx::Conv_254"@, 16)
    &&& numbers(a, "erb_dec/convt2.0.weight"@, 48)
    &&& numbers(a, "erb_dec/onnx::Conv_256"@, 256)
    &&& numbers(a, "erb_dec/onnx::Conv_257"@, 16)
    &&& numbers(a, "erb_dec/onnx::Conv_259"@, 256)
    &&& numbers(a, "erb_dec/onnx::Conv_260"@, 16)
    &&& numbers(a, "erb_dec/convt1.0.weight"@, 48)
    &&& numbers(a, "erb_dec/onnx::Conv_262"@, 256)
    &&& numbers(a, "erb_dec/onnx::Conv_263"@, 16)
    &&& numbers(a, "erb_dec/onnx::Conv_265"@, 256)
    &&& numbers(a, "erb_dec/onnx::Conv_266"@, 16)
    &&& numbers(a, "erb_dec/onnx::Conv_268"@, 48)
    &&& numbers(a, "erb_dec/onnx::Conv_269"@, 1)
    &&& linear(a, "df_dec/df_gru.linear_in.0.weight"@, 128, 256)
    &&& linear(a, "df_dec/df_out.0.weight"@, 256, 640)
    &&& unit(a, "df_dec/onnx::GRU_337"@, "df_dec/onnx::GRU_338"@, "df_dec/onnx::GRU_339"@)
    &&& unit(a, "df_dec/onnx::GRU_357"@, "df_dec/onnx::GRU_358"@, "df_dec/onnx::GRU_359"@)
    &&& unit(a, "df_dec/onnx::GRU_377"@, "df_dec/onnx::GRU_378"@, "df_dec/onnx::GRU_379"@)
    &&& numbers(a, "df_dec/onnx::Conv_314"@, 160)
    &&& numbers(a, "df_dec/onnx::Conv_315"@, 10)
}

proof fn lemma_linear(a: ArenaView, b: BankView, name: Seq<char>, i: int, o: int, t: int)
    requires
        linear(a, name, i, o),
        b.w == a,
        0 < i,
        0 < o <= 1024,
        0 < t,
        1024 * t <= usize::MAX,
    ensures
        gl_sized(b, t, name, i),
        gl_width(b, name) == o,
        gl_fits(a, (t * i) as nat, t, name),
{
    let s = a.tensors[name].shape;
    let (x, y, z) = (s[0] as int, s[1] as int, s[2] as int);
    assert(1 <= x <= o && 1 <= y && 1 <= z) by (nonlinear_arith)
        requires
            x * y == i,
            x * z == o,
            0 < i,
            0 < o,
            0 <= x,
            0 <= y,
            0 <= z,
    ;
    assert(y * z <= x * (y * z)) by (nonlinear_arith)
        requires
            1 <= x,
            0 <= y,
            0 <= z,
    ;
    assert(t * x <= 1024 * t) by (nonlinear_arith)
        requires
            x <= 1024,
            0 < t,
    ;
    lemma_mul_is_associative(t, x, y);
}

proof fn lemma_packed(a: ArenaView, name: Seq<char>)
    requires
        a.wf(),
        numbers(a, name, 196608),
    ensures
        pack_of(a.tensor(name), 768, 256).len() == 196608,
{
    law_packing_keeps_every_row(a.tensor(name), 768, 256, 0);
}

#[verifier::rlimit(60)]
proof fn lemma_encoder_stands(a: ArenaView, t: int)
    requires
        a.wf(),
        published_encoder(a),
        0 < t,
        1024 * t <= usize::MAX,
    ensures
        bank_of(a, encoder_required(), encoder_gru_r()) matches Ok(b) && b.w == a && encoder_sized(b, t)
            && gl_width(b, "enc/emb_gru.linear_out.0.weight"@) == 128,
{
    let (required, gru_r) = (encoder_required(), encoder_gru_r());
    assert forall|i: int| 0 <= i < required.len() implies a.tensors.contains_key(#[trigger] required[i]) by {}
    law_a_bank_stands_on_its_tensors(a, required, gru_r);
    let b = bank_of(a, required, gru_r)->Ok_0;
    lemma_linear(a, b, "enc/df_fc_emb.0.weight"@, 512, 128, t);
    lemma_linear(a, b, "enc/emb_gru.linear_in.0.weight"@, 128, 256, t);
    lemma_linear(a, b, "enc/emb_gru.linear_out.0.weight"@, 256, 128, t);
    assert(gru_r[0] == "enc/onnx::GRU_361"@);
    law_recurrent_matrices_are_packed(a, required, gru_r, 0);
    lemma_packed(a, "enc/onnx::GRU_361"@);
}

#[verifier::rlimit(60)]
proof fn lemma_decoders_stand(a: ArenaView, t: int)
    requires
        a.wf(),
        published_decoders(a),
        0 < t,
        1024 * t <= usize::MAX,
    ensures
        bank_of(a, decoders_required(), decoders_gru_r()) matches Ok(b) && b.w == a && erb_dec_sized(
            b,
            t,
            (t * 128) as nat,
        ) && df_dec_sized(b, t, (t * 128) as nat),
{
    let (required, gru_r) = (decoders_required(), decoders_gru_r());
    assert forall|i: int| 0 <= i < required.len() implies a.tensors.contains_key(#[trigger] required[i]) by {}
    law_a_bank_stands_on_its_tensors(a, required, gru_r);
    let b = bank_of(a, required, gru_r)->Ok_0;
    lemma_linear(a, b, "erb_dec/emb_gru.linear_in.0.weight"@, 128, 256, t);
    lemma_linear(a, b, "erb_dec/emb_gru.linear_out.0.weight"@, 256, 128, t);
    lemma_linear(a, b, "df_dec/df_gru.linear_in.0.weight"@, 128, 256, t);
    lemma_linear(a, b, "df_dec/df_out.0.weight"@, 256, 640, t);
    assert(gru_r[0] == "erb_dec/onnx::GRU_292"@ && gru_r[1] == "df_dec/onnx::GRU_338"@ && gru_r[2]
        == "df_dec/onnx::GRU_358"@ && gru_r[3] == "df_dec/onnx::GRU_378"@);
    law_recurrent_matrices_are_packed(a, required, gru_r, 0);
    law_recurrent_matrices_are_packed(a, required, gru_r, 1);
    law_recurrent_matrices_are_packed(a, required, gru_r, 2);
    law_recurrent_matrices_are_packed(a, required, gru_r, 3);
    lemma_packed(a, "erb_dec/onnx::GRU_292"@);
    lemma_packed(a, "df_dec/onnx::GRU_338"@);
    lemma_packed(a, "df_dec/onnx::GRU_358"@);
    lemma_packed(a, "df_dec/onnx::GRU_378"@);
}

/// Weights of the published sizes make a model, and it runs over any number of frames whose largest map,
/// of 1024 numbers a frame, the machine can address.
pub proof fn law_a_model_of_the_published_sizes_runs(a: ArenaView, t: int)
    requires
        a.wf(),
        published_encoder(a),
        published_decoders(a),
        0 < t,
        1024 * t <= usize::MAX,
    ensures
        loaded_of(a) is Ok,
        loaded_of(a) == hush_of(a),
        loaded_of(a)->Ok_0.enc.w == a,
        loaded_of(a)->Ok_0.dec.w == a,
        emb_width(loaded_of(a)->Ok_0) == 128,
        model_sized(loaded_of(a)->Ok_0, t),
{
    lemma_encoder_stands(a, t);
    lemma_decoders_stand(a, t);
    lemma_encoder_stands(a, 1);
    lemma_decoders_stand(a, 1);
}

/// What is missing from the encoder is told first, then what is missing from the decoders, and at last
/// that a tensor is too short.
pub proof fn law_the_encoder_is_looked_at_first(a: ArenaView)
    ensures
        bank_of(a, encoder_required(), encoder_gru_r()) matches Err(e) ==> (loaded_of(a) matches Err(f) && f == e),
        bank_of(a, encoder_required(), encoder_gru_r()) is Ok ==> (bank_of(
            a,
            decoders_required(),
            decoders_gru_r(),
        ) matches Err(e) ==> (loaded_of(a) matches Err(f) && f == e)),
        hush_of(a) matches Ok(h) ==> (!model_sized(h, 1) ==> (loaded_of(a) matches Err(e) && e
            == crate::error::ErrorView::Weights("tensors do not have the model's sizes"@))),
{
}

} // verus!
