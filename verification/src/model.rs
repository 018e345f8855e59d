//! The encoder and both decoders over one bank.
use std::sync::Arc;
use vstd::prelude::*;

use crate::bank::{
    bank_of, fills_its_shape, first_missing, is_gru_shape, law_required_tensors_are_there,
    lemma_all_packed, names_of, packed_after, BankView, WeightBank,
};
use crate::decoders::{
    decoders_gru_r, decoders_have, decoders_required, df_dec_is_sized, df_dec_of, df_dec_sized,
    df_dec_with, df_recurrent_of, erb_dec_is_sized, erb_dec_of, erb_dec_sized, erb_dec_with,
    erb_eight_of, erb_sixteen_of, erb_start_of, erb_thirty_two_of, lemma_decoders_have,
    lemma_df_dec_gru_names, lemma_erb_dec_gru_names, skips_cover,
};
use crate::dsp::NB_ERB;
use crate::encoder::{
    c1_of, emb_of, enc_out_sized, encode_of, encode_with, encoder_gru_r, encoder_has,
    encoder_is_sized, encoder_required, encoder_sized, frames_fit, joined_of,
    lemma_encoder_gru_names, lemma_encoder_has, EncOut, EncOutView,
};
use crate::error::{Error, ErrorView};
use crate::float::F32;
use crate::layers::gl_width;
use crate::nn::pack_of;
use crate::weights::{ArenaView, Weights};

verus! {

/// How many numbers of the band mask make one frame.
pub const _MASK_STRIDE: usize = NB_ERB;

/// Every tensor the forward pass reads.
pub open spec fn model_required() -> Seq<Seq<char>> {
    encoder_required() + decoders_required()
}

/// The five recurrent matrices.
pub open spec fn model_gru_r() -> Seq<Seq<char>> {
    encoder_gru_r() + decoders_gru_r()
}

fn required_tensors() -> (r: Vec<&'static str>)
    ensures
        names_of(r@) == model_required(),
{
    let mut r = crate::encoder::required_tensors();
    let mut d = crate::decoders::required_tensors();
    let ghost (a, b) = (r@, d@);
    r.append(&mut d);
    assert(names_of(r@) =~= names_of(a) + names_of(b));
    r
}

fn recurrent_matrices() -> (r: Vec<&'static str>)
    ensures
        names_of(r@) == model_gru_r(),
{
    let mut r = crate::encoder::recurrent_matrices();
    let mut d = crate::decoders::recurrent_matrices();
    let ghost (a, b) = (r@, d@);
    r.append(&mut d);
    assert(names_of(r@) =~= names_of(a) + names_of(b));
    r
}

/// The whole network over its weights.
pub struct Model {
    bank: WeightBank,
}

impl View for Model {
    type V = BankView;

    closed spec fn view(&self) -> BankView {
        self.bank@
    }
}

impl Model {
    #[verifier::type_invariant]
    spec fn inv(self) -> bool {
        encoder_has(self.bank@) && decoders_have(self.bank@)
    }

    /// Validates that every tensor the forward pass touches is present, then repacks the recurrent
    /// matrices. After this succeeds no access to a tensor can fail.
    pub fn new(w: Weights) -> (r: Result<Model, Error>)
        ensures
            match r {
                Ok(m) => bank_of(w@, model_required(), model_gru_r()) == Ok::<
                    BankView,
                    ErrorView,
                >(m@),
                Err(e) => bank_of(w@, model_required(), model_gru_r()) == Err::<
                    BankView,
                    ErrorView,
                >(e@),
            },
    {
        let required = required_tensors();
        let mats = recurrent_matrices();
        match WeightBank::new(Arc::new(w), required.as_slice(), mats.as_slice()) {
            Ok(bank) => {
                proof {
                    let (er, dr) = (encoder_required(), decoders_required());
                    let (em, dm) = (encoder_gru_r(), decoders_gru_r());
                    assert((er + dr).subrange(0, er.len() as int) =~= er);
                    assert((em + dm).subrange(0, em.len() as int) =~= em);
                    assert((er + dr).subrange(er.len() as int, (er + dr).len() as int) =~= dr);
                    assert((em + dm).subrange(em.len() as int, (em + dm).len() as int) =~= dm);
                    lemma_encoder_has(bank@.w, er + dr, em + dm);
                    lemma_decoders_have(bank@.w, er + dr, em + dm);
                }
                Ok(Model { bank })
            },
            Err(e) => Err(e),
        }
    }

    /// Whether the encoder's tensors hold what a run over `t` frames reads.
    pub fn is_sized(&self, t: usize) -> (r: bool)
        ensures
            r == encoder_sized(self@, t as int),
    {
        proof {
            use_type_invariant(self);
        }
        encoder_is_sized(&self.bank, t)
    }

    /// Whether both decoders' tensors hold what a run over `t` frames reads, given an embedding of
    /// `emb` numbers.
    pub fn decoders_are_sized(&self, t: usize, emb: usize) -> (r: bool)
        ensures
            r == (erb_dec_sized(self@, t as int, emb as nat) && df_dec_sized(
                self@,
                t as int,
                emb as nat,
            )),
    {
        proof {
            use_type_invariant(self);
        }
        erb_dec_is_sized(&self.bank, t, emb) && df_dec_is_sized(&self.bank, t, emb)
    }

    /// Runs the encoder over `t` frames of features.
    pub fn enc(&self, feat_erb: &[F32], feat_spec: &[F32], t: usize) -> (r: EncOut)
        requires
            encoder_sized(self@, t as int),
            frames_fit(t as int),
            t * 32 <= feat_erb@.len(),
            2 * t * 64 <= feat_spec@.len(),
        ensures
            r@ == encode_of(self@, feat_erb@, feat_spec@, t as nat),
            enc_out_sized(r@, t as int, gl_width(self@, "enc/emb_gru.linear_out.0.weight"@)),
    {
        proof {
            use_type_invariant(self);
        }
        encode_with(&self.bank, feat_erb, feat_spec, t)
    }

    /// Band decoder: a `[T, 32]` mask.
    pub fn erb_dec(&self, e: &EncOut, t: usize) -> (r: Vec<F32>)
        requires
            erb_dec_sized(self@, t as int, e@.emb.len()),
            skips_cover(e@, t as int),
            frames_fit(t as int),
        ensures
            r@ == erb_dec_of(self@, e@, t as nat),
            r@.len() == t * 32,
    {
        proof {
            use_type_invariant(self);
        }
        erb_dec_with(&self.bank, e, t)
    }

    /// Deep-filter decoder: `[T, 64, 10]` coefficients.
    pub fn df_dec(&self, e: &EncOut, t: usize) -> (r: Vec<F32>)
        requires
            df_dec_sized(self@, t as int, e@.emb.len()),
            16 * t * 64 <= e@.c0.len(),
            frames_fit(t as int),
        ensures
            r@ == df_dec_of(self@, e@, t as nat),
            r@.len() == t * gl_width(self@, "df_dec/df_out.0.weight"@),
    {
        proof {
            use_type_invariant(self);
        }
        df_dec_with(&self.bank, e, t)
    }
}

/// One model computes what the encoder and the decoders over the same weights compute.
pub proof fn law_a_model_is_its_stages(
    a: ArenaView,
    feat_erb: Seq<F32>,
    feat_spec: Seq<F32>,
    e: EncOutView,
    t: nat,
)
    requires
        bank_of(a, model_required(), model_gru_r()) is Ok,
    ensures
        ({
            let m = bank_of(a, model_required(), model_gru_r())->Ok_0;
            let enc = bank_of(a, encoder_required(), encoder_gru_r());
            let dec = bank_of(a, decoders_required(), decoders_gru_r());
            &&& enc is Ok && dec is Ok
            &&& encode_of(m, feat_erb, feat_spec, t) == encode_of(
                enc->Ok_0,
                feat_erb,
                feat_spec,
                t,
            )
            &&& erb_dec_of(m, e, t) == erb_dec_of(dec->Ok_0, e, t)
            &&& df_dec_of(m, e, t) == df_dec_of(dec->Ok_0, e, t)
        }),
{
    let (er, dr) = (encoder_required(), decoders_required());
    let (em, dm) = (encoder_gru_r(), decoders_gru_r());
    let (names, mats) = (model_required(), model_gru_r());
    assert forall|i: int| 0 <= i < er.len() implies a.tensors.contains_key(#[trigger] er[i]) by {
        law_required_tensors_are_there(a, names, mats, i);
        assert(names[i] == er[i]);
    }
    assert forall|i: int| 0 <= i < dr.len() implies a.tensors.contains_key(#[trigger] dr[i]) by {
        law_required_tensors_are_there(a, names, mats, er.len() + i);
        assert(names[er.len() + i] == dr[i]);
    }
    assert forall|i: int| 0 <= i < em.len() implies is_packed(a, mats, #[trigger] em[i]) by {
        lemma_all_packed(a, mats, mats.len(), i);
        assert(mats[i] == em[i]);
    }
    assert forall|i: int| 0 <= i < dm.len() implies is_packed(a, mats, #[trigger] dm[i]) by {
        lemma_all_packed(a, mats, mats.len(), em.len() + i);
        assert(mats[em.len() + i] == dm[i]);
    }
    lemma_nothing_missing(a, er, er.len());
    lemma_nothing_missing(a, dr, dr.len());
    lemma_everything_packs(a, mats, em, em.len());
    lemma_everything_packs(a, mats, dm, dm.len());
    lemma_all_packed(a, em, em.len(), 0);
    lemma_all_packed(a, dm, dm.len(), 0);
    lemma_all_packed(a, dm, dm.len(), 1);
    lemma_all_packed(a, dm, dm.len(), 2);
    lemma_all_packed(a, dm, dm.len(), 3);
    let m = bank_of(a, names, mats)->Ok_0;
    let enc = bank_of(a, er, em)->Ok_0;
    let dec = bank_of(a, dr, dm)->Ok_0;
    assert(is_packed(a, mats, em[0]));
    assert(is_packed(a, mats, dm[0]));
    assert(is_packed(a, mats, dm[1]));
    assert(is_packed(a, mats, dm[2]));
    assert(is_packed(a, mats, dm[3]));
    assert(m.packed["enc/onnx::GRU_361"@] == enc.packed["enc/onnx::GRU_361"@]);
    assert(m.packed["erb_dec/onnx::GRU_292"@] == dec.packed["erb_dec/onnx::GRU_292"@]);
    assert(m.packed["df_dec/onnx::GRU_338"@] == dec.packed["df_dec/onnx::GRU_338"@]);
    assert(m.packed["df_dec/onnx::GRU_358"@] == dec.packed["df_dec/onnx::GRU_358"@]);
    assert(m.packed["df_dec/onnx::GRU_378"@] == dec.packed["df_dec/onnx::GRU_378"@]);
    lemma_same_encoder(m, enc, feat_erb, feat_spec, t);
    lemma_same_decoders(m, dec, e, t);
}

proof fn lemma_same_encoder(b: BankView, c: BankView, x: Seq<F32>, y: Seq<F32>, t: nat)
    requires
        b.w == c.w,
        b.packed["enc/onnx::GRU_361"@] == c.packed["enc/onnx::GRU_361"@],
    ensures
        encode_of(b, x, y, t) == encode_of(c, x, y, t),
{
    lemma_encoder_gru_names();
    let (p, q) = (encode_of(b, x, y, t), encode_of(c, x, y, t));
    assert(p.e0 == q.e0);
    assert(p.e1 == q.e1);
    assert(p.e2 == q.e2);
    assert(p.e3 == q.e3);
    assert(p.c0 == q.c0);
    assert(c1_of(b, p.c0, t) == c1_of(c, q.c0, t));
    let (i, j) = (
        joined_of(b, p.e3, c1_of(b, p.c0, t), t),
        joined_of(c, q.e3, c1_of(c, q.c0, t), t),
    );
    assert(i == j);
    assert(emb_of(b, i, t) == emb_of(c, j, t));
    assert(p.lsnr =~= q.lsnr);
}

proof fn lemma_same_decoders(b: BankView, c: BankView, e: EncOutView, t: nat)
    requires
        b.w == c.w,
        b.packed["erb_dec/onnx::GRU_292"@] == c.packed["erb_dec/onnx::GRU_292"@],
        b.packed["df_dec/onnx::GRU_338"@] == c.packed["df_dec/onnx::GRU_338"@],
        b.packed["df_dec/onnx::GRU_358"@] == c.packed["df_dec/onnx::GRU_358"@],
        b.packed["df_dec/onnx::GRU_378"@] == c.packed["df_dec/onnx::GRU_378"@],
    ensures
        erb_dec_of(b, e, t) == erb_dec_of(c, e, t),
        df_dec_of(b, e, t) == df_dec_of(c, e, t),
{
    lemma_erb_dec_gru_names();
    lemma_df_dec_gru_names();
    let y = erb_start_of(b, e.emb, t);
    assert(y == erb_start_of(c, e.emb, t));
    let z = erb_eight_of(b, y, e, t);
    assert(z == erb_eight_of(c, y, e, t));
    let v = erb_sixteen_of(b, z, e, t);
    assert(v == erb_sixteen_of(c, z, e, t));
    assert(erb_thirty_two_of(b, v, e, t) == erb_thirty_two_of(c, v, e, t));
    assert forall|x: Seq<F32>| #[trigger] df_recurrent_of(b, x, t) == df_recurrent_of(c, x, t) by {
    }
}

/// Whether a matrix is there and packs, and the list's panels hold it.
spec fn is_packed(a: ArenaView, mats: Seq<Seq<char>>, name: Seq<char>) -> bool {
    &&& a.tensors.contains_key(name)
    &&& is_gru_shape(a.tensors[name].shape)
    &&& fills_its_shape(a, name)
    &&& packed_after(a, mats, mats.len()) matches Ok(m) && m[name] == pack_of(
        a.tensor(name),
        a.tensors[name].shape[1] as int,
        a.tensors[name].shape[2] as int,
    )
}

proof fn lemma_nothing_missing(a: ArenaView, names: Seq<Seq<char>>, k: nat)
    requires
        k <= names.len(),
        forall|i: int| 0 <= i < names.len() ==> a.tensors.contains_key(#[trigger] names[i]),
    ensures
        first_missing(a, names, k) is None,
    decreases k,
{
    if k > 0 {
        lemma_nothing_missing(a, names, (k - 1) as nat);
        assert(a.tensors.contains_key(names[k - 1]));
    }
}

proof fn lemma_everything_packs(
    a: ArenaView,
    mats: Seq<Seq<char>>,
    part: Seq<Seq<char>>,
    k: nat,
)
    requires
        k <= part.len(),
        forall|i: int| 0 <= i < part.len() ==> is_packed(a, mats, #[trigger] part[i]),
    ensures
        packed_after(a, part, k) is Ok,
    decreases k,
{
    if k > 0 {
        lemma_everything_packs(a, mats, part, (k - 1) as nat);
        assert(is_packed(a, mats, part[k - 1]));
    }
}

} // verus!
