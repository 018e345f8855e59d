//! When weights load, and what is said of those that do not.
use vstd::arithmetic::div_mod::*;
use vstd::prelude::*;

use crate::bank::{bank_of, first_missing, packed_after};
use crate::error::ErrorView;
use crate::float::F32;
use crate::text::{debug_text, decimal, lines_spec, list_text};
use crate::weights::{
    blob_spec, dtype_spec, entry_spec, is_comment, is_int8, line_spec, lines_loaded, load_spec, place_spec,
    scale_table, ArenaView, Dtype, EntryView, TensorView,
};

verus! {

// ------------------------------------------------------------------ blobs

/// How many weights a blob holds.
pub open spec fn weight_count(bin: Seq<u8>, dtype: Dtype) -> int {
    match dtype {
        Dtype::Int8 { payload } => payload as int,
        Dtype::F16 => bin.len() as int / 2,
        Dtype::F32 => bin.len() as int / 4,
    }
}

/// How many scales stand behind the codes.
pub open spec fn scale_count(bin: Seq<u8>, dtype: Dtype) -> int {
    match dtype {
        Dtype::Int8 { payload } => (bin.len() - payload) / 4,
        _ => 0,
    }
}

/// A blob has a whole number of weights, or of scales behind its codes; what has not is refused with the
/// reason.
pub proof fn law_blobs_hold_whole_numbers(bin: Seq<u8>, payload: usize)
    ensures
        bin.len() % 4 == 0 <==> blob_spec(bin, Dtype::F32) is Ok,
        bin.len() % 2 == 0 <==> blob_spec(bin, Dtype::F16) is Ok,
        (bin.len() - payload) % 4 == 0 <==> blob_spec(bin, Dtype::Int8 { payload }) is Ok,
        forall|dtype: Dtype|
            #[trigger] blob_spec(bin, dtype) is Ok ==> blob_spec(bin, dtype)->Ok_0.len() == weight_count(
                bin,
                dtype,
            ),
        bin.len() % 4 != 0 ==> blob_spec(bin, Dtype::F32) == Err::<Seq<F32>, Seq<char>>(
            "f32 blob length is not a multiple of 4"@,
        ),
        bin.len() % 2 != 0 ==> blob_spec(bin, Dtype::F16) == Err::<Seq<F32>, Seq<char>>(
            "f16 blob length is not a multiple of 2"@,
        ),
        (bin.len() - payload) % 4 != 0 ==> blob_spec(bin, Dtype::Int8 { payload }) == Err::<
            Seq<F32>,
            Seq<char>,
        >("int8 scale table is not a multiple of 4 bytes"@),
{
}

// ------------------------------------------------------------------ lines

/// Whether an entry of a manifest asks for nothing that the blob does not hold: neither weights past the
/// last nor more scales than there are.
pub open spec fn entry_fits(e: EntryView, weights: int, scales: int) -> bool {
    &&& e.off + e.len <= weights
    &&& e.quant matches Some((soff, block)) ==> block > 0 && soff <= scales && e.len <= (scales - soff) * block
}

/// Whether a line of a manifest can be taken in.
pub open spec fn line_fits(line: Seq<char>, bin: Seq<u8>, dtype: Dtype) -> bool {
    is_comment(line) || (entry_spec(line, is_int8(dtype)) matches Some(e) && entry_fits(
        e,
        weight_count(bin, dtype),
        scale_count(bin, dtype),
    ))
}

/// So many blocks cover the weights if and only if they have room for them.
proof fn lemma_blocks(len: int, block: int, n: int)
    requires
        0 <= len,
        0 < block,
    ensures
        (len + block - 1) / block <= n <==> len <= n * block,
{
    lemma_fundamental_div_mod(len + block - 1, block);
    let (q, r) = ((len + block - 1) / block, (len + block - 1) % block);
    assert(q <= n <==> len <= n * block) by (nonlinear_arith)
        requires
            len + block - 1 == block * q + r,
            0 <= r < block,
            0 < block,
    ;
}

proof fn lemma_place_succeeds(bin: Seq<u8>, dtype: Dtype, data: Seq<F32>, e: EntryView)
    requires
        data.len() == weight_count(bin, dtype),
        dtype matches Dtype::Int8 { payload } ==> payload <= bin.len(),
        e.quant is Some ==> is_int8(dtype),
    ensures
        entry_fits(e, weight_count(bin, dtype), scale_count(bin, dtype)) <==> place_spec(
            bin,
            scale_table(bin, dtype),
            data,
            e,
        ) is Ok,
        place_spec(bin, scale_table(bin, dtype), data, e) matches Ok(d) ==> d.len() == data.len(),
{
    if e.quant is Some && e.quant->Some_0.1 > 0 {
        let (soff, block) = e.quant->Some_0;
        lemma_blocks(e.len as int, block as int, scale_count(bin, dtype) - soff);
        lemma_blocks(e.len as int, block as int, -1);
        if e.len <= (scale_count(bin, dtype) - soff) * block {
            if soff > scale_count(bin, dtype) {
                assert((scale_count(bin, dtype) - soff) * block < 0) by (nonlinear_arith)
                    requires
                        scale_count(bin, dtype) - soff < 0,
                        block > 0,
                ;
            }
        }
        assert(-1 * block < 0);
        assert(!((e.len + block - 1) / (block as int) <= -1));
    }
}

/// An entry has scales if and only if the codes are of eight bits.
proof fn lemma_entry_quant(line: Seq<char>, int8: bool)
    ensures
        entry_spec(line, int8) matches Some(e) ==> (e.quant is Some <==> int8),
{
}

proof fn lemma_line_loads(bin: Seq<u8>, dtype: Dtype, a: ArenaView, line: Seq<char>, n: nat)
    requires
        a.data.len() == weight_count(bin, dtype),
        dtype matches Dtype::Int8 { payload } ==> payload <= bin.len(),
    ensures
        line_fits(line, bin, dtype) <==> line_spec(bin, dtype, a, line, n) is Ok,
        line_spec(bin, dtype, a, line, n) matches Ok(b) ==> b.data.len() == a.data.len() && (is_comment(line)
            ==> b == a) && (!is_comment(line) ==> b.tensors.contains_key(
            entry_spec(line, is_int8(dtype))->Some_0.name,
        )) && (forall|x: Seq<char>| a.tensors.contains_key(x) ==> #[trigger] b.tensors.contains_key(x)),
{
    lemma_entry_quant(line, is_int8(dtype));
    if !is_comment(line) && entry_spec(line, is_int8(dtype)) is Some {
        lemma_place_succeeds(bin, dtype, a.data, entry_spec(line, is_int8(dtype))->Some_0);
    }
}

proof fn lemma_lines_load(bin: Seq<u8>, dtype: Dtype, data: Seq<F32>, ls: Seq<Seq<char>>, k: nat)
    requires
        data.len() == weight_count(bin, dtype),
        dtype matches Dtype::Int8 { payload } ==> payload <= bin.len(),
        k <= ls.len(),
        forall|i: int| 0 <= i < k ==> line_fits(#[trigger] ls[i], bin, dtype),
    ensures
        lines_loaded(bin, dtype, data, ls, k) is Ok,
        lines_loaded(bin, dtype, data, ls, k)->Ok_0.data.len() == data.len(),
        forall|i: int|
            0 <= i < k && !is_comment(#[trigger] ls[i]) ==> lines_loaded(
                bin,
                dtype,
                data,
                ls,
                k,
            )->Ok_0.tensors.contains_key(entry_spec(ls[i], is_int8(dtype))->Some_0.name),
        (forall|i: int| 0 <= i < k ==> is_comment(#[trigger] ls[i])) ==> lines_loaded(
            bin,
            dtype,
            data,
            ls,
            k,
        )->Ok_0.tensors.is_empty(),
    decreases k,
{
    if k > 0 {
        let j = (k - 1) as nat;
        lemma_lines_load(bin, dtype, data, ls, j);
        let a = lines_loaded(bin, dtype, data, ls, j)->Ok_0;
        assert(line_fits(ls[j as int], bin, dtype));
        lemma_line_loads(bin, dtype, a, ls[j as int], k);
    }
}

proof fn lemma_error_stays(
    bin: Seq<u8>,
    dtype: Dtype,
    data: Seq<F32>,
    ls: Seq<Seq<char>>,
    j: nat,
    k: nat,
)
    requires
        j <= k,
        lines_loaded(bin, dtype, data, ls, j) is Err,
    ensures
        lines_loaded(bin, dtype, data, ls, k) == lines_loaded(bin, dtype, data, ls, j),
    decreases k,
{
    if j < k {
        lemma_error_stays(bin, dtype, data, ls, j, (k - 1) as nat);
    }
}

/// A header that can be read, a blob of whole numbers, and lines that ask for nothing past them load, and
/// every entry's tensor is there; without any entry they do not load.
pub proof fn law_weights_load_if_every_line_fits(bin: Seq<u8>, manifest: Seq<char>, dtype: Dtype)
    requires
        dtype_spec(manifest, bin.len()) == Ok::<Dtype, Seq<char>>(dtype),
        blob_spec(bin, dtype) is Ok,
        forall|i: int|
            0 <= i < lines_spec(manifest).len() ==> line_fits(
                #[trigger] lines_spec(manifest)[i],
                bin,
                dtype,
            ),
    ensures
        forall|i: int|
            0 <= i < lines_spec(manifest).len() && !is_comment(#[trigger] lines_spec(manifest)[i])
                ==> load_spec(bin, manifest) is Ok && load_spec(
                bin,
                manifest,
            )->Ok_0.tensors.contains_key(entry_spec(lines_spec(manifest)[i], is_int8(dtype))->Some_0.name),
        (forall|i: int| 0 <= i < lines_spec(manifest).len() ==> is_comment(#[trigger] lines_spec(manifest)[i]))
            ==> load_spec(bin, manifest) == Err::<ArenaView, Seq<char>>(
            "manifest contained no tensors"@,
        ),
{
    let ls = lines_spec(manifest);
    law_blobs_hold_whole_numbers(bin, 0);
    let data = blob_spec(bin, dtype)->Ok_0;
    assert(data.len() == weight_count(bin, dtype));
    lemma_lines_load(bin, dtype, data, ls, ls.len());
    let a = lines_loaded(bin, dtype, data, ls, ls.len())->Ok_0;
    assert forall|i: int| 0 <= i < ls.len() && !is_comment(#[trigger] ls[i]) implies load_spec(
        bin,
        manifest,
    ) is Ok && load_spec(bin, manifest)->Ok_0.tensors.contains_key(
        entry_spec(ls[i], is_int8(dtype))->Some_0.name,
    ) by {
        let name = entry_spec(ls[i], is_int8(dtype))->Some_0.name;
        assert(a.tensors.contains_key(name));
        if a.tensors.is_empty() {
            assert(!a.tensors.dom().contains(name));
        }
    }
}

/// What is said of the first line that cannot be taken in: which line it is if it cannot be read, and
/// else which tensor asks for what is not there.
pub proof fn law_the_first_bad_line_is_told(
    bin: Seq<u8>,
    manifest: Seq<char>,
    dtype: Dtype,
    j: int,
)
    requires
        dtype_spec(manifest, bin.len()) == Ok::<Dtype, Seq<char>>(dtype),
        blob_spec(bin, dtype) is Ok,
        0 <= j < lines_spec(manifest).len(),
        forall|i: int| 0 <= i < j ==> line_fits(#[trigger] lines_spec(manifest)[i], bin, dtype),
        !line_fits(lines_spec(manifest)[j], bin, dtype),
    ensures
        load_spec(bin, manifest) is Err,
        ({
            let line = lines_spec(manifest)[j];
            match entry_spec(line, is_int8(dtype)) {
                None => load_spec(bin, manifest) == Err::<ArenaView, Seq<char>>(
                    "malformed manifest line "@ + decimal((j + 1) as nat) + ": "@ + debug_text(line),
                ),
                Some(e) => load_spec(bin, manifest) == Err::<ArenaView, Seq<char>>(
                    "tensor "@ + e.name + if e.off + e.len > weight_count(bin, dtype) {
                        " runs past end of blob"@
                    } else if e.quant->Some_0.1 == 0 {
                        " has a zero block length"@
                    } else {
                        " runs past the scale table"@
                    },
                ),
            }
        }),
{
    let ls = lines_spec(manifest);
    law_blobs_hold_whole_numbers(bin, 0);
    let data = blob_spec(bin, dtype)->Ok_0;
    assert(data.len() == weight_count(bin, dtype));
    lemma_lines_load(bin, dtype, data, ls, j as nat);
    let a = lines_loaded(bin, dtype, data, ls, j as nat)->Ok_0;
    lemma_line_loads(bin, dtype, a, ls[j], (j + 1) as nat);
    lemma_entry_quant(ls[j], is_int8(dtype));
    lemma_error_stays(bin, dtype, data, ls, (j + 1) as nat, ls.len());
    if entry_spec(ls[j], is_int8(dtype)) is Some {
        lemma_place_succeeds(bin, dtype, a.data, entry_spec(ls[j], is_int8(dtype))->Some_0);
    }
}

/// A fault of the header or of the blob is told before any of the lines.
pub proof fn law_the_header_and_the_blob_come_first(bin: Seq<u8>, manifest: Seq<char>)
    ensures
        dtype_spec(manifest, bin.len()) matches Err(m) ==> load_spec(bin, manifest) == Err::<
            ArenaView,
            Seq<char>,
        >(m),
        dtype_spec(manifest, bin.len()) matches Ok(dtype) ==> (blob_spec(bin, dtype) matches Err(m)
            ==> load_spec(bin, manifest) == Err::<ArenaView, Seq<char>>(m)),
{
}

// ------------------------------------------------------------------ banks

proof fn lemma_none_missing(a: ArenaView, names: Seq<Seq<char>>, k: nat)
    requires
        k <= names.len(),
        forall|i: int| 0 <= i < k ==> a.tensors.contains_key(#[trigger] names[i]),
    ensures
        first_missing(a, names, k) is None,
    decreases k,
{
    if k > 0 {
        lemma_none_missing(a, names, (k - 1) as nat);
    }
}

proof fn lemma_missing_at(a: ArenaView, names: Seq<Seq<char>>, j: int, k: nat)
    requires
        0 <= j < k <= names.len(),
        forall|i: int| 0 <= i < j ==> a.tensors.contains_key(#[trigger] names[i]),
        !a.tensors.contains_key(names[j]),
    ensures
        first_missing(a, names, k) == Some(names[j]),
    decreases k,
{
    if j + 1 == k {
        lemma_none_missing(a, names, j as nat);
    } else {
        lemma_missing_at(a, names, j, (k - 1) as nat);
    }
}

/// Whether a recurrent matrix can be laid out: `[_, rows, k]` with whole panels of twelve rows, whole
/// chunks of eight, and as many numbers as that takes.
pub open spec fn can_be_packed(t: TensorView) -> bool {
    &&& t.shape.len() == 3
    &&& t.shape[1] % 12 == 0
    &&& t.shape[2] % 8 == 0
    &&& 0 < t.shape[1] * t.shape[2] <= t.len
}

proof fn lemma_all_pack(a: ArenaView, gru_r: Seq<Seq<char>>, k: nat)
    requires
        k <= gru_r.len(),
        forall|i: int|
            0 <= i < k ==> a.tensors.contains_key(#[trigger] gru_r[i]) && can_be_packed(a.tensors[gru_r[i]]),
    ensures
        packed_after(a, gru_r, k) is Ok,
    decreases k,
{
    if k > 0 {
        lemma_all_pack(a, gru_r, (k - 1) as nat);
    }
}

proof fn lemma_pack_fails_at(a: ArenaView, gru_r: Seq<Seq<char>>, j: int, k: nat)
    requires
        0 <= j < k <= gru_r.len(),
        packed_after(a, gru_r, (j + 1) as nat) is Err,
    ensures
        packed_after(a, gru_r, k) == packed_after(a, gru_r, (j + 1) as nat),
    decreases k,
{
    if j + 1 < k {
        lemma_pack_fails_at(a, gru_r, j, (k - 1) as nat);
    }
}

/// A bank stands if every required tensor is there and every recurrent matrix can be laid out.
pub proof fn law_a_bank_stands_on_its_tensors(
    a: ArenaView,
    required: Seq<Seq<char>>,
    gru_r: Seq<Seq<char>>,
)
    requires
        forall|i: int| 0 <= i < required.len() ==> a.tensors.contains_key(#[trigger] required[i]),
        forall|i: int|
            0 <= i < gru_r.len() ==> a.tensors.contains_key(#[trigger] gru_r[i]) && can_be_packed(
                a.tensors[gru_r[i]],
            ),
    ensures
        bank_of(a, required, gru_r) is Ok,
        bank_of(a, required, gru_r)->Ok_0.w == a,
        bank_of(a, required, gru_r)->Ok_0.names == required,
{
    lemma_none_missing(a, required, required.len());
    lemma_all_pack(a, gru_r, gru_r.len());
}

/// The first required tensor that is not there is named, before anything is said of the recurrent
/// matrices.
pub proof fn law_the_first_missing_tensor_is_named(
    a: ArenaView,
    required: Seq<Seq<char>>,
    gru_r: Seq<Seq<char>>,
    j: int,
)
    requires
        0 <= j < required.len(),
        forall|i: int| 0 <= i < j ==> a.tensors.contains_key(#[trigger] required[i]),
        !a.tensors.contains_key(required[j]),
    ensures
        bank_of(a, required, gru_r) is Err,
        bank_of(a, required, gru_r)->Err_0 == ErrorView::MissingTensor(required[j]),
{
    lemma_missing_at(a, required, j, required.len());
}

/// The first recurrent matrix that cannot be laid out is named, with what is wrong with it.
pub proof fn law_the_first_bad_matrix_is_named(
    a: ArenaView,
    required: Seq<Seq<char>>,
    gru_r: Seq<Seq<char>>,
    j: int,
)
    requires
        forall|i: int| 0 <= i < required.len() ==> a.tensors.contains_key(#[trigger] required[i]),
        0 <= j < gru_r.len(),
        forall|i: int|
            0 <= i < j ==> a.tensors.contains_key(#[trigger] gru_r[i]) && can_be_packed(a.tensors[gru_r[i]]),
        !a.tensors.contains_key(gru_r[j]) || !can_be_packed(a.tensors[gru_r[j]]),
    ensures
        bank_of(a, required, gru_r) is Err,
        ({
            let (name, t) = (gru_r[j], a.tensors[gru_r[j]]);
            bank_of(a, required, gru_r)->Err_0 == if !a.tensors.contains_key(name) {
                ErrorView::MissingTensor(name)
            } else if t.shape.len() == 3 && t.shape[1] % 12 == 0 && t.shape[2] % 8 == 0 {
                ErrorView::Weights(name + ": too short for GRU shape "@ + list_text(t.shape))
            } else {
                ErrorView::Weights(name + ": unexpected GRU shape "@ + list_text(t.shape))
            }
        }),
{
    lemma_none_missing(a, required, required.len());
    lemma_all_pack(a, gru_r, j as nat);
    lemma_pack_fails_at(a, gru_r, j, gru_r.len());
}

} // verus!
