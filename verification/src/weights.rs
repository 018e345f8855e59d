//! The weight arena: every tensor of the model in one flat buffer, addressed by name.

use crate::error::Error;
use crate::float::F32;
use crate::half::{f16_to_f32, widen};
use crate::text::{
    debug_str, debug_text, decimal, from_chars, lines, lines_spec, parse_usize, parse_usize_spec,
    push_decimal, rsplit_once, rsplit_once_spec, second_word, second_word_spec, split, split_spec,
    starts_with, starts_with_spec, texts, to_chars, trim, trim_spec, trim_start, trim_start_spec,
};
use vstd::arithmetic::div_mod::*;
use vstd::hash_map::StringHashMap;
use vstd::prelude::*;
use vstd::string::*;

verus! {

// ------------------------------------------------------------------ numbers in the blob

/// The binary32 number stored at byte `i`, the least significant byte first.
pub open spec fn le_f32(b: Seq<u8>, i: int) -> F32 {
    F32 {
        bits: (b[i] + 0x100 * b[i + 1] + 0x1_0000 * b[i + 2] + 0x100_0000 * b[i + 3]) as u32,
    }
}

/// The binary16 pattern stored at byte `i`, the least significant byte first.
pub open spec fn le_u16(b: Seq<u8>, i: int) -> u16 {
    (b[i] + 0x100 * b[i + 1]) as u16
}

/// The signed code that a byte stands for.
pub open spec fn code_of(b: u8) -> int {
    if b < 128 {
        b as int
    } else {
        b - 256
    }
}

fn read_f32(b: &[u8], i: usize) -> (r: F32)
    requires
        i + 4 <= b@.len(),
    ensures
        r == le_f32(b@, i as int),
{
    F32::from_bits(
        b[i] as u32 + 0x100 * b[i + 1] as u32 + 0x1_0000 * b[i + 2] as u32 + 0x100_0000
            * b[i + 3] as u32,
    )
}

/// The binary32 numbers that whole groups of four bytes hold.
pub open spec fn floats_of(b: Seq<u8>) -> Seq<F32> {
    Seq::new(b.len() / 4, |i: int| le_f32(b, 4 * i))
}

/// The binary16 numbers that whole groups of two bytes hold, widened.
pub open spec fn halves_of(b: Seq<u8>) -> Seq<F32> {
    Seq::new(b.len() / 2, |i: int| widen(le_u16(b, 2 * i)))
}

/// So many zeros.
pub open spec fn zeros(n: nat) -> Seq<F32> {
    Seq::new(n, |i: int| F32::zero_spec())
}

/// Decodes little-endian binary32 numbers; bytes past the last whole number are ignored.
pub fn floats_from_le(b: &[u8]) -> (r: Vec<F32>)
    ensures
        r@ == floats_of(b@),
{
    let bytes = b.len();
    let n = bytes / 4;
    let mut r: Vec<F32> = Vec::new();
    for i in 0..n
        invariant
            bytes == b@.len(),
            n == bytes / 4,
            r@ == floats_of(b@).take(i as int),
    {
        r.push(read_f32(b, 4 * i));
    }
    assert(floats_of(b@).take(n as int) =~= floats_of(b@));
    r
}

/// Decodes little-endian binary16 numbers; a byte past the last whole number is ignored.
pub fn halves_from_le(b: &[u8]) -> (r: Vec<F32>)
    ensures
        r@ == halves_of(b@),
{
    let bytes = b.len();
    let n = bytes / 2;
    let mut r: Vec<F32> = Vec::new();
    for i in 0..n
        invariant
            bytes == b@.len(),
            n == bytes / 2,
            r@ == halves_of(b@).take(i as int),
    {
        let h: u16 = b[2 * i] as u16 + 0x100 * b[2 * i + 1] as u16;
        r.push(f16_to_f32(h));
    }
    assert(halves_of(b@).take(n as int) =~= halves_of(b@));
    r
}

// ------------------------------------------------------------------ the header

/// What the blob holds. Every format is decoded to binary32 on loading.
#[derive(Clone, Copy, PartialEq, Eq, Structural, Debug)]
pub enum Dtype {
    F32,
    F16,
    /// Symmetric int8 codes, one binary32 scale per block of weights. The codes are the first
    /// `payload` bytes; the scales follow.
    Int8 { payload: usize },
}

/// The first line without white space around it; empty if there is no line.
pub open spec fn head_line(manifest: Seq<char>) -> Seq<char> {
    let ls = lines_spec(manifest);
    if ls.len() == 0 {
        trim_spec(Seq::empty())
    } else {
        trim_spec(ls[0])
    }
}

/// The format that the manifest's first line declares for a blob of `n` bytes, or what is wrong
/// with it.
pub open spec fn dtype_spec(manifest: Seq<char>, n: nat) -> Result<Dtype, Seq<char>> {
    let head = head_line(manifest);
    if starts_with_spec(head, "#dtype int8"@) {
        let word = second_word_spec(head.skip("#dtype int8"@.len() as int));
        let payload = match word {
            Some(w) => parse_usize_spec(w),
            None => None,
        };
        match payload {
            None => Err("int8 header needs `payload <n_elements>`"@),
            Some(p) => if p > n {
                Err("int8 payload runs past end of blob"@)
            } else {
                Ok(Dtype::Int8 { payload: p })
            },
        }
    } else if starts_with_spec(head, "#dtype f16"@) {
        Ok(Dtype::F16)
    } else {
        Ok(Dtype::F32)
    }
}

/// The format that the manifest's first line declares.
pub fn parse_dtype(manifest: &[char], n: usize) -> (r: Result<Dtype, Error>)
    ensures
        match r {
            Ok(d) => dtype_spec(manifest@, n as nat) == Ok::<Dtype, Seq<char>>(d),
            Err(e) => e matches Error::Weights(m) && dtype_spec(manifest@, n as nat) == Err::<
                Dtype,
                Seq<char>,
            >(m@),
        },
{
    let ls = lines(manifest);
    let head: &[char] = if ls.len() == 0 {
        assert(manifest@.subrange(0, 0) =~= Seq::empty());
        trim(&manifest[0..0])
    } else {
        assert(texts(ls@)[0] == ls@[0]@);
        trim(ls[0])
    };
    if starts_with(head, "#dtype int8") {
        proof {
            reveal_strlit("#dtype int8");
        }
        let k = head.len();
        assert(head@.subrange(11, k as int) =~= head@.skip(11));
        let payload = match second_word(&head[11..k]) {
            Some(w) => parse_usize(w),
            None => None,
        };
        match payload {
            None => Err(Error::Weights("int8 header needs `payload <n_elements>`".to_owned())),
            Some(p) => if p > n {
                Err(Error::Weights("int8 payload runs past end of blob".to_owned()))
            } else {
                Ok(Dtype::Int8 { payload: p })
            },
        }
    } else if starts_with(head, "#dtype f16") {
        Ok(Dtype::F16)
    } else {
        Ok(Dtype::F32)
    }
}

// ------------------------------------------------------------------ manifest lines

/// One line of the manifest: a tensor's name, shape, place in the arena, and, for int8, the
/// index of its first scale and how many weights share one.
pub struct EntryView {
    pub name: Seq<char>,
    pub shape: Seq<usize>,
    pub off: usize,
    pub len: usize,
    pub quant: Option<(usize, usize)>,
}

/// One line of the manifest.
pub struct Entry {
    pub name: String,
    pub shape: Vec<usize>,
    pub off: usize,
    pub len: usize,
    pub quant: Option<(usize, usize)>,
}

impl View for Entry {
    type V = EntryView;

    open spec fn view(&self) -> EntryView {
        EntryView {
            name: self.name@,
            shape: self.shape@,
            off: self.off,
            len: self.len,
            quant: self.quant,
        }
    }
}

/// A number split off the end of a line: what stands before the last space, and the number
/// after it.
pub open spec fn last_number(s: Seq<char>) -> Option<(Seq<char>, usize)> {
    match rsplit_once_spec(s, ' ') {
        None => None,
        Some((rest, w)) => match parse_usize_spec(w) {
            None => None,
            Some(n) => Some((rest, n)),
        },
    }
}

/// All of the numbers, if all of them are numbers.
pub open spec fn parse_all(ws: Seq<Seq<char>>) -> Option<Seq<usize>>
    decreases ws.len(),
{
    if ws.len() == 0 {
        Some(Seq::empty())
    } else {
        match (parse_all(ws.drop_last()), parse_usize_spec(ws.last())) {
            (Some(ns), Some(n)) => Some(ns.push(n)),
            _ => None,
        }
    }
}

/// A shape: numbers between commas; nothing at all for a scalar.
pub open spec fn parse_shape(s: Seq<char>) -> Option<Seq<usize>> {
    if s.len() == 0 {
        Some(Seq::empty())
    } else {
        parse_all(split_spec(s, ','))
    }
}

/// `name shape`, with the place in the arena and the scales already known.
pub open spec fn entry_head(
    head: Seq<char>,
    off: usize,
    len: usize,
    quant: Option<(usize, usize)>,
) -> Option<EntryView> {
    match rsplit_once_spec(head, ' ') {
        None => None,
        Some((name, shape)) => match parse_shape(shape) {
            None => None,
            Some(shape) => Some(EntryView { name, shape, off, len, quant }),
        },
    }
}

/// `name shape off len`.
pub open spec fn float_entry(line: Seq<char>) -> Option<EntryView> {
    match last_number(line) {
        None => None,
        Some((s, len)) => match last_number(s) {
            None => None,
            Some((head, off)) => entry_head(head, off, len, None),
        },
    }
}

/// `name shape off len scale_off block`.
pub open spec fn int8_entry(line: Seq<char>) -> Option<EntryView> {
    match last_number(line) {
        None => None,
        Some((s, block)) => match last_number(s) {
            None => None,
            Some((s, soff)) => match last_number(s) {
                None => None,
                Some((s, len)) => match last_number(s) {
                    None => None,
                    Some((head, off)) => entry_head(head, off, len, Some((soff, block))),
                },
            },
        },
    }
}

/// The tensor that a manifest line describes, if it is well formed.
pub open spec fn entry_spec(line: Seq<char>, int8: bool) -> Option<EntryView> {
    if int8 {
        int8_entry(line)
    } else {
        float_entry(line)
    }
}

/// Whether a line describes no tensor: it is blank or a comment.
pub open spec fn is_comment(line: Seq<char>) -> bool {
    trim_spec(line).len() == 0 || starts_with_spec(trim_start_spec(line), "#"@)
}

fn split_last_number(s: &[char]) -> (r: Option<(&[char], usize)>)
    ensures
        match r {
            Some((rest, n)) => last_number(s@) == Some((rest@, n)),
            None => last_number(s@) is None,
        },
{
    match rsplit_once(s, ' ') {
        None => None,
        Some((rest, w)) => match parse_usize(w) {
            None => None,
            Some(n) => Some((rest, n)),
        },
    }
}

fn parse_shape_chars(s: &[char]) -> (r: Option<Vec<usize>>)
    ensures
        match r {
            Some(v) => parse_shape(s@) == Some(v@),
            None => parse_shape(s@) is None,
        },
{
    let mut shape: Vec<usize> = Vec::new();
    if s.len() == 0 {
        assert(shape@ =~= Seq::empty());
        return Some(shape);
    }
    let ws = split(s, ',');
    let n = ws.len();
    let ghost ts = texts(ws@);
    assert(ts.take(0) =~= Seq::empty());
    assert(shape@ =~= Seq::empty());
    for i in 0..n
        invariant
            n == ws@.len(),
            ts == texts(ws@),
            ts == split_spec(s@, ','),
            s@.len() > 0,
            parse_all(ts.take(i as int)) == Some(shape@),
    {
        assert(ts.take(i + 1).drop_last() =~= ts.take(i as int));
        assert(ts.take(i + 1).last() == ws@[i as int]@);
        match parse_usize(ws[i]) {
            None => {
                proof {
                    lemma_parse_all_fails(ts, i + 1);
                }
                return None;
            },
            Some(d) => {
                shape.push(d);
            },
        }
    }
    assert(ts.take(n as int) =~= ts);
    Some(shape)
}

proof fn lemma_parse_all_fails(ws: Seq<Seq<char>>, k: int)
    requires
        0 <= k <= ws.len(),
        parse_all(ws.take(k)) is None,
    ensures
        parse_all(ws) is None,
    decreases ws.len() - k,
{
    if k == ws.len() {
        assert(ws.take(k) =~= ws);
    } else {
        assert(ws.take(k + 1).drop_last() =~= ws.take(k));
        lemma_parse_all_fails(ws, k + 1);
    }
}

fn parse_entry_head(
    head: &[char],
    off: usize,
    len: usize,
    quant: Option<(usize, usize)>,
) -> (r: Option<Entry>)
    ensures
        match r {
            Some(e) => entry_head(head@, off, len, quant) == Some(e@),
            None => entry_head(head@, off, len, quant) is None,
        },
{
    match rsplit_once(head, ' ') {
        None => None,
        Some((name, shape)) => match parse_shape_chars(shape) {
            None => None,
            Some(shape) => Some(Entry { name: from_chars(name), shape, off, len, quant }),
        },
    }
}

/// The tensor that a manifest line describes.
pub fn parse_entry(line: &[char], int8: bool) -> (r: Option<Entry>)
    ensures
        match r {
            Some(e) => entry_spec(line@, int8) == Some(e@),
            None => entry_spec(line@, int8) is None,
        },
{
    if int8 {
        let (s, block) = match split_last_number(line) {
            None => return None,
            Some(p) => p,
        };
        let (s, soff) = match split_last_number(s) {
            None => return None,
            Some(p) => p,
        };
        let (s, len) = match split_last_number(s) {
            None => return None,
            Some(p) => p,
        };
        let (head, off) = match split_last_number(s) {
            None => return None,
            Some(p) => p,
        };
        parse_entry_head(head, off, len, Some((soff, block)))
    } else {
        let (s, len) = match split_last_number(line) {
            None => return None,
            Some(p) => p,
        };
        let (head, off) = match split_last_number(s) {
            None => return None,
            Some(p) => p,
        };
        parse_entry_head(head, off, len, None)
    }
}

// ------------------------------------------------------------------ loading

/// Where a tensor lies in the arena, and its shape.
pub struct TensorView {
    pub shape: Seq<usize>,
    pub off: nat,
    pub len: nat,
}

/// Where a tensor lies in the arena, and its shape.
pub struct Tensor {
    pub shape: Vec<usize>,
    pub off: usize,
    pub len: usize,
}

impl View for Tensor {
    type V = TensorView;

    open spec fn view(&self) -> TensorView {
        TensorView { shape: self.shape@, off: self.off as nat, len: self.len as nat }
    }
}

/// An arena and the tensors in it.
pub struct ArenaView {
    pub data: Seq<F32>,
    pub tensors: Map<Seq<char>, TensorView>,
}

impl ArenaView {
    /// Every tensor lies inside the arena.
    pub open spec fn wf(self) -> bool {
        forall|name: Seq<char>| #[trigger]
            self.tensors.contains_key(name) ==> self.tensors[name].off + self.tensors[name].len
                <= self.data.len()
    }

    /// A tensor's numbers.
    pub open spec fn tensor(self, name: Seq<char>) -> Seq<F32> {
        let t = self.tensors[name];
        self.data.subrange(t.off as int, (t.off + t.len) as int)
    }
}

/// Whether the blob holds eight-bit codes.
pub open spec fn is_int8(dtype: Dtype) -> bool {
    dtype is Int8
}

/// The table of scales behind the int8 codes.
pub open spec fn scale_table(bin: Seq<u8>, dtype: Dtype) -> Seq<F32> {
    match dtype {
        Dtype::Int8 { payload } => floats_of(bin.skip(payload as int)),
        _ => Seq::empty(),
    }
}

/// The arena before the manifest lines are read, or what is wrong with the blob. A binary32 or
/// binary16 blob is decoded whole; for int8 the arena is filled tensor by tensor.
pub open spec fn blob_spec(bin: Seq<u8>, dtype: Dtype) -> Result<Seq<F32>, Seq<char>> {
    match dtype {
        Dtype::Int8 { payload } => if (bin.len() - payload) % 4 != 0 {
            Err("int8 scale table is not a multiple of 4 bytes"@)
        } else {
            Ok(zeros(payload as nat))
        },
        Dtype::F16 => if bin.len() % 2 != 0 {
            Err("f16 blob length is not a multiple of 2"@)
        } else {
            Ok(halves_of(bin))
        },
        Dtype::F32 => if bin.len() % 4 != 0 {
            Err("f32 blob length is not a multiple of 4"@)
        } else {
            Ok(floats_of(bin))
        },
    }
}

/// How many blocks of `block` cover `len` weights.
pub open spec fn block_count(len: int, block: int) -> int {
    (len + block - 1) / block
}

/// The weight at arena position `i` of a quantised tensor at `off`: its code times the scale of
/// its block.
pub open spec fn dequantised(
    bin: Seq<u8>,
    scales: Seq<F32>,
    off: int,
    soff: int,
    block: int,
    i: int,
) -> F32 {
    F32::of_int(code_of(bin[i])).mul_spec(scales[soff + (i - off) / block])
}

/// The arena after a tensor has been taken in, or what is wrong with the tensor.
pub open spec fn place_spec(
    bin: Seq<u8>,
    scales: Seq<F32>,
    data: Seq<F32>,
    e: EntryView,
) -> Result<Seq<F32>, Seq<char>> {
    if e.off + e.len > data.len() {
        Err("tensor "@ + e.name + " runs past end of blob"@)
    } else {
        match e.quant {
            None => Ok(data),
            Some((soff, block)) => if block == 0 {
                Err("tensor "@ + e.name + " has a zero block length"@)
            } else if soff + block_count(e.len as int, block as int) > scales.len() {
                Err("tensor "@ + e.name + " runs past the scale table"@)
            } else {
                Ok(
                    Seq::new(
                        data.len(),
                        |i: int|
                            if e.off <= i < e.off + e.len {
                                dequantised(
                                    bin,
                                    scales,
                                    e.off as int,
                                    soff as int,
                                    block as int,
                                    i,
                                )
                            } else {
                                data[i]
                            },
                    ),
                )
            },
        }
    }
}

/// The arena after manifest line number `n` (counted from 1), or what is wrong with the line.
pub open spec fn line_spec(
    bin: Seq<u8>,
    dtype: Dtype,
    a: ArenaView,
    line: Seq<char>,
    n: nat,
) -> Result<ArenaView, Seq<char>> {
    if is_comment(line) {
        Ok(a)
    } else {
        match entry_spec(line, is_int8(dtype)) {
            None => Err("malformed manifest line "@ + decimal(n) + ": "@ + debug_text(line)),
            Some(e) => match place_spec(bin, scale_table(bin, dtype), a.data, e) {
                Err(m) => Err(m),
                Ok(data) => Ok(
                    ArenaView {
                        data,
                        tensors: a.tensors.insert(
                            e.name,
                            TensorView { shape: e.shape, off: e.off as nat, len: e.len as nat },
                        ),
                    },
                ),
            },
        }
    }
}

/// The arena after the first `k` lines, or the first thing that is wrong with them.
pub open spec fn lines_loaded(
    bin: Seq<u8>,
    dtype: Dtype,
    data: Seq<F32>,
    ls: Seq<Seq<char>>,
    k: nat,
) -> Result<ArenaView, Seq<char>>
    decreases k,
{
    if k == 0 {
        Ok(ArenaView { data, tensors: Map::empty() })
    } else {
        match lines_loaded(bin, dtype, data, ls, (k - 1) as nat) {
            Err(m) => Err(m),
            Ok(a) => line_spec(bin, dtype, a, ls[k - 1], k),
        }
    }
}

/// The arena that a blob and its manifest describe, or the first thing that is wrong with them.
pub open spec fn load_spec(bin: Seq<u8>, manifest: Seq<char>) -> Result<ArenaView, Seq<char>> {
    match dtype_spec(manifest, bin.len()) {
        Err(m) => Err(m),
        Ok(dtype) => match blob_spec(bin, dtype) {
            Err(m) => Err(m),
            Ok(data) => {
                let ls = lines_spec(manifest);
                match lines_loaded(bin, dtype, data, ls, ls.len()) {
                    Err(m) => Err(m),
                    Ok(a) => if a.tensors.is_empty() {
                        Err("manifest contained no tensors"@)
                    } else {
                        Ok(a)
                    },
                }
            },
        },
    }
}

/// A flat arena of every tensor in the model, addressed by name.
///
/// The manifest is a text with one line per tensor,
/// `<graph>/<name> <shape,comma,sep> <offset_in_elements> <numel>`, with two extra fields for
/// int8, `<scale_off> <block>`. Blank lines and lines that start with `#` are skipped.
pub struct Weights {
    data: Vec<F32>,
    map: StringHashMap<Tensor>,
    halves: bool,
}

impl View for Weights {
    type V = ArenaView;

    closed spec fn view(&self) -> ArenaView {
        ArenaView { data: self.data@, tensors: tensor_views(self.map@) }
    }
}

/// The tensors' views.
pub open spec fn tensor_views(m: Map<Seq<char>, Tensor>) -> Map<Seq<char>, TensorView> {
    Map::new(|name: Seq<char>| m.contains_key(name), |name: Seq<char>| m[name]@)
}

fn tensor_error(name: &String, what: &str) -> (r: Error)
    ensures
        r matches Error::Weights(m) && m@ == "tensor "@ + name@ + what@,
{
    let mut m = "tensor ".to_owned();
    m.append(name.as_str());
    m.append(what);
    Error::Weights(m)
}

fn line_error(line: &[char], n: usize) -> (r: Error)
    ensures
        r matches Error::Weights(m) && m@ == "malformed manifest line "@ + decimal(n as nat) + ": "@
            + debug_text(line@),
{
    let mut m = "malformed manifest line ".to_owned();
    push_decimal(&mut m, n);
    m.append(": ");
    m.append(debug_str(from_chars(line).as_str()).as_str());
    Error::Weights(m)
}

fn count_blocks(len: usize, block: usize) -> (r: usize)
    requires
        block > 0,
    ensures
        r == block_count(len as int, block as int),
{
    if len == 0 {
        proof {
            lemma_basic_div(block - 1, block as int);
        }
        0
    } else {
        proof {
            lemma_div_plus_one(len - 1, block as int);
            lemma_div_nonincreasing(len - 1, block as int);
        }
        (len - 1) / block + 1
    }
}

/// Takes a tensor into the arena.
fn place(bin: &[u8], scales: &Vec<F32>, data: &mut Vec<F32>, e: &Entry) -> (r: Result<(), Error>)
    requires
        e.quant is Some ==> old(data)@.len() <= bin@.len(),
    ensures
        match r {
            Ok(()) => place_spec(bin@, scales@, old(data)@, e@) == Ok::<Seq<F32>, Seq<char>>(
                final(data)@,
            ),
            Err(x) => x matches Error::Weights(m) && place_spec(bin@, scales@, old(data)@, e@)
                == Err::<Seq<F32>, Seq<char>>(m@),
        },
{
    if e.len > data.len() || e.off > data.len() - e.len {
        return Err(tensor_error(&e.name, " runs past end of blob"));
    }
    match e.quant {
        None => Ok(()),
        Some((soff, block)) => {
            if block == 0 {
                return Err(tensor_error(&e.name, " has a zero block length"));
            }
            let nb = count_blocks(e.len, block);
            if nb > scales.len() || soff > scales.len() - nb {
                return Err(tensor_error(&e.name, " runs past the scale table"));
            }
            let off = e.off;
            let len = e.len;
            let total = data.len();
            let entries = scales.len();
            for i in 0..len
                invariant
                    block > 0,
                    total == data@.len(),
                    entries == scales@.len(),
                    nb == block_count(len as int, block as int),
                    soff + nb <= scales@.len(),
                    off + len <= data@.len(),
                    data@.len() == old(data)@.len(),
                    data@.len() <= bin@.len(),
                    forall|j: int|
                        0 <= j < data@.len() ==> #[trigger] data@[j] == if off <= j < off + i {
                            dequantised(bin@, scales@, off as int, soff as int, block as int, j)
                        } else {
                            old(data)@[j]
                        },
            {
                proof {
                    lemma_div_is_ordered(i as int, len - 1, block as int);
                    lemma_div_plus_one(len - 1, block as int);
                }
                let b = bin[off + i];
                let code: i64 = if b < 128 {
                    b as i64
                } else {
                    b as i64 - 256
                };
                let w = F32::from_i64(code).mul(scales[soff + i / block]);
                data.set(off + i, w);
            }
            proof {
                let want = place_spec(bin@, scales@, old(data)@, e@)->Ok_0;
                assert(data@ =~= want);
            }
            Ok(())
        },
    }
}

proof fn lemma_lines_fail(
    bin: Seq<u8>,
    dtype: Dtype,
    data: Seq<F32>,
    ls: Seq<Seq<char>>,
    k: nat,
    n: nat,
)
    requires
        k <= n,
        lines_loaded(bin, dtype, data, ls, k) is Err,
    ensures
        lines_loaded(bin, dtype, data, ls, n) == lines_loaded(bin, dtype, data, ls, k),
    decreases n,
{
    if k < n {
        lemma_lines_fail(bin, dtype, data, ls, k, (n - 1) as nat);
    }
}

proof fn lemma_lines_keep_len(
    bin: Seq<u8>,
    dtype: Dtype,
    data: Seq<F32>,
    ls: Seq<Seq<char>>,
    k: nat,
)
    ensures
        lines_loaded(bin, dtype, data, ls, k) matches Ok(a) ==> a.data.len() == data.len()
            && a.wf(),
    decreases k,
{
    if k > 0 {
        lemma_lines_keep_len(bin, dtype, data, ls, (k - 1) as nat);
    }
}

impl Weights {
    #[verifier::type_invariant]
    spec fn inv(self) -> bool {
        self@.wf()
    }

    /// Whether the weights came from a binary16 blob.
    pub closed spec fn is_f16_spec(self) -> bool {
        self.halves
    }

    /// Loads from a raw little-endian weight blob and its manifest text.
    ///
    /// The blob is binary32 unless the manifest's first line says otherwise:
    ///
    /// - `#dtype f16`: binary16, widened here.
    /// - `#dtype int8 payload <n>`: the first `n` bytes are int8 codes, the rest is a table of
    ///   binary32 scales, and a weight is recovered as `q[i] * scale[scale_off + i / block]`.
    pub fn from_bytes(bin: &[u8], manifest: &str) -> (r: Result<Weights, Error>)
        ensures
            match r {
                Ok(w) => load_spec(bin@, manifest@) == Ok::<ArenaView, Seq<char>>(w@)
                    && w.is_f16_spec() == (dtype_spec(manifest@, bin@.len()) == Ok::<
                    Dtype,
                    Seq<char>,
                >(Dtype::F16)),
                Err(e) => e matches Error::Weights(m) && load_spec(bin@, manifest@) == Err::<
                    ArenaView,
                    Seq<char>,
                >(m@),
            },
    {
        let text = to_chars(manifest);
        let n = bin.len();
        let dtype = match parse_dtype(text.as_slice(), n) {
            Err(e) => return Err(e),
            Ok(d) => d,
        };
        let mut scales: Vec<F32> = Vec::new();
        let mut data: Vec<F32> = Vec::new();
        match dtype {
            Dtype::Int8 { payload } => {
                if (n - payload) % 4 != 0 {
                    return Err(
                        Error::Weights("int8 scale table is not a multiple of 4 bytes".to_owned()),
                    );
                }
                assert(bin@.subrange(payload as int, n as int) =~= bin@.skip(payload as int));
                scales = floats_from_le(&bin[payload..n]);
                data = vec![F32::zero();payload];
                assert(data@ =~= zeros(payload as nat));
            },
            Dtype::F16 => {
                if n % 2 != 0 {
                    return Err(Error::Weights("f16 blob length is not a multiple of 2".to_owned()));
                }
                data = halves_from_le(bin);
            },
            Dtype::F32 => {
                if n % 4 != 0 {
                    return Err(Error::Weights("f32 blob length is not a multiple of 4".to_owned()));
                }
                data = floats_from_le(bin);
            },
        }
        assert(scales@ =~= scale_table(bin@, dtype));
        let int8 = match dtype {
            Dtype::Int8 { .. } => true,
            _ => false,
        };
        let ghost data0 = data@;
        let mut map: StringHashMap<Tensor> = StringHashMap::new();
        let ls = lines(text.as_slice());
        let count = ls.len();
        let ghost gl = lines_spec(manifest@);
        assert(gl == texts(ls@));
        assert(tensor_views(map@) =~= Map::empty());
        for i in 0..count
            invariant
                count == ls@.len(),
                gl == texts(ls@),
                gl == lines_spec(manifest@),
                scales@ == scale_table(bin@, dtype),
                int8 == is_int8(dtype),
                int8 ==> data0.len() <= bin@.len(),
                dtype_spec(manifest@, bin@.len()) == Ok::<Dtype, Seq<char>>(dtype),
                blob_spec(bin@, dtype) == Ok::<Seq<F32>, Seq<char>>(data0),
                lines_loaded(bin@, dtype, data0, gl, i as nat) == Ok::<ArenaView, Seq<char>>(
                    ArenaView { data: data@, tensors: tensor_views(map@) },
                ),
        {
            proof {
                lemma_lines_keep_len(bin@, dtype, data0, gl, i as nat);
                assert(gl[i as int] == ls@[i as int]@);
            }
            let line = ls[i];
            let ghost before = ArenaView { data: data@, tensors: tensor_views(map@) };
            let skip = trim(line).len() == 0 || starts_with(trim_start(line), "#");
            if !skip {
                match parse_entry(line, int8) {
                    None => {
                        proof {
                            lemma_lines_fail(bin@, dtype, data0, gl, (i + 1) as nat, gl.len());
                        }
                        return Err(line_error(line, i + 1));
                    },
                    Some(e) => {
                        assert(e.quant is Some ==> int8);
                        match place(bin, &scales, &mut data, &e) {
                            Err(x) => {
                                proof {
                                    lemma_lines_fail(bin@, dtype, data0, gl, (i + 1) as nat, gl.len());
                                }
                                return Err(x);
                            },
                            Ok(()) => {},
                        }
                        let ghost ev = e@;
                        let t = Tensor { shape: e.shape, off: e.off, len: e.len };
                        let ghost tv = t@;
                        map.insert(e.name, t);
                        assert(tensor_views(map@) =~= before.tensors.insert(ev.name, tv));
                    },
                }
            }
        }
        proof {
            lemma_lines_keep_len(bin@, dtype, data0, gl, gl.len());
        }
        if map.is_empty() {
            assert(tensor_views(map@) =~= Map::empty());
            return Err(Error::Weights("manifest contained no tensors".to_owned()));
        }
        let halves = match dtype {
            Dtype::F16 => true,
            _ => false,
        };
        Ok(Weights { data, map, halves })
    }

    /// True if these weights came from a binary16 blob.
    pub fn is_f16(&self) -> (r: bool)
        ensures
            r == self.is_f16_spec(),
    {
        self.halves
    }

    /// A tensor's data by name.
    pub fn get(&self, name: &str) -> (r: Result<&[F32], Error>)
        ensures
            match r {
                Ok(s) => self@.tensors.contains_key(name@) && s@ == self@.tensor(name@) && s@.len()
                    == self@.tensors[name@].len,
                Err(e) => !self@.tensors.contains_key(name@) && (e matches Error::MissingTensor(m)
                    && m@ == name@),
            },
    {
        proof {
            use_type_invariant(self);
        }
        match self.map.get(name) {
            None => Err(Error::MissingTensor(name.to_owned())),
            Some(t) => {
                assert(self@.tensors.contains_key(name@));
                let total = self.data.len();
                assert(t.off + t.len <= total);
                Ok(&self.data[t.off..t.off + t.len])
            },
        }
    }

    /// A tensor's shape by name.
    pub fn shape(&self, name: &str) -> (r: Result<&[usize], Error>)
        ensures
            match r {
                Ok(s) => self@.tensors.contains_key(name@) && s@ == self@.tensors[name@].shape,
                Err(e) => !self@.tensors.contains_key(name@) && (e matches Error::MissingTensor(m)
                    && m@ == name@),
            },
    {
        match self.map.get(name) {
            None => Err(Error::MissingTensor(name.to_owned())),
            Some(t) => Ok(t.shape.as_slice()),
        }
    }
}

/// Every tensor of a loaded arena lies inside the arena, so that no later read can fail.
pub proof fn law_loaded_tensors_lie_in_the_arena(bin: Seq<u8>, manifest: Seq<char>)
    ensures
        load_spec(bin, manifest) matches Ok(a) ==> a.wf(),
{
    let dtype = dtype_spec(manifest, bin.len());
    if dtype is Ok && blob_spec(bin, dtype->Ok_0) is Ok {
        let ls = lines_spec(manifest);
        lemma_lines_keep_len(bin, dtype->Ok_0, blob_spec(bin, dtype->Ok_0)->Ok_0, ls, ls.len());
    }
}

/// A binary32 or binary16 arena is the blob itself: no manifest line changes a number in it.
pub proof fn law_a_float_arena_is_its_blob(bin: Seq<u8>, manifest: Seq<char>, dtype: Dtype)
    requires
        dtype_spec(manifest, bin.len()) == Ok::<Dtype, Seq<char>>(dtype),
        !is_int8(dtype),
    ensures
        load_spec(bin, manifest) matches Ok(a) ==> blob_spec(bin, dtype) == Ok::<
            Seq<F32>,
            Seq<char>,
        >(a.data),
{
    if blob_spec(bin, dtype) is Ok {
        let ls = lines_spec(manifest);
        lemma_float_lines_keep_data(bin, dtype, blob_spec(bin, dtype)->Ok_0, ls, ls.len());
    }
}

proof fn lemma_float_lines_keep_data(
    bin: Seq<u8>,
    dtype: Dtype,
    data: Seq<F32>,
    ls: Seq<Seq<char>>,
    k: nat,
)
    requires
        !is_int8(dtype),
    ensures
        lines_loaded(bin, dtype, data, ls, k) matches Ok(a) ==> a.data == data,
    decreases k,
{
    if k > 0 {
        lemma_float_lines_keep_data(bin, dtype, data, ls, (k - 1) as nat);
    }
}

/// Whether a manifest line touches none of the cells of another entry and does not take its name.
pub open spec fn leaves_alone(line: Seq<char>, e: EntryView) -> bool {
    is_comment(line) || match entry_spec(line, true) {
        None => true,
        Some(d) => d.name != e.name && (d.off + d.len <= e.off || e.off + e.len <= d.off),
    }
}

/// What a manifest line stores in an int8 arena is what the loaded arena gives back: unless a
/// later line takes its name or its cells, the tensor `e` keeps its shape and place, and each of
/// its numbers is the code times the scale of its block.
pub proof fn law_int8_tensors_are_recovered(
    bin: Seq<u8>,
    payload: usize,
    data: Seq<F32>,
    ls: Seq<Seq<char>>,
    j: nat,
    n: nat,
    e: EntryView,
)
    requires
        j < n <= ls.len(),
        !is_comment(ls[j as int]),
        entry_spec(ls[j as int], true) == Some(e),
        forall|i: int| j < i < n ==> leaves_alone(#[trigger] ls[i], e),
    ensures
        lines_loaded(bin, Dtype::Int8 { payload }, data, ls, n) matches Ok(a) ==> {
            &&& e.quant matches Some((soff, block)) && a.tensors.contains_key(e.name)
            &&& a.tensors[e.name] == TensorView {
                shape: e.shape,
                off: e.off as nat,
                len: e.len as nat,
            }
            &&& forall|i: int|
                e.off <= i < e.off + e.len ==> #[trigger] a.data[i] == dequantised(
                    bin,
                    scale_table(bin, Dtype::Int8 { payload }),
                    e.off as int,
                    e.quant->Some_0.0 as int,
                    e.quant->Some_0.1 as int,
                    i,
                )
        },
    decreases n,
{
    let dtype = Dtype::Int8 { payload };
    let prev = lines_loaded(bin, dtype, data, ls, (n - 1) as nat);
    let next = lines_loaded(bin, dtype, data, ls, n);
    lemma_lines_keep_len(bin, dtype, data, ls, (n - 1) as nat);
    if next is Ok {
        assert(prev is Ok);
        assert(next == line_spec(bin, dtype, prev->Ok_0, ls[n - 1], n));
    }
    if j + 1 < n {
        law_int8_tensors_are_recovered(bin, payload, data, ls, j, (n - 1) as nat, e);
        assert(leaves_alone(ls[n - 1], e));
    }
}

} // verus!
