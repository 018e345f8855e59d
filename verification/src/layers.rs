//! What the stages of the model are made of: layers over a weight bank, and the two orders in
//! which a feature map is laid out.
use vstd::arithmetic::mul::*;
use vstd::prelude::*;

use crate::bank::{gl_fits, product, BankView, WeightBank};
use crate::float::F32;
use crate::nn::{dw_conv13, dw_conv13_of, pointwise, pointwise_of, relu_, relu_seq, strided};
use crate::rows::{lemma_place, lemma_rows_len, rows};

verus! {

/// Whether the named tensor holds at least `n` numbers.
pub open spec fn holds(b: BankView, name: Seq<char>, n: int) -> bool {
    n <= b.w.tensors[name].len
}

/// Whether the named tensor is one of those that the bank was asked for.
pub open spec fn has(b: BankView, name: Seq<char>) -> bool {
    b.names.contains(name)
}

/// `a + b`, over the places that both have.
pub open spec fn added(a: Seq<F32>, b: Seq<F32>) -> Seq<F32> {
    Seq::new(
        a.len(),
        |i: int|
            if i < b.len() {
                a[i].add_spec(b[i])
            } else {
                a[i]
            },
    )
}

/// `a += b`, over the places that both have.
pub fn add_to(a: &mut [F32], b: &[F32])
    ensures
        final(a)@ == added(old(a)@, b@),
{
    let n = if a.len() < b.len() {
        a.len()
    } else {
        b.len()
    };
    for i in 0..n
        invariant
            a@.len() == old(a)@.len(),
            n <= a@.len(),
            n <= b@.len(),
            n == a@.len() || n == b@.len(),
            forall|j: int|
                0 <= j < a@.len() ==> #[trigger] a@[j] == if j < i {
                    old(a)@[j].add_spec(b@[j])
                } else {
                    old(a)@[j]
                },
    {
        a[i] = a[i].add(b[i]);
    }
    assert(a@ =~= added(old(a)@, b@));
}

/// The channels at frequency `f` of frame `ti` of a map `(C, T, F)`.
pub open spec fn channels_at(x: Seq<F32>, c: nat, t: int, f: int, ti: int) -> spec_fn(int) -> Seq<
    F32,
> {
    |fi: int| Seq::new(c, |ch: int| x[(ch * t + ti) * f + fi])
}

/// The frames of a map `(C, T, F)`.
pub open spec fn frames_of(x: Seq<F32>, c: nat, t: int, f: nat) -> spec_fn(int) -> Seq<F32> {
    |ti: int| rows(f, channels_at(x, c, t, f as int, ti))
}

/// A map `(C, T, F)` frame by frame: shape `[T, F, C]`.
pub open spec fn frames_first_of(x: Seq<F32>, c: nat, t: nat, f: nat) -> Seq<F32> {
    rows(t, frames_of(x, c, t as int, f))
}

/// A map `(C, T, F)` frame by frame: shape `[T, F, C]`.
pub fn frames_first(x: &[F32], c: usize, t: usize, f: usize) -> (y: Vec<F32>)
    requires
        c * t * f <= x@.len(),
        c * t <= usize::MAX,
    ensures
        y@ == frames_first_of(x@, c as nat, t as nat, f as nat),
        y@.len() == t * (f * c),
{
    let mut y: Vec<F32> = Vec::new();
    let ghost g = frames_of(x@, c as nat, t as int, f as nat);
    for ti in 0..t
        invariant
            c * t * f <= x@.len(),
            c * t <= usize::MAX,
            g == frames_of(x@, c as nat, t as int, f as nat),
            y@ == rows(ti as nat, g),
    {
        let ghost y0 = y@;
        let ghost q = channels_at(x@, c as nat, t as int, f as int, ti as int);
        for fi in 0..f
            invariant
                ti < t,
                c * t * f <= x@.len(),
                c * t <= usize::MAX,
                q == channels_at(x@, c as nat, t as int, f as int, ti as int),
                y@ == y0 + rows(fi as nat, q),
        {
            let ghost y1 = y@;
            for ch in 0..c
                invariant
                    ti < t,
                    fi < f,
                    c * t * f <= x@.len(),
                    c * t <= usize::MAX,
                    y@ == y1 + Seq::new(ch as nat, |k: int| x@[(k * t + ti) * f + fi]),
            {
                let total = x.len();
                proof {
                    lemma_place(ch as int, ti as int, c as int, t as int);
                    lemma_place(ch * t + ti, fi as int, c * t, f as int);
                }
                y.push(x[(ch * t + ti) * f + fi]);
                assert(y@ =~= y1 + Seq::new((ch + 1) as nat, |k: int| x@[(k * t + ti) * f + fi]));
            }
            assert(q(fi as int) =~= Seq::new(c as nat, |k: int| x@[(k * t + ti) * f + fi]));
            assert(y@ =~= y0 + rows((fi + 1) as nat, q));
        }
        assert(y@ =~= rows((ti + 1) as nat, g));
    }
    proof {
        lemma_frames_first_len(x@, c as nat, t as nat, f as nat);
    }
    y
}

pub proof fn lemma_frames_first_len(x: Seq<F32>, c: nat, t: nat, f: nat)
    ensures
        frames_first_of(x, c, t, f).len() == t * (f * c),
        forall|ti: int| 0 <= ti < t ==> (#[trigger] frames_of(x, c, t as int, f)(ti)).len() == f * c,
{
    let g = frames_of(x, c, t as int, f);
    assert forall|ti: int| 0 <= ti < t implies (#[trigger] g(ti)).len() == f * c by {
        lemma_rows_len(f, c as int, channels_at(x, c, t as int, f as int, ti));
    }
    lemma_rows_len(t, (f * c) as int, g);
}

/// Row `ti` of channel `ch` of a `[T, F, C]` array.
pub open spec fn plane_rows(x: Seq<F32>, c: int, f: nat, ch: int) -> spec_fn(int) -> Seq<F32> {
    |ti: int| Seq::new(f, |fi: int| x[ti * (f * c) + (fi * c + ch)])
}

/// The channels of a `[T, F, C]` array.
pub open spec fn planes_of(x: Seq<F32>, c: int, t: nat, f: nat) -> spec_fn(int) -> Seq<F32> {
    |ch: int| rows(t, plane_rows(x, c, f, ch))
}

/// A `[T, F, C]` array channel by channel: a map `(C, T, F)`.
pub open spec fn channels_first_of(x: Seq<F32>, c: nat, t: nat, f: nat) -> Seq<F32> {
    rows(c, planes_of(x, c as int, t, f))
}

/// A `[T, F, C]` array channel by channel: a map `(C, T, F)`.
pub fn channels_first(x: &[F32], c: usize, t: usize, f: usize) -> (y: Vec<F32>)
    requires
        t * (f * c) <= x@.len(),
        f * c <= usize::MAX,
    ensures
        y@ == channels_first_of(x@, c as nat, t as nat, f as nat),
        y@.len() == c * t * f,
{
    let mut y: Vec<F32> = Vec::new();
    let fc = f * c;
    let ghost g = planes_of(x@, c as int, t as nat, f as nat);
    for ch in 0..c
        invariant
            fc == f * c,
            t * fc <= x@.len(),
            g == planes_of(x@, c as int, t as nat, f as nat),
            y@ == rows(ch as nat, g),
    {
        let ghost y0 = y@;
        let ghost q = plane_rows(x@, c as int, f as nat, ch as int);
        for ti in 0..t
            invariant
                ch < c,
                fc == f * c,
                t * fc <= x@.len(),
                q == plane_rows(x@, c as int, f as nat, ch as int),
                y@ == y0 + rows(ti as nat, q),
        {
            let ghost y1 = y@;
            for fi in 0..f
                invariant
                    ch < c,
                    ti < t,
                    fc == f * c,
                    t * fc <= x@.len(),
                    y@ == y1 + Seq::new(fi as nat, |k: int| x@[ti * (f * c) + (k * c + ch)]),
            {
                let total = x.len();
                proof {
                    lemma_place(fi as int, ch as int, f as int, c as int);
                    lemma_place(ti as int, fi * c + ch, t as int, fc as int);
                }
                y.push(x[ti * fc + (fi * c + ch)]);
                assert(y@ =~= y1 + Seq::new(
                    (fi + 1) as nat,
                    |k: int| x@[ti * (f * c) + (k * c + ch)],
                ));
            }
            assert(q(ti as int) =~= Seq::new(
                f as nat,
                |k: int| x@[ti * (f * c) + (k * c + ch)],
            ));
            assert(y@ =~= y0 + rows((ti + 1) as nat, q));
        }
        assert(y@ =~= rows((ch + 1) as nat, g));
    }
    proof {
        lemma_channels_first_len(x@, c as nat, t as nat, f as nat);
    }
    y
}

pub proof fn lemma_channels_first_len(x: Seq<F32>, c: nat, t: nat, f: nat)
    ensures
        channels_first_of(x, c, t, f).len() == c * t * f,
        forall|ch: int|
            0 <= ch < c ==> (#[trigger] planes_of(x, c as int, t, f)(ch)).len() == t * f,
{
    let g = planes_of(x, c as int, t, f);
    assert forall|ch: int| 0 <= ch < c implies (#[trigger] g(ch)).len() == t * f by {
        lemma_rows_len(t, f as int, plane_rows(x, c as int, f, ch));
    }
    lemma_rows_len(c, (t * f) as int, g);
    lemma_mul_is_associative(c as int, t as int, f as int);
}

/// A 1x1 convolution of 16 channels with the named weight and bias, then the rectifier.
pub open spec fn mixed_of(
    b: BankView,
    x: Seq<F32>,
    tf: nat,
    pw: Seq<char>,
    pb: Seq<char>,
    cout: nat,
) -> Seq<F32> {
    relu_seq(pointwise_of(x, 16, tf, b.w.tensor(pw), Some(b.w.tensor(pb)), cout))
}

/// Whether the weight and bias of a 1x1 convolution are there.
pub open spec fn mix_fits(b: BankView, pw: Seq<char>, pb: Seq<char>, cout: int) -> bool {
    holds(b, pw, cout * 16) && holds(b, pb, cout)
}

/// A 1x1 convolution of 16 channels with the named weight and bias, then the rectifier.
pub fn mixed(bank: &WeightBank, x: &[F32], tf: usize, pw: &str, pb: &str, cout: usize) -> (y: Vec<
    F32,
>)
    requires
        has(bank@, pw@),
        has(bank@, pb@),
        mix_fits(bank@, pw@, pb@, cout as int),
        16 * tf <= x@.len(),
    ensures
        y@ == mixed_of(bank@, x@, tf as nat, pw@, pb@, cout as nat),
        y@.len() == cout * tf,
{
    let mut y = pointwise(x, 16, tf, bank.t(pw), Some(bank.t(pb)), cout);
    relu_(y.as_mut_slice());
    y
}

/// A depthwise convolution of 16 channels, a 1x1 convolution, and the rectifier.
pub open spec fn block_of(
    b: BankView,
    x: Seq<F32>,
    t: nat,
    f: int,
    dw: Seq<char>,
    pw: Seq<char>,
    pb: Seq<char>,
    stride: int,
) -> Seq<F32> {
    mixed_of(
        b,
        dw_conv13_of(x, 16, t, f, b.w.tensor(dw), stride),
        t * strided(f, stride) as nat,
        pw,
        pb,
        16,
    )
}

/// A depthwise convolution of 16 channels, a 1x1 convolution, and the rectifier.
pub fn block(
    bank: &WeightBank,
    x: &[F32],
    t: usize,
    f: usize,
    dw: &str,
    pw: &str,
    pb: &str,
    stride: usize,
) -> (y: Vec<F32>)
    requires
        has(bank@, dw@),
        has(bank@, pw@),
        has(bank@, pb@),
        holds(bank@, dw@, 48),
        mix_fits(bank@, pw@, pb@, 16),
        0 < f <= 64,
        0 < stride,
        16 * t * f <= x@.len(),
        64 * (16 * t) <= usize::MAX,
    ensures
        y@ == block_of(bank@, x@, t as nat, f as int, dw@, pw@, pb@, stride as int),
        y@.len() == 16 * (t * strided(f as int, stride as int)),
{
    let (y, fo) = dw_conv13(x, 16, t, f, bank.t(dw), stride);
    proof {
        lemma_mul_is_associative(16, t as int, fo as int);
        lemma_strided_bound(f as int, stride as int);
        lemma_mul_inequality(fo as int, 64, t as int);
        lemma_mul_is_commutative(fo as int, t as int);
    }
    mixed(bank, y.as_slice(), t * fo, pw, pb, 16)
}

/// A stride never widens a row.
pub proof fn lemma_strided_bound(f: int, stride: int)
    requires
        f > 0,
        stride > 0,
    ensures
        1 <= strided(f, stride) <= f,
{
    vstd::arithmetic::div_mod::lemma_div_pos_is_pos(f - 1, stride);
    vstd::arithmetic::div_mod::lemma_div_nonincreasing(f - 1, stride);
}

/// How wide the rows of a grouped linear layer's output are.
pub open spec fn gl_width(b: BankView, name: Seq<char>) -> int {
    b.w.tensors[name].shape[0] * b.w.tensors[name].shape[2]
}

/// Whether the named weight is a `[G, I, H]` weight whose numbers are all there and which reads
/// rows of width at most `width`, for `t` frames.
pub open spec fn gl_sized(b: BankView, t: int, name: Seq<char>, width: int) -> bool {
    let s = b.w.tensors[name].shape;
    &&& s.len() >= 3
    &&& s[0] * s[1] <= width
    &&& s[1] * s[2] <= usize::MAX
    &&& s[0] * (s[1] * s[2]) <= b.w.tensors[name].len
    &&& t * s[0] <= usize::MAX
}

/// A weight that reads rows of width at most `width` can be applied to `t` rows of that width.
pub proof fn lemma_gl_sized(b: BankView, t: int, name: Seq<char>, width: int, x: nat)
    requires
        has(b, name),
        gl_sized(b, t, name, width),
        t >= 0,
        t * width <= x,
    ensures
        gl_fits(b.w, x, t, name),
{
    let s = b.w.tensors[name].shape;
    lemma_mul_is_associative(t, s[0] as int, s[1] as int);
    lemma_mul_inequality(s[0] * s[1], width, t);
    lemma_mul_is_commutative(s[0] * s[1], t);
    lemma_mul_is_commutative(width, t);
}

// ------------------------------------------------------------------ size checks

/// Whether the named tensor holds at least `n` numbers.
pub fn holds_at_least(bank: &WeightBank, name: &str, n: usize) -> (r: bool)
    requires
        has(bank@, name@),
    ensures
        r == holds(bank@, name@, n as int),
{
    bank.t(name).len() >= n
}

/// Whether the weight and bias of a 1x1 convolution from 16 channels are there.
pub fn mix_is_sized(bank: &WeightBank, pw: &str, pb: &str, cout: usize) -> (r: bool)
    requires
        has(bank@, pw@),
        has(bank@, pb@),
        cout <= 16,
    ensures
        r == mix_fits(bank@, pw@, pb@, cout as int),
{
    holds_at_least(bank, pw, cout * 16) && holds_at_least(bank, pb, cout)
}

/// How wide the rows of a grouped linear layer's output are.
pub fn output_width(bank: &WeightBank, name: &str) -> (r: u128)
    requires
        has(bank@, name@),
        bank@.w.tensors[name@].shape.len() >= 3,
    ensures
        r == gl_width(bank@, name@),
{
    let s = bank.shape(name);
    product(s[0], s[2])
}

/// Whether the named weight can be applied to `t` rows of width at most `width`.
pub fn gl_is_sized(bank: &WeightBank, t: usize, name: &str, width: u128) -> (r: bool)
    requires
        has(bank@, name@),
    ensures
        r == gl_sized(bank@, t as int, name@, width as int),
{
    let s = bank.shape(name);
    let n = bank.t(name).len();
    if s.len() < 3 {
        return false;
    }
    let ih = product(s[1], s[2]);
    if ih > usize::MAX as u128 {
        return false;
    }
    product(s[0], s[1]) <= width && product(s[0], ih as usize) <= n as u128 && product(t, s[0])
        <= usize::MAX as u128
}

/// Whether the named weight can be applied to `t` rows out of `x` numbers.
pub fn gl_is_fit(bank: &WeightBank, x: usize, t: usize, name: &str) -> (r: bool)
    requires
        has(bank@, name@),
    ensures
        r == gl_fits(bank@.w, x as nat, t as int, name@),
{
    let s = bank.shape(name);
    let n = bank.t(name).len();
    if s.len() < 3 {
        return false;
    }
    let ih = product(s[1], s[2]);
    let tg = product(t, s[0]);
    if ih > usize::MAX as u128 || tg > usize::MAX as u128 {
        return false;
    }
    product(tg as usize, s[1]) <= x as u128 && product(s[0], ih as usize) <= n as u128
}

} // verus!
