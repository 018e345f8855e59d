//! Products of eight-bit codes.
//!
//! Weights are signed codes times one scale, in panels of twelve rows and chunks of 32 codes.
//! Activations are signed codes too, shifted up by 128 to be unsigned. What the shift adds to a
//! product is 128 times the sum of the weight row, which is kept with the weights.
use vstd::arithmetic::div_mod::*;
use vstd::arithmetic::mul::*;
use vstd::prelude::*;

use crate::float::F32;
use crate::nn::PANEL;
use crate::rows::{lemma_place, lemma_row_fits, row_at, row_of};
use crate::tools::max_of;

verus! {

/// 127, the greatest code.
pub const CODE_MAX: u32 = 0x42fe_0000;

/// Codes in one chunk.
pub const CHUNK: usize = 32;

// ------------------------------------------------------------------ panels of any shape

/// Place `d` of a matrix of `rows` rows of width `k` in panels of `nb` rows and chunks of `ch`
/// numbers. What does not fill a panel or a chunk is left out, and its places hold `z`.
pub open spec fn tile_at<A>(
    m: Seq<A>,
    rows: int,
    k: int,
    nb: int,
    ch: int,
    z: A,
    d: int,
) -> A {
    let p = d / (nb * k);
    let r = d % (nb * k);
    let c = r / (ch * nb);
    let l = r % (ch * nb) / ch;
    let e = r % (ch * nb) % ch;
    if p < rows / nb && c < k / ch {
        m[(p * nb + l) * k + (c * ch + e)]
    } else {
        z
    }
}

/// A matrix in panels of `nb` rows and chunks of `ch` numbers.
pub open spec fn tiles_of<A>(m: Seq<A>, rows: int, k: int, nb: int, ch: int, z: A) -> Seq<A> {
    Seq::new((rows * k) as nat, |d: int| tile_at(m, rows, k, nb, ch, z, d))
}

proof fn lemma_tile(rows: int, k: int, nb: int, ch: int, d: int)
    requires
        0 <= d < rows * k,
        0 < k,
        0 < nb,
        0 < ch,
        d / (nb * k) < rows / nb,
        d % (nb * k) / (ch * nb) < k / ch,
    ensures
        0 <= d / (nb * k) * nb,
        0 <= d % (nb * k) % (ch * nb) / ch < nb,
        0 <= d / (nb * k) * nb + d % (nb * k) % (ch * nb) / ch < rows,
        0 <= d % (nb * k) / (ch * nb) * ch,
        0 <= d % (nb * k) % (ch * nb) % ch < ch,
        0 <= d % (nb * k) / (ch * nb) * ch + d % (nb * k) % (ch * nb) % ch < k,
{
    lemma_mul_strictly_positive(nb, k);
    lemma_mul_strictly_positive(ch, nb);
    let p = d / (nb * k);
    let r = d % (nb * k);
    let c = r / (ch * nb);
    let w = r % (ch * nb);
    let l = w / ch;
    let e = w % ch;
    lemma_mod_bound(d, nb * k);
    lemma_mod_bound(r, ch * nb);
    lemma_mod_bound(w, ch);
    lemma_div_pos_is_pos(d, nb * k);
    lemma_div_pos_is_pos(r, ch * nb);
    lemma_div_pos_is_pos(w, ch);
    lemma_fundamental_div_mod(w, ch);
    assert(l < nb) by (nonlinear_arith)
        requires
            w == ch * l + e,
            0 <= e,
            w < ch * nb,
            0 < ch,
    ;
    lemma_place(p, l, rows / nb, nb);
    lemma_fundamental_div_mod(rows, nb);
    lemma_mul_is_commutative(rows / nb, nb);
    lemma_mod_bound(rows, nb);
    lemma_place(c, e, k / ch, ch);
    lemma_fundamental_div_mod(k, ch);
    lemma_mul_is_commutative(k / ch, ch);
    lemma_mod_bound(k, ch);
}

/// A matrix in panels of `nb` rows and chunks of `ch` numbers.
pub fn tiles<A: Copy>(m: &[A], rows: usize, k: usize, nb: usize, ch: usize, z: A) -> (p: Vec<A>)
    requires
        0 < nb,
        0 < ch,
        rows * k <= m@.len(),
        nb * k <= usize::MAX,
        ch * nb <= usize::MAX,
    ensures
        p@ == tiles_of(m@, rows as int, k as int, nb as int, ch as int, z),
{
    let total = m.len();
    proof {
        lemma_mul_nonnegative(rows as int, k as int);
    }
    let n = rows * k;
    let mut p: Vec<A> = Vec::new();
    for d in 0..n
        invariant
            n == rows * k,
            n <= m@.len(),
            0 < nb,
            0 < ch,
            nb * k <= usize::MAX,
            ch * nb <= usize::MAX,
            p@ == Seq::new(
                d as nat,
                |i: int| tile_at(m@, rows as int, k as int, nb as int, ch as int, z, i),
            ),
    {
        let len = m.len();
        proof {
            if k == 0 {
                lemma_mul_basics(rows as int);
            }
            lemma_mul_strictly_positive(nb as int, k as int);
            lemma_mul_strictly_positive(ch as int, nb as int);
        }
        let panel = d / (nb * k);
        let r = d % (nb * k);
        let c = r / (ch * nb);
        let v = if panel < rows / nb && c < k / ch {
            proof {
                lemma_tile(rows as int, k as int, nb as int, ch as int, d as int);
            }
            let l = r % (ch * nb) / ch;
            let e = r % (ch * nb) % ch;
            proof {
                lemma_place(
                    panel * nb + l,
                    c * ch + e,
                    rows as int,
                    k as int,
                );
            }
            m[(panel * nb + l) * k + (c * ch + e)]
        } else {
            z
        };
        p.push(v);
        assert(p@ =~= Seq::new(
            (d + 1) as nat,
            |i: int| tile_at(m@, rows as int, k as int, nb as int, ch as int, z, i),
        ));
    }
    p
}

/// A matrix in panels of `nb` rows and chunks of eight numbers.
pub fn pack_n(m: &[F32], rows: usize, k: usize, nb: usize) -> (p: Vec<F32>)
    requires
        0 < nb,
        rows * k <= m@.len(),
        nb * k <= usize::MAX,
        8 * nb <= usize::MAX,
    ensures
        p@ == tiles_of(m@, rows as int, k as int, nb as int, 8, F32::zero_spec()),
{
    tiles(m, rows, k, nb, 8, F32::zero())
}

/// A matrix in panels of eight rows and chunks of eight numbers.
pub fn pack8(m: &[F32], rows: usize, k: usize) -> (p: Vec<F32>)
    requires
        rows * k <= m@.len(),
        8 * k <= usize::MAX,
    ensures
        p@ == tiles_of(m@, rows as int, k as int, 8, 8, F32::zero_spec()),
{
    pack_n(m, rows, k, 8)
}

// ------------------------------------------------------------------ codes

/// The greatest magnitude in the first `n` places.
pub open spec fn peak_of(m: Seq<F32>, n: nat) -> F32
    decreases n,
{
    if n == 0 {
        F32::zero_spec()
    } else {
        max_of(peak_of(m, (n - 1) as nat), m[n - 1].abs_spec())
    }
}

/// The scale that brings the greatest magnitude to code 127.
pub open spec fn scale_of(m: Seq<F32>) -> F32 {
    peak_of(m, m.len()).div_spec(F32 { bits: CODE_MAX })
}

/// The code of a number: the nearest multiple of the scale, between -127 and 127.
pub open spec fn code_of(v: F32, scale: F32) -> int {
    v.div_spec(scale).rounded_into(-127, 127)
}

/// The scale that brings the greatest magnitude to code 127.
pub fn scale(m: &[F32]) -> (r: F32)
    ensures
        r == scale_of(m@),
{
    let n = m.len();
    let mut peak = F32::zero();
    for i in 0..n
        invariant
            n == m@.len(),
            peak == peak_of(m@, i as nat),
    {
        let v = m[i].abs();
        if peak.is_nan() || peak.lt(v) {
            peak = v;
        }
    }
    peak.div(F32::from_bits(CODE_MAX))
}

/// The codes of numbers.
pub open spec fn codes_of(m: Seq<F32>, scale: F32) -> Seq<i8> {
    Seq::new(m.len(), |i: int| code_of(m[i], scale) as i8)
}

/// The codes of numbers.
pub fn codes(m: &[F32], scale: F32) -> (q: Vec<i8>)
    ensures
        q@ == codes_of(m@, scale),
        forall|i: int| 0 <= i < q@.len() ==> #[trigger] q@[i] == code_of(m@[i], scale),
{
    let n = m.len();
    let mut q: Vec<i8> = Vec::new();
    for i in 0..n
        invariant
            n == m@.len(),
            q@.len() == i,
            forall|k: int| 0 <= k < i ==> #[trigger] q@[k] == code_of(m@[k], scale),
    {
        let c = m[i].div(scale).round_into(-127, 127);
        q.push(c as i8);
    }
    assert(q@ =~= codes_of(m@, scale));
    q
}

/// The activations' codes, shifted up by 128.
pub open spec fn shifted_of(x: Seq<F32>, scale: F32) -> Seq<u8> {
    Seq::new(x.len(), |i: int| (code_of(x[i], scale) + 128) as u8)
}

/// The activations' codes, shifted up by 128.
pub fn shifted_codes(x: &[F32], scale: F32) -> (u: Vec<u8>)
    ensures
        u@.len() == x@.len(),
        forall|i: int| 0 <= i < u@.len() ==> #[trigger] u@[i] == code_of(x@[i], scale) + 128,
        u@ == shifted_of(x@, scale),
{
    let n = x.len();
    let mut u: Vec<u8> = Vec::new();
    for i in 0..n
        invariant
            n == x@.len(),
            u@.len() == i,
            forall|k: int| 0 <= k < i ==> #[trigger] u@[k] == code_of(x@[k], scale) + 128,
    {
        let c = x[i].div(scale).round_into(-127, 127);
        u.push((c + 128) as u8);
    }
    assert(u@ =~= shifted_of(x@, scale));
    u
}

/// The sum of the first `n` codes.
pub open spec fn code_sum(w: Seq<i8>, n: nat) -> int
    decreases n,
{
    if n == 0 {
        0
    } else {
        code_sum(w, (n - 1) as nat) + w[n - 1]
    }
}

/// The product of the first `n` shifted codes with the first `n` weight codes.
pub open spec fn shifted_dot(u: Seq<u8>, w: Seq<i8>, n: nat) -> int
    decreases n,
{
    if n == 0 {
        0
    } else {
        shifted_dot(u, w, (n - 1) as nat) + u[n - 1] * w[n - 1]
    }
}

/// The product of the first `n` codes with the first `n` weight codes.
pub open spec fn code_dot(a: Seq<int>, w: Seq<i8>, n: nat) -> int
    decreases n,
{
    if n == 0 {
        0
    } else {
        code_dot(a, w, (n - 1) as nat) + a[n - 1] * w[n - 1]
    }
}

/// Taking 128 times the weights' sum off the shifted product undoes the shift.
pub proof fn law_the_shift_is_undone(a: Seq<int>, u: Seq<u8>, w: Seq<i8>, n: nat)
    requires
        n <= a.len(),
        n <= u.len(),
        n <= w.len(),
        forall|i: int| 0 <= i < n ==> #[trigger] u[i] == a[i] + 128,
    ensures
        shifted_dot(u, w, n) - 128 * code_sum(w, n) == code_dot(a, w, n),
    decreases n,
{
    if n > 0 {
        law_the_shift_is_undone(a, u, w, (n - 1) as nat);
        let (x, y) = (a[n - 1], w[n - 1] as int);
        assert(u[n - 1] == x + 128);
        assert((x + 128) * y == x * y + 128 * y) by (nonlinear_arith);
    }
}

proof fn lemma_code_sum_bound(w: Seq<i8>, n: nat)
    ensures
        -128 * n <= code_sum(w, n) <= 127 * n,
    decreases n,
{
    if n > 0 {
        lemma_code_sum_bound(w, (n - 1) as nat);
    }
}

proof fn lemma_shifted_dot_bound(u: Seq<u8>, w: Seq<i8>, n: nat)
    ensures
        -32640 * n <= shifted_dot(u, w, n) <= 32640 * n,
    decreases n,
{
    if n > 0 {
        lemma_shifted_dot_bound(u, w, (n - 1) as nat);
        lemma_code_product(u[n - 1], w[n - 1]);
    }
}

proof fn lemma_code_product(u: u8, w: i8)
    ensures
        -32640 <= u * w <= 32640,
{
    assert(-32640 <= u * w <= 32640) by (nonlinear_arith)
        requires
            0 <= u <= 255,
            -128 <= w <= 127,
    ;
}

/// The codes of a matrix in panels of twelve rows and chunks of 32 codes, the sum of the codes of
/// each row, and the scale.
pub fn pack_i8(m: &[F32], rows: usize, k: usize) -> (r: (Vec<i8>, Vec<i32>, F32))
    requires
        rows * k <= m@.len(),
        12 * k <= usize::MAX,
        k <= 16_777_215,
    ensures
        r.2 == scale_of(m@),
        r.0@ == tiles_of(codes_of(m@, r.2), rows as int, k as int, 12, 32, 0i8),
        r.1@.len() == rows,
        forall|j: int|
            0 <= j < rows ==> #[trigger] r.1@[j] == code_sum(
                row_of(codes_of(m@, r.2), j, k as int),
                k as nat,
            ),
{
    let s = scale(m);
    let q = codes(m, s);
    let mut sums: Vec<i32> = Vec::new();
    for j in 0..rows
        invariant
            k <= 16_777_215,
            rows * k <= q@.len(),
            q@ == codes_of(m@, s),
            sums@.len() == j,
            forall|i: int|
                0 <= i < j ==> #[trigger] sums@[i] == code_sum(
                    row_of(codes_of(m@, s), i, k as int),
                    k as nat,
                ),
    {
        proof {
            lemma_row_fits(j as int, rows as int, k as int);
        }
        let row = row_at(q.as_slice(), j, k);
        let mut sum: i32 = 0;
        for i in 0..k
            invariant
                k <= 16_777_215,
                row@.len() == k,
                sum == code_sum(row@, i as nat),
        {
            proof {
                lemma_code_sum_bound(row@, i as nat);
            }
            sum = sum + row[i] as i32;
        }
        sums.push(sum);
    }
    let p = tiles(q.as_slice(), rows, k, PANEL, CHUNK, 0i8);
    (p, sums, s)
}

/// Where the panels of twelve rows and chunks of 32 codes keep code `i` of row `j`.
pub open spec fn code_index(j: int, i: int, k: int) -> int {
    j / 12 * (12 * k) + (i / 32 * 384 + (j % 12 * 32 + i % 32))
}

/// The whole chunks of row `j` of the matrix that the panels hold.
pub open spec fn code_row(p: Seq<i8>, k: int, j: int) -> Seq<i8> {
    Seq::new((k / 32 * 32) as nat, |i: int| p[code_index(j, i, k)])
}

/// Row `j` of the product: the exact product of the codes, with the shift undone, times both
/// scales.
pub open spec fn product_at(
    p: Seq<i8>,
    k: int,
    u: Seq<u8>,
    sums: Seq<i32>,
    wscale: F32,
    xscale: F32,
    j: int,
) -> F32 {
    F32::of_int(
        shifted_dot(u, code_row(p, k, j), (k / 32 * 32) as nat) - 128 * sums[j],
    ).mul_spec(wscale.mul_spec(xscale))
}

/// `out` with its first places replaced by the rows of the product, as far as they fill panels.
pub open spec fn products_of(
    p: Seq<i8>,
    rows: int,
    k: int,
    u: Seq<u8>,
    sums: Seq<i32>,
    wscale: F32,
    xscale: F32,
    out: Seq<F32>,
) -> Seq<F32> {
    Seq::new(
        out.len(),
        |j: int|
            if j < rows / 12 * 12 {
                product_at(p, k, u, sums, wscale, xscale, j)
            } else {
                out[j]
            },
    )
}

proof fn lemma_code_index(j: int, i: int, rows: int, k: int)
    requires
        0 <= j < rows / 12 * 12,
        0 <= i < k / 32 * 32,
    ensures
        0 <= j / 12 * (12 * k) <= code_index(j, i, k) < rows * k,
{
    lemma_place(j / 12, i / 32 * 384 + (j % 12 * 32 + i % 32), rows / 12, 12 * k);
    assert(rows / 12 * (12 * k) <= rows * k) by {
        lemma_mul_is_associative(rows / 12, 12, k);
        lemma_mul_inequality(rows / 12 * 12, rows, k);
    }
}

/// `out[j] = sum_i w[j][i] * x[i]` for the rows that fill panels, with eight-bit weights and
/// eight-bit activations.
pub fn matvec_packed_i8(
    p: &[i8],
    rows: usize,
    k: usize,
    xu: &[u8],
    rowsum: &[i32],
    wscale: F32,
    xscale: F32,
    out: &mut [F32],
)
    requires
        k <= 0x8000_0000_0000,
        rows * k <= p@.len(),
        k <= xu@.len(),
        rows <= rowsum@.len(),
        rows <= old(out)@.len(),
    ensures
        final(out)@ == products_of(
            p@,
            rows as int,
            k as int,
            xu@,
            rowsum@,
            wscale,
            xscale,
            old(out)@,
        ),
{
    let s = wscale.mul(xscale);
    let n = rows / 12 * 12;
    let width = k / 32 * 32;
    for j in 0..n
        invariant
            n == rows as int / 12 * 12,
            width == k as int / 32 * 32,
            s == wscale.mul_spec(xscale),
            k <= 0x8000_0000_0000,
            rows * k <= p@.len(),
            k <= xu@.len(),
            rows <= rowsum@.len(),
            rows <= out@.len(),
            out@.len() == old(out)@.len(),
            forall|i: int|
                0 <= i < out@.len() ==> #[trigger] out@[i] == if i < j {
                    product_at(p@, k as int, xu@, rowsum@, wscale, xscale, i)
                } else {
                    old(out)@[i]
                },
    {
        let ghost row = code_row(p@, k as int, j as int);
        let mut dot: i64 = 0;
        for i in 0..width
            invariant
                n == rows as int / 12 * 12,
                width == k as int / 32 * 32,
                j < n,
                k <= 0x8000_0000_0000,
                rows * k <= p@.len(),
                k <= xu@.len(),
                row == code_row(p@, k as int, j as int),
                dot == shifted_dot(xu@, row, i as nat),
        {
            let total = p.len();
            proof {
                lemma_code_index(j as int, i as int, rows as int, k as int);
                lemma_shifted_dot_bound(xu@, row, i as nat);
                lemma_mul_inequality(1, rows as int / 12, 12 * k);
                lemma_mul_is_associative(rows as int / 12, 12, k as int);
                lemma_mul_inequality(rows as int / 12 * 12, rows as int, k as int);
            }
            let at = j / 12 * (12 * k) + (i / 32 * 384 + (j % 12 * 32 + i % 32));
            let u = xu[i];
            let w = p[at];
            proof {
                lemma_code_product(u, w);
            }
            dot = dot + u as i64 * w as i64;
        }
        proof {
            lemma_shifted_dot_bound(xu@, row, width as nat);
        }
        out[j] = F32::from_i64(dot - 128 * rowsum[j] as i64).mul(s);
    }
    assert(out@ =~= products_of(
        p@,
        rows as int,
        k as int,
        xu@,
        rowsum@,
        wscale,
        xscale,
        old(out)@,
    ));
}

/// The panels are a reordering of the codes: every row can be read back from them.
pub proof fn law_panels_keep_every_row(q: Seq<i8>, rows: int, k: int, j: int)
    requires
        rows % 12 == 0,
        k % 32 == 0,
        0 <= k,
        0 <= j < rows,
        rows * k <= q.len(),
    ensures
        code_row(tiles_of(q, rows, k, 12, 32, 0i8), k, j) == row_of(q, j, k),
{
    let p = tiles_of(q, rows, k, 12, 32, 0i8);
    lemma_row_fits(j, rows, k);
    assert forall|i: int| 0 <= i < k implies p[code_index(j, i, k)] == row_of(q, j, k)[i] by {
        lemma_code_index(j, i, rows, k);
        let d = code_index(j, i, k);
        let r = i / 32 * 384 + (j % 12 * 32 + i % 32);
        assert(0 <= r < 12 * k);
        lemma_fundamental_div_mod_converse(d, 12 * k, j / 12, r);
        assert(r / 384 == i / 32);
        assert(r % 384 == j % 12 * 32 + i % 32);
        assert((j % 12 * 32 + i % 32) / 32 == j % 12);
        assert((j % 12 * 32 + i % 32) % 32 == i % 32);
        assert(p[d] == tile_at(q, rows, k, 12, 32, 0i8, d));
        assert(p[d] == q[(j / 12 * 12 + j % 12) * k + (i / 32 * 32 + i % 32)]);
    }
    assert(code_row(p, k, j) =~= row_of(q, j, k));
}

/// What [`matvec_packed_i8`] gives for [`pack_i8`] and [`shifted_codes`] is the exact product of
/// the signed codes, rounded once, times both scales.
pub proof fn law_code_products_are_exact(
    q: Seq<i8>,
    rows: int,
    k: int,
    a: Seq<int>,
    u: Seq<u8>,
    sums: Seq<i32>,
    wscale: F32,
    xscale: F32,
    j: int,
)
    requires
        rows % 12 == 0,
        k % 32 == 0,
        0 <= k,
        0 <= j < rows,
        rows * k <= q.len(),
        k <= a.len(),
        k <= u.len(),
        forall|i: int| 0 <= i < k ==> #[trigger] u[i] == a[i] + 128,
        sums[j] == code_sum(row_of(q, j, k), k as nat),
    ensures
        product_at(tiles_of(q, rows, k, 12, 32, 0i8), k, u, sums, wscale, xscale, j) == F32::of_int(
            code_dot(a, row_of(q, j, k), k as nat),
        ).mul_spec(wscale.mul_spec(xscale)),
{
    law_panels_keep_every_row(q, rows, k, j);
    lemma_row_fits(j, rows, k);
    law_the_shift_is_undone(a, u, row_of(q, j, k), k as nat);
}

} // verus!
