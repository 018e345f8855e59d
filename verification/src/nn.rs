//! Neural-network primitives. Feature maps are laid out `(C, T, F)` row-major, so the frequency
//! axis is contiguous: every convolution here is frequency-local.
use vstd::arithmetic::div_mod::*;
use vstd::arithmetic::mul::*;
use vstd::prelude::*;

use crate::float::F32;
use crate::rows::{
    lemma_place, lemma_row_fits, lemma_row_of_rows, lemma_rows_len, row_at, row_of, rows,
};
use crate::simd::{bits, relu_of, sigmoid, sigmoid_of, tanh, tanh_of, ONE};
use crate::weights::zeros;

verus! {

/// Rows per panel in the packed layout.
pub const PANEL: usize = 12;

// ------------------------------------------------------------------ elementwise helpers

/// `out + s * x`, over the places that both have.
pub open spec fn axpy_of(out: Seq<F32>, s: F32, x: Seq<F32>) -> Seq<F32> {
    Seq::new(
        out.len(),
        |i: int|
            if i < x.len() {
                s.mul_add_spec(x[i], out[i])
            } else {
                out[i]
            },
    )
}

/// `out += s * x`, over the places that both have.
pub fn axpy(out: &mut [F32], s: F32, x: &[F32])
    ensures
        final(out)@ == axpy_of(old(out)@, s, x@),
{
    let n = if out.len() < x.len() {
        out.len()
    } else {
        x.len()
    };
    for i in 0..n
        invariant
            out@.len() == old(out)@.len(),
            n <= out@.len(),
            n <= x@.len(),
            n == out@.len() || n == x@.len(),
            forall|j: int|
                0 <= j < out@.len() ==> #[trigger] out@[j] == if j < i {
                    s.mul_add_spec(x@[j], old(out)@[j])
                } else {
                    old(out)@[j]
                },
    {
        out[i] = s.mul_add(x[i], out[i]);
    }
    assert(out@ =~= axpy_of(old(out)@, s, x@));
}

/// Negative numbers become zero.
pub open spec fn relu_seq(x: Seq<F32>) -> Seq<F32> {
    Seq::new(x.len(), |i: int| relu_of(x[i]))
}

/// Rectified linear unit, in place.
pub fn relu_(x: &mut [F32])
    ensures
        final(x)@ == relu_seq(old(x)@),
{
    let n = x.len();
    for i in 0..n
        invariant
            n == x@.len(),
            x@.len() == old(x)@.len(),
            forall|j: int|
                0 <= j < n ==> #[trigger] x@[j] == if j < i {
                    relu_of(old(x)@[j])
                } else {
                    old(x)@[j]
                },
    {
        if x[i].lt(F32::zero()) {
            x[i] = F32::zero();
        }
    }
    assert(x@ =~= relu_seq(old(x)@));
}

/// One tap of a convolution or of a linear layer: nothing where the weight is a zero.
pub open spec fn tap(acc: Seq<F32>, s: F32, x: Seq<F32>) -> Seq<F32> {
    if s.is_zero_spec() {
        acc
    } else {
        axpy_of(acc, s, x)
    }
}

fn add_tap(acc: &mut Vec<F32>, s: F32, x: &[F32])
    ensures
        final(acc)@ == tap(old(acc)@, s, x@),
        final(acc)@.len() == old(acc)@.len(),
{
    if !s.is_zero() {
        axpy(acc.as_mut_slice(), s, x);
    }
}

/// `v`, `n` times.
pub open spec fn filled(v: F32, n: nat) -> Seq<F32> {
    Seq::new(n, |i: int| v)
}

fn fill(v: F32, n: usize) -> (r: Vec<F32>)
    ensures
        r@ == filled(v, n as nat),
{
    let r = vec![v;n];
    assert(r@ =~= filled(v, n as nat));
    r
}

/// The numbers behind an optional slice.
pub open spec fn seq_of(b: Option<&[F32]>) -> Option<Seq<F32>> {
    match b {
        None => None,
        Some(s) => Some(s@),
    }
}

/// Bias `j`, zero where there is none.
pub open spec fn bias_at(b: Option<Seq<F32>>, j: int) -> F32 {
    match b {
        None => F32::zero_spec(),
        Some(b) => b[j],
    }
}

fn bias(b: Option<&[F32]>, j: usize) -> (r: F32)
    requires
        b matches Some(s) ==> j < s@.len(),
    ensures
        r == bias_at(seq_of(b), j as int),
{
    match b {
        None => F32::zero(),
        Some(s) => s[j],
    }
}

// ------------------------------------------------------------------ dot product

/// Lane `e` of the running dot product after `c` chunks of eight.
pub open spec fn lane(a: Seq<F32>, b: Seq<F32>, e: int, c: nat) -> F32
    decreases c,
{
    if c == 0 {
        F32::zero_spec()
    } else {
        a[8 * (c - 1) + e].mul_add_spec(b[8 * (c - 1) + e], lane(a, b, e, (c - 1) as nat))
    }
}

/// The sum of eight lanes, in pairs.
pub open spec fn lane_sum(s: Seq<F32>) -> F32 {
    s[0].add_spec(s[1]).add_spec(s[2].add_spec(s[3])).add_spec(
        s[4].add_spec(s[5]).add_spec(s[6].add_spec(s[7])),
    )
}

/// `s` plus the products of places `from..to`, one after the other.
pub open spec fn tail_sum(a: Seq<F32>, b: Seq<F32>, s: F32, from: int, to: int) -> F32
    decreases to - from,
{
    if to <= from {
        s
    } else {
        tail_sum(a, b, s, from, to - 1).add_spec(a[to - 1].mul_spec(b[to - 1]))
    }
}

/// The dot product: eight fused running sums over whole chunks of eight, added up in pairs, and
/// then the places that are left, one after the other.
#[verifier::opaque]
pub open spec fn dot_of(a: Seq<F32>, b: Seq<F32>) -> F32 {
    let n = a.len() as int;
    let c = (n / 8) as nat;
    tail_sum(a, b, lane_sum(Seq::new(8, |e: int| lane(a, b, e, c))), 8 * (n / 8), n)
}

/// Dot product.
pub fn dot(a: &[F32], b: &[F32]) -> (r: F32)
    requires
        a@.len() == b@.len(),
    ensures
        r == dot_of(a@, b@),
{
    proof {
        reveal(dot_of);
    }
    let n = a.len();
    let chunks = n / 8;
    let mut acc: [F32; 8] = [F32::zero();8];
    for c in 0..chunks
        invariant
            a@.len() == n,
            b@.len() == n,
            chunks == n / 8,
            forall|e: int| 0 <= e < 8 ==> #[trigger] acc@[e] == lane(a@, b@, e, c as nat),
    {
        for e in 0..8
            invariant
                a@.len() == n,
                b@.len() == n,
                8 * c + 8 <= n,
                forall|i: int|
                    0 <= i < 8 ==> #[trigger] acc@[i] == lane(
                        a@,
                        b@,
                        i,
                        if i < e {
                            (c + 1) as nat
                        } else {
                            c as nat
                        },
                    ),
        {
            acc[e] = a[8 * c + e].mul_add(b[8 * c + e], acc[e]);
        }
    }
    let mut s = acc[0].add(acc[1]).add(acc[2].add(acc[3])).add(
        acc[4].add(acc[5]).add(acc[6].add(acc[7])),
    );
    let ghost s0 = s;
    assert(acc@ =~= Seq::new(8, |e: int| lane(a@, b@, e, chunks as nat)));
    for i in 8 * chunks..n
        invariant
            a@.len() == n,
            b@.len() == n,
            8 * chunks <= i,
            s == tail_sum(a@, b@, s0, 8 * chunks, i as int),
    {
        s = s.add(a[i].mul(b[i]));
    }
    s
}

// ------------------------------------------------------------------ matvec / gemm

/// Row `j` of a matrix times `x`, plus its bias.
pub open spec fn matvec_at(
    m: Seq<F32>,
    k: int,
    x: Seq<F32>,
    b: Option<Seq<F32>>,
    j: int,
) -> F32 {
    dot_of(row_of(m, j, k), x).add_spec(bias_at(b, j))
}

/// A matrix of `rows` rows of width `k` times `x`, plus the bias.
pub open spec fn matvec_of(
    m: Seq<F32>,
    rows: nat,
    k: int,
    x: Seq<F32>,
    b: Option<Seq<F32>>,
) -> Seq<F32> {
    Seq::new(rows, |j: int| matvec_at(m, k, x, b, j))
}

/// `s`, and what `out` holds behind it.
pub open spec fn over(s: Seq<F32>, out: Seq<F32>) -> Seq<F32> {
    s + out.skip(s.len() as int)
}

/// `out[j] = dot(m[j], x) + bias[j]`, for `j` in `0..rows`.
pub fn matvec(
    m: &[F32],
    rows: usize,
    k: usize,
    x: &[F32],
    bias: Option<&[F32]>,
    out: &mut [F32],
)
    requires
        rows * k <= m@.len(),
        x@.len() == k,
        rows <= old(out)@.len(),
        bias matches Some(b) ==> rows <= b@.len(),
    ensures
        final(out)@ == over(
            matvec_of(m@, rows as nat, k as int, x@, seq_of(bias)),
            old(out)@,
        ),
{
    for j in 0..rows
        invariant
            rows * k <= m@.len(),
            x@.len() == k,
            rows <= out@.len(),
            out@.len() == old(out)@.len(),
            bias matches Some(b) ==> rows <= b@.len(),
            forall|i: int|
                0 <= i < out@.len() ==> #[trigger] out@[i] == if i < j {
                    matvec_at(m@, k as int, x@, seq_of(bias), i)
                } else {
                    old(out)@[i]
                },
    {
        proof {
            lemma_row_fits(j as int, rows as int, k as int);
        }
        out[j] = dot(row_at(m, j, k), x).add(self::bias(bias, j));
    }
    assert(out@ =~= over(matvec_of(m@, rows as nat, k as int, x@, seq_of(bias)), old(out)@));
}

/// The rows of [`gemm_of`].
pub open spec fn gemm_rows(
    x: Seq<F32>,
    k: int,
    w: Seq<F32>,
    rows: nat,
    b: Seq<F32>,
) -> spec_fn(int) -> Seq<F32> {
    |t: int| matvec_of(w, rows, k, row_of(x, t, k), Some(b))
}

/// The matrix applied to each of the `t` rows of `x`.
pub open spec fn gemm_of(
    x: Seq<F32>,
    t: nat,
    k: int,
    w: Seq<F32>,
    rows: nat,
    b: Seq<F32>,
) -> Seq<F32> {
    crate::rows::rows(t, gemm_rows(x, k, w, rows, b))
}

/// `out[t][j] = dot(w[j], x[t]) + b[j]`, with `x` of shape `[T, K]` and `w` of shape `[rows, K]`.
pub fn gemm_nt(
    x: &[F32],
    t: usize,
    k: usize,
    w: &[F32],
    rows: usize,
    b: &[F32],
    out: &mut [F32],
)
    requires
        t * k <= x@.len(),
        rows * k <= w@.len(),
        rows <= b@.len(),
        t * rows <= old(out)@.len(),
    ensures
        final(out)@ == over(
            gemm_of(x@, t as nat, k as int, w@, rows as nat, b@),
            old(out)@,
        ),
{
    let ghost f = gemm_rows(x@, k as int, w@, rows as nat, b@);
    let mut row: Vec<F32> = fill(F32::zero(), rows);
    for ti in 0..t
        invariant
            t * k <= x@.len(),
            rows * k <= w@.len(),
            rows <= b@.len(),
            t * rows <= out@.len(),
            out@.len() == old(out)@.len(),
            row@.len() == rows,
            f == gemm_rows(x@, k as int, w@, rows as nat, b@),
            out@ == over(crate::rows::rows(ti as nat, f), old(out)@),
    {
        proof {
            lemma_row_fits(ti as int, t as int, k as int);
            lemma_row_fits(ti as int, t as int, rows as int);
            lemma_rows_len(ti as nat, rows as int, f);
        }
        matvec(w, rows, k, row_at(x, ti, k), Some(b), row.as_mut_slice());
        assert(row@ =~= f(ti as int));
        let ghost before = out@;
        for j in 0..rows
            invariant
                ti * rows + rows <= out@.len(),
                row@.len() == rows,
                out@.len() == before.len(),
                forall|i: int|
                    0 <= i < out@.len() ==> #[trigger] out@[i] == if ti * rows <= i < ti * rows + j {
                        row@[i - ti * rows]
                    } else {
                        before[i]
                    },
        {
            let n = out.len();
            proof {
                lemma_mul_nonnegative(ti as int, rows as int);
            }
            out[ti * rows + j] = row[j];
        }
        assert(out@ =~= over(crate::rows::rows((ti + 1) as nat, f), old(out)@));
    }
}

// ------------------------------------------------------------------ packed panels

/// Chunk `c` of eight numbers of row `l` of panel `p`.
pub open spec fn pack_chunks(m: Seq<F32>, k: int, p: int, c: int) -> spec_fn(int) -> Seq<F32> {
    |l: int| row_of(m, p * 12 + l, k).subrange(c * 8, c * 8 + 8)
}

/// The twelve rows' chunks number `c` of panel `p`.
pub open spec fn pack_columns(m: Seq<F32>, k: int, p: int) -> spec_fn(int) -> Seq<F32> {
    |c: int| rows(12, pack_chunks(m, k, p, c))
}

/// The panels.
pub open spec fn pack_panels(m: Seq<F32>, k: int) -> spec_fn(int) -> Seq<F32> {
    |p: int| rows((k / 8) as nat, pack_columns(m, k, p))
}

/// A matrix in panels of twelve rows: in each panel the first chunks of eight numbers of its rows,
/// then their second chunks, and so on.
pub open spec fn pack_of(m: Seq<F32>, n: int, k: int) -> Seq<F32> {
    rows((n / 12) as nat, pack_panels(m, k))
}

/// Where the panel layout keeps number `i` of row `j`.
pub open spec fn panel_index(j: int, i: int, k: int) -> int {
    j / 12 * (12 * k) + (i / 8 * 96 + (j % 12 * 8 + i % 8))
}

/// Row `j` of the matrix that a panel layout holds.
pub open spec fn unpacked_row(p: Seq<F32>, k: int, j: int) -> Seq<F32> {
    Seq::new(k as nat, |i: int| p[panel_index(j, i, k)])
}

proof fn lemma_panel_index(j: int, i: int, n: int, k: int)
    requires
        0 <= j < n,
        0 <= i < k,
        n % 12 == 0,
        k % 8 == 0,
    ensures
        0 <= panel_index(j, i, k) < n * k,
        0 <= j / 12 * (12 * k) <= panel_index(j, i, k),
        0 <= j / 12 < n / 12,
        0 <= i / 8 < k / 8,
{
    let f = 12 * k;
    lemma_place(j / 12, i / 8 * 96 + (j % 12 * 8 + i % 8), n / 12, f);
    assert(n / 12 * (12 * k) == n * k) by {
        lemma_mul_is_associative(n / 12, 12, k);
    }
}

/// The panel layout is a reordering of the matrix: every row can be read back from it.
pub proof fn law_packing_keeps_every_row(m: Seq<F32>, n: int, k: int, j: int)
    requires
        n % 12 == 0,
        k % 8 == 0,
        0 <= k,
        0 <= j < n,
        n * k <= m.len(),
    ensures
        pack_of(m, n, k).len() == n * k,
        unpacked_row(pack_of(m, n, k), k, j) == row_of(m, j, k),
{
    let p = pack_of(m, n, k);
    lemma_pack_len(m, n, k);
    lemma_row_fits(j, n, k);
    let panel = j / 12;
    let l = j % 12;
    assert forall|i: int| 0 <= i < k implies p[panel_index(j, i, k)] == row_of(m, j, k)[i] by {
        lemma_panel_index(j, i, n, k);
        let c = i / 8;
        let e = i % 8;
        lemma_panel_len(m, n, k, panel);
        assert forall|q: int| 0 <= q < n / 12 implies (#[trigger] pack_panels(m, k)(q)).len() == 12
            * k by {
            lemma_panel_len(m, n, k, q);
        }
        lemma_row_of_rows((n / 12) as nat, 12 * k, pack_panels(m, k), panel);
        let whole = pack_panels(m, k)(panel);
        lemma_row_fits(panel, n / 12, 12 * k);
        assert forall|q: int| 0 <= q < k / 8 implies (#[trigger] pack_columns(m, k, panel)(q)).len()
            == 96 by {
            lemma_column_len(m, n, k, panel, q);
        }
        lemma_row_of_rows((k / 8) as nat, 96, pack_columns(m, k, panel), c);
        let column = pack_columns(m, k, panel)(c);
        lemma_column_len(m, n, k, panel, c);
        lemma_row_of_rows(12, 8, pack_chunks(m, k, panel, c), l);
        let chunk = pack_chunks(m, k, panel, c)(l);
        assert(chunk == row_of(m, j, k).subrange(c * 8, c * 8 + 8));
        assert(chunk[e] == row_of(m, j, k)[i]);
        assert(row_of(column, l, 8)[e] == column[l * 8 + e]);
        assert(row_of(whole, c, 96)[l * 8 + e] == whole[c * 96 + (l * 8 + e)]);
        assert(row_of(p, panel, 12 * k)[c * 96 + (l * 8 + e)] == p[panel * (12 * k) + (c * 96 + (l
            * 8 + e))]);
    }
    assert(unpacked_row(p, k, j) =~= row_of(m, j, k));
}

proof fn lemma_column_len(m: Seq<F32>, n: int, k: int, p: int, c: int)
    requires
        n % 12 == 0,
        k % 8 == 0,
        0 <= p < n / 12,
        0 <= c < k / 8,
        n * k <= m.len(),
    ensures
        pack_columns(m, k, p)(c).len() == 96,
        forall|l: int| 0 <= l < 12 ==> (#[trigger] pack_chunks(m, k, p, c)(l)).len() == 8,
{
    assert forall|l: int| 0 <= l < 12 implies (#[trigger] pack_chunks(m, k, p, c)(l)).len() == 8 by {
        lemma_row_fits(p * 12 + l, n, k);
    }
    lemma_rows_len(12, 8, pack_chunks(m, k, p, c));
}

proof fn lemma_panel_len(m: Seq<F32>, n: int, k: int, p: int)
    requires
        n % 12 == 0,
        k % 8 == 0,
        0 <= k,
        0 <= p < n / 12,
        n * k <= m.len(),
    ensures
        pack_panels(m, k)(p).len() == 12 * k,
{
    assert forall|c: int| 0 <= c < k / 8 implies (#[trigger] pack_columns(m, k, p)(c)).len()
        == 96 by {
        lemma_column_len(m, n, k, p, c);
    }
    lemma_rows_len((k / 8) as nat, 96, pack_columns(m, k, p));
}

pub proof fn lemma_pack_len(m: Seq<F32>, n: int, k: int)
    requires
        n % 12 == 0,
        k % 8 == 0,
        0 <= n,
        0 <= k,
        n * k <= m.len(),
    ensures
        pack_of(m, n, k).len() == n * k,
{
    assert forall|p: int| 0 <= p < n / 12 implies (#[trigger] pack_panels(m, k)(p)).len() == 12
        * k by {
        lemma_panel_len(m, n, k, p);
    }
    lemma_rows_len((n / 12) as nat, 12 * k, pack_panels(m, k));
    lemma_mul_is_associative(n / 12, 12, k);
}

/// Repacks a row-major matrix into panels of [`PANEL`] rows: within each panel the rows' chunks
/// of eight numbers are interleaved, so that a product walks one sequential stream.
pub fn pack_rows(m: &[F32], rows: usize, k: usize) -> (p: Vec<F32>)
    requires
        rows % PANEL == 0,
        k % 8 == 0,
        0 < rows * k <= m@.len(),
    ensures
        p@ == pack_of(m@, rows as int, k as int),
        p@.len() == rows * k,
{
    let mut p: Vec<F32> = Vec::new();
    for jb in 0..rows / 12
        invariant
            rows % 12 == 0,
            k % 8 == 0,
            rows * k <= m@.len(),
            p@ == crate::rows::rows(jb as nat, pack_panels(m@, k as int)),
    {
        let ghost p0 = p@;
        for c in 0..k / 8
            invariant
                rows % 12 == 0,
                k % 8 == 0,
                rows * k <= m@.len(),
                jb < rows / 12,
                p@ == p0 + crate::rows::rows(c as nat, pack_columns(m@, k as int, jb as int)),
        {
            let ghost p1 = p@;
            for l in 0..12usize
                invariant
                    rows % 12 == 0,
                    k % 8 == 0,
                    rows * k <= m@.len(),
                    jb < rows / 12,
                    c < k / 8,
                    p@ == p1 + crate::rows::rows(
                        l as nat,
                        pack_chunks(m@, k as int, jb as int, c as int),
                    ),
            {
                let ghost p2 = p@;
                proof {
                    lemma_row_fits(jb * 12 + l, rows as int, k as int);
                }
                let row = row_at(m, jb * 12 + l, k);
                for e in 0..8usize
                    invariant
                        k % 8 == 0,
                        c < k / 8,
                        row@.len() == k,
                        p@ == p2 + row@.subrange(c * 8, c * 8 + e),
                {
                    p.push(row[c * 8 + e]);
                    assert(p@ =~= p2 + row@.subrange(c * 8, c * 8 + e + 1));
                }
                assert(p@ =~= p1 + crate::rows::rows(
                    (l + 1) as nat,
                    pack_chunks(m@, k as int, jb as int, c as int),
                ));
            }
            assert(p@ =~= p0 + crate::rows::rows(
                (c + 1) as nat,
                pack_columns(m@, k as int, jb as int),
            ));
        }
        assert(p@ =~= crate::rows::rows((jb + 1) as nat, pack_panels(m@, k as int)));
    }
    proof {
        lemma_pack_len(m@, rows as int, k as int);
    }
    p
}

/// The matrix in a panel layout times `x`.
pub open spec fn matvec_packed_of(p: Seq<F32>, n: nat, k: int, x: Seq<F32>) -> Seq<F32> {
    Seq::new(n, |j: int| dot_of(unpacked_row(p, k, j), x).add_spec(F32::zero_spec()))
}

/// A product with a packed matrix is the product with the matrix, to the last bit.
pub proof fn law_packed_matvec_is_matvec(m: Seq<F32>, n: int, k: int, x: Seq<F32>)
    requires
        n % 12 == 0,
        k % 8 == 0,
        0 <= n,
        0 <= k,
        n * k <= m.len(),
    ensures
        matvec_packed_of(pack_of(m, n, k), n as nat, k, x) == matvec_of(m, n as nat, k, x, None),
{
    assert forall|j: int| 0 <= j < n implies unpacked_row(pack_of(m, n, k), k, j) == row_of(
        m,
        j,
        k,
    ) by {
        law_packing_keeps_every_row(m, n, k, j);
    }
    assert(matvec_packed_of(pack_of(m, n, k), n as nat, k, x) =~= matvec_of(
        m,
        n as nat,
        k,
        x,
        None,
    ));
}

/// [`matvec`] against a [`pack_rows`] panel layout, without bias.
pub fn matvec_packed(p: &[F32], rows: usize, k: usize, x: &[F32], out: &mut [F32])
    requires
        rows % PANEL == 0,
        k % 8 == 0,
        rows * k <= p@.len(),
        k <= x@.len(),
        rows <= old(out)@.len(),
    ensures
        final(out)@ == over(
            matvec_packed_of(p@, rows as nat, k as int, x@.take(k as int)),
            old(out)@,
        ),
{
    let ghost xs = x@.take(k as int);
    for j in 0..rows
        invariant
            rows % 12 == 0,
            k % 8 == 0,
            rows * k <= p@.len(),
            k <= x@.len(),
            xs == x@.take(k as int),
            rows <= out@.len(),
            out@.len() == old(out)@.len(),
            forall|i: int|
                0 <= i < out@.len() ==> #[trigger] out@[i] == if i < j {
                    dot_of(unpacked_row(p@, k as int, i), xs).add_spec(F32::zero_spec())
                } else {
                    old(out)@[i]
                },
    {
        let ghost row = unpacked_row(p@, k as int, j as int);
        let mut acc: [F32; 8] = [F32::zero();8];
        for c in 0..k / 8
            invariant
                rows % 12 == 0,
                k % 8 == 0,
                rows * k <= p@.len(),
                k <= x@.len(),
                xs == x@.take(k as int),
                j < rows,
                row == unpacked_row(p@, k as int, j as int),
                forall|e: int| 0 <= e < 8 ==> #[trigger] acc@[e] == lane(row, xs, e, c as nat),
        {
            for e in 0..8usize
                invariant
                    rows % 12 == 0,
                    k % 8 == 0,
                    rows * k <= p@.len(),
                    k <= x@.len(),
                    xs == x@.take(k as int),
                    j < rows,
                    c < k / 8,
                    row == unpacked_row(p@, k as int, j as int),
                    forall|i: int|
                        0 <= i < 8 ==> #[trigger] acc@[i] == lane(
                            row,
                            xs,
                            i,
                            if i < e {
                                (c + 1) as nat
                            } else {
                                c as nat
                            },
                        ),
            {
                let total = p.len();
                proof {
                    lemma_panel_index(j as int, 8 * c + e, rows as int, k as int);
                    lemma_row_fits(j as int / 12, rows as int / 12, 12 * k);
                    lemma_mul_is_associative(rows as int / 12, 12, k as int);
                    lemma_mul_inequality(1, rows as int / 12, 12 * k);
                }
                let at = j / 12 * (12 * k) + (c * 96 + (j % 12 * 8 + e));
                acc[e] = p[at].mul_add(x[8 * c + e], acc[e]);
            }
        }
        let s = acc[0].add(acc[1]).add(acc[2].add(acc[3])).add(
            acc[4].add(acc[5]).add(acc[6].add(acc[7])),
        );
        proof {
            reveal(dot_of);
            assert(acc@ =~= Seq::new(8, |e: int| lane(row, xs, e, (k / 8) as nat)));
        }
        out[j] = s.add(F32::zero());
    }
    assert(out@ =~= over(matvec_packed_of(p@, rows as nat, k as int, xs), old(out)@));
}

/// Row `t` of the product of two matrices is the product of the matrix with row `t`.
pub proof fn law_gemm_rows_are_matvecs(
    x: Seq<F32>,
    t: nat,
    k: int,
    w: Seq<F32>,
    n: nat,
    b: Seq<F32>,
    i: int,
)
    requires
        0 <= i < t,
    ensures
        gemm_of(x, t, k, w, n, b).len() == t * n,
        row_of(gemm_of(x, t, k, w, n, b), i, n as int) == matvec_of(
            w,
            n,
            k,
            row_of(x, i, k),
            Some(b),
        ),
{
    lemma_row_of_rows(t, n as int, gemm_rows(x, k, w, n, b), i);
}

// ------------------------------------------------------------------ convolutions

/// A row with a zero on each side.
pub open spec fn padded(row: Seq<F32>) -> Seq<F32> {
    seq![F32::zero_spec()] + row + seq![F32::zero_spec()]
}

/// The rows of [`pad_freq_of`].
pub open spec fn pad_rows(x: Seq<F32>, f: int) -> spec_fn(int) -> Seq<F32> {
    |r: int| padded(row_of(x, r, f))
}

/// The first `n` rows of a map, each with a zero on each side.
pub open spec fn pad_freq_of(x: Seq<F32>, n: nat, f: int) -> Seq<F32> {
    rows(n, pad_rows(x, f))
}

/// Zero-pads the frequency axis by 1 on each side: `(C, T, F)` becomes `(C, T, F + 2)`.
pub fn pad_freq(x: &[F32], c: usize, t: usize, f: usize) -> (out: Vec<F32>)
    requires
        c * t * f <= x@.len(),
        c * t <= usize::MAX,
    ensures
        out@ == pad_freq_of(x@, (c * t) as nat, f as int),
{
    let mut out: Vec<F32> = Vec::new();
    let n = c * t;
    for r in 0..n
        invariant
            n * f <= x@.len(),
            out@ == pad_freq_of(x@, r as nat, f as int),
    {
        let ghost before = out@;
        proof {
            lemma_row_fits(r as int, n as int, f as int);
        }
        let row = row_at(x, r, f);
        out.push(F32::zero());
        for i in 0..f
            invariant
                row@.len() == f,
                out@ == before + seq![F32::zero_spec()] + row@.take(i as int),
        {
            out.push(row[i]);
            assert(row@.take(i + 1) =~= row@.take(i as int).push(row@[i as int]));
        }
        out.push(F32::zero());
        assert(row@.take(f as int) =~= row@);
        assert(out@ =~= before + padded(row@));
    }
    out
}

/// One output plane of [`pointwise_of`] after `c` input planes.
pub open spec fn pointwise_plane(
    x: Seq<F32>,
    cin: int,
    tf: nat,
    w: Seq<F32>,
    b: Option<Seq<F32>>,
    o: int,
    c: nat,
) -> Seq<F32>
    decreases c,
{
    if c == 0 {
        filled(bias_at(b, o), tf)
    } else {
        tap(
            pointwise_plane(x, cin, tf, w, b, o, (c - 1) as nat),
            w[o * cin + (c - 1)],
            row_of(x, c - 1, tf as int),
        )
    }
}

/// The output planes of [`pointwise_of`].
pub open spec fn pointwise_planes(
    x: Seq<F32>,
    cin: nat,
    tf: nat,
    w: Seq<F32>,
    b: Option<Seq<F32>>,
) -> spec_fn(int) -> Seq<F32> {
    |o: int| pointwise_plane(x, cin as int, tf, w, b, o, cin)
}

/// The 1x1 convolution `out[o] = b[o] + sum_c w[o][c] * x[c]`.
pub open spec fn pointwise_of(
    x: Seq<F32>,
    cin: nat,
    tf: nat,
    w: Seq<F32>,
    b: Option<Seq<F32>>,
    cout: nat,
) -> Seq<F32> {
    rows(cout, pointwise_planes(x, cin, tf, w, b))
}

pub proof fn lemma_pointwise_plane_len(
    x: Seq<F32>,
    cin: int,
    tf: nat,
    w: Seq<F32>,
    b: Option<Seq<F32>>,
    o: int,
    c: nat,
)
    ensures
        pointwise_plane(x, cin, tf, w, b, o, c).len() == tf,
    decreases c,
{
    if c > 0 {
        lemma_pointwise_plane_len(x, cin, tf, w, b, o, (c - 1) as nat);
    }
}

pub proof fn lemma_pointwise_len(
    x: Seq<F32>,
    cin: nat,
    tf: nat,
    w: Seq<F32>,
    b: Option<Seq<F32>>,
    cout: nat,
)
    ensures
        pointwise_of(x, cin, tf, w, b, cout).len() == cout * tf,
        forall|o: int|
            0 <= o < cout ==> (#[trigger] pointwise_planes(x, cin, tf, w, b)(o)).len() == tf,
{
    assert forall|o: int| 0 <= o < cout implies (#[trigger] pointwise_planes(x, cin, tf, w, b)(
        o,
    )).len() == tf by {
        lemma_pointwise_plane_len(x, cin as int, tf, w, b, o, cin);
    }
    lemma_rows_len(cout, tf as int, pointwise_planes(x, cin, tf, w, b));
}

/// 1x1 convolution over `(C, T, F)`: `out[o] = b[o] + sum_c w[o][c] * x[c]`.
pub fn pointwise(
    x: &[F32],
    cin: usize,
    tf: usize,
    w: &[F32],
    b: Option<&[F32]>,
    cout: usize,
) -> (out: Vec<F32>)
    requires
        cin * tf <= x@.len(),
        cout * cin <= w@.len(),
        b matches Some(s) ==> cout <= s@.len(),
    ensures
        out@ == pointwise_of(x@, cin as nat, tf as nat, w@, seq_of(b), cout as nat),
        out@.len() == cout * tf,
{
    let mut out: Vec<F32> = Vec::new();
    let ghost f = pointwise_planes(x@, cin as nat, tf as nat, w@, seq_of(b));
    for o in 0..cout
        invariant
            cin * tf <= x@.len(),
            cout * cin <= w@.len(),
            b matches Some(s) ==> cout <= s@.len(),
            f == pointwise_planes(x@, cin as nat, tf as nat, w@, seq_of(b)),
            out@ == rows(o as nat, f),
    {
        proof {
            lemma_row_fits(o as int, cout as int, cin as int);
        }
        let wo = row_at(w, o, cin);
        let mut dst = fill(bias(b, o), tf);
        for c in 0..cin
            invariant
                cin * tf <= x@.len(),
                wo@ == row_of(w@, o as int, cin as int),
                wo@.len() == cin,
                (o + 1) * cin <= w@.len(),
                0 <= o * cin,
                (o + 1) * cin == o * cin + cin,
                dst@ == pointwise_plane(
                    x@,
                    cin as int,
                    tf as nat,
                    w@,
                    seq_of(b),
                    o as int,
                    c as nat,
                ),
        {
            proof {
                lemma_row_fits(c as int, cin as int, tf as int);
            }
            assert(wo@[c as int] == w@[o * cin + c]);
            add_tap(&mut dst, wo[c], row_at(x, c, tf));
        }
        out.append(&mut dst);
    }
    proof {
        lemma_pointwise_len(x@, cin as nat, tf as nat, w@, seq_of(b), cout as nat);
    }
    out
}

/// The running sum with the product at place `i` of a row that is zero outside `0..len`.
pub open spec fn edge_tap(src: Seq<F32>, k: F32, i: int, s: F32) -> F32 {
    if 0 <= i < src.len() {
        k.mul_add_spec(src[i], s)
    } else {
        s
    }
}

/// One output number of a three-tap filter whose first tap stands at place `i`.
pub open spec fn three_taps(src: Seq<F32>, k: Seq<F32>, i: int) -> F32 {
    edge_tap(src, k[2], i + 2, edge_tap(src, k[1], i + 1, edge_tap(src, k[0], i, F32::zero_spec())))
}

/// How many outputs a width-3 filter has over `f` places, padded by one on each side.
pub open spec fn strided(f: int, stride: int) -> int {
    (f - 1) / stride + 1
}

/// The rows of channel `ch` of [`dw_conv13_of`].
pub open spec fn dw_rows(
    x: Seq<F32>,
    t: int,
    f: int,
    w: Seq<F32>,
    stride: int,
    ch: int,
) -> spec_fn(int) -> Seq<F32> {
    |ti: int|
        Seq::new(
            strided(f, stride) as nat,
            |i: int|
                three_taps(row_of(x, ch * t + ti, f), row_of(w, ch, 3), i * stride - 1),
        )
}

/// The channels of [`dw_conv13_of`].
pub open spec fn dw_planes(
    x: Seq<F32>,
    t: nat,
    f: int,
    w: Seq<F32>,
    stride: int,
) -> spec_fn(int) -> Seq<F32> {
    |ch: int| rows(t, dw_rows(x, t as int, f, w, stride, ch))
}

/// Depthwise convolution over frequency: kernel 3, zero-pad 1 on each side, given stride.
pub open spec fn dw_conv13_of(
    x: Seq<F32>,
    c: nat,
    t: nat,
    f: int,
    w: Seq<F32>,
    stride: int,
) -> Seq<F32> {
    rows(c, dw_planes(x, t, f, w, stride))
}

fn edge(src: &[F32], k: F32, i: usize, s: F32) -> (r: F32)
    requires
        i <= src@.len() + 1,
    ensures
        r == edge_tap(src@, k, i - 1, s),
{
    if i >= 1 && i - 1 < src.len() {
        k.mul_add(src[i - 1], s)
    } else {
        s
    }
}

/// Depthwise convolution, kernel (1, 3) over frequency, zero-pad 1 on each side, given stride.
/// Gives the map and its width.
pub fn dw_conv13(
    x: &[F32],
    c: usize,
    t: usize,
    f: usize,
    w: &[F32],
    stride: usize,
) -> (r: (Vec<F32>, usize))
    requires
        f > 0,
        stride > 0,
        c * t * f <= x@.len(),
        c * t <= usize::MAX,
        c * 3 <= w@.len(),
        f + 2 <= usize::MAX,
    ensures
        r.1 == strided(f as int, stride as int),
        r.0@ == dw_conv13_of(x@, c as nat, t as nat, f as int, w@, stride as int),
        r.0@.len() == c * t * r.1,
{
    let fo_n = (f - 1) / stride + 1;
    let mut out: Vec<F32> = Vec::new();
    let ghost planes = dw_planes(x@, t as nat, f as int, w@, stride as int);
    for ch in 0..c
        invariant
            f > 0,
            stride > 0,
            c * t * f <= x@.len(),
            c * t <= usize::MAX,
            c * 3 <= w@.len(),
            f + 2 <= usize::MAX,
            fo_n == strided(f as int, stride as int),
            planes == dw_planes(x@, t as nat, f as int, w@, stride as int),
            out@ == rows(ch as nat, planes),
    {
        let k = row_at(w, ch, 3);
        let ghost before = out@;
        let ghost g = dw_rows(x@, t as int, f as int, w@, stride as int, ch as int);
        for ti in 0..t
            invariant
                ch < c,
                f > 0,
                stride > 0,
                c * t * f <= x@.len(),
                c * t <= usize::MAX,
                f + 2 <= usize::MAX,
                fo_n == strided(f as int, stride as int),
                k@ == row_of(w@, ch as int, 3),
                k@.len() == 3,
                g == dw_rows(x@, t as int, f as int, w@, stride as int, ch as int),
                out@ == before + rows(ti as nat, g),
        {
            proof {
                lemma_place(ch as int, ti as int, c as int, t as int);
                lemma_row_fits(ch * t + ti, c * t, f as int);
            }
            let src = row_at(x, ch * t + ti, f);
            let ghost start = out@;
            for fo in 0..fo_n
                invariant
                    f > 0,
                    stride > 0,
                    f + 2 <= usize::MAX,
                    fo_n == strided(f as int, stride as int),
                    k@.len() == 3,
                    src@.len() == f,
                    out@ == start + Seq::new(
                        fo as nat,
                        |i: int| three_taps(src@, k@, i * stride - 1),
                    ),
            {
                proof {
                    lemma_mul_inequality(fo as int, (f - 1) / (stride as int), stride as int);
                    lemma_fundamental_div_mod(f - 1, stride as int);
                    lemma_mul_is_commutative((f - 1) / (stride as int), stride as int);
                    lemma_mul_nonnegative(fo as int, stride as int);
                }
                let base = fo * stride;
                let s = edge(src, k[0], base, F32::zero());
                let s = edge(src, k[1], base + 1, s);
                let s = edge(src, k[2], base + 2, s);
                out.push(s);
                assert(out@ =~= start + Seq::new(
                    (fo + 1) as nat,
                    |i: int| three_taps(src@, k@, i * stride - 1),
                ));
            }
            assert(g(ti as int) =~= Seq::new(
                fo_n as nat,
                |i: int| three_taps(src@, k@, i * stride - 1),
            ));
            assert(out@ =~= before + rows((ti + 1) as nat, g));
        }
        assert(out@ =~= rows((ch + 1) as nat, planes));
    }
    proof {
        lemma_dw_len(x@, c as nat, t as nat, f as int, w@, stride as int);
    }
    (out, fo_n)
}

pub proof fn lemma_dw_len(x: Seq<F32>, c: nat, t: nat, f: int, w: Seq<F32>, stride: int)
    requires
        f > 0,
        stride > 0,
    ensures
        strided(f, stride) >= 1,
        dw_conv13_of(x, c, t, f, w, stride).len() == c * t * strided(f, stride),
{
    lemma_div_pos_is_pos(f - 1, stride);
    let fo = strided(f, stride);
    assert forall|ch: int| 0 <= ch < c implies (#[trigger] dw_planes(x, t, f, w, stride)(ch)).len()
        == t * fo by {
        lemma_rows_len(t, fo, dw_rows(x, t as int, f, w, stride, ch));
    }
    lemma_rows_len(c, t * fo, dw_planes(x, t, f, w, stride));
    lemma_mul_is_associative(c as int, t as int, fo);
}

/// One output number of the transposed filter: even places take the middle tap, odd places the
/// last tap and, where there is a next place, the first tap of that.
pub open spec fn transposed_at(src: Seq<F32>, k: Seq<F32>, n: int) -> F32 {
    let i = n / 2;
    if n % 2 == 0 {
        src[i].mul_spec(k[1])
    } else if i + 1 < src.len() {
        k[0].mul_add_spec(src[i + 1], src[i].mul_spec(k[2]))
    } else {
        src[i].mul_spec(k[2])
    }
}

/// The rows of channel `ch` of [`convtranspose_dw_of`].
pub open spec fn transposed_rows(
    x: Seq<F32>,
    t: int,
    f: int,
    w: Seq<F32>,
    ch: int,
) -> spec_fn(int) -> Seq<F32> {
    |ti: int|
        Seq::new(
            (2 * f) as nat,
            |n: int| transposed_at(row_of(x, ch * t + ti, f), row_of(w, ch, 3), n),
        )
}

/// The channels of [`convtranspose_dw_of`].
pub open spec fn transposed_planes(
    x: Seq<F32>,
    t: nat,
    f: int,
    w: Seq<F32>,
) -> spec_fn(int) -> Seq<F32> {
    |ch: int| rows(t, transposed_rows(x, t as int, f, w, ch))
}

/// Depthwise transposed convolution over frequency: kernel 3, stride 2, one place of padding at
/// the front and one of output padding at the end.
pub open spec fn convtranspose_dw_of(
    x: Seq<F32>,
    c: nat,
    t: nat,
    f: int,
    w: Seq<F32>,
) -> Seq<F32> {
    rows(c, transposed_planes(x, t, f, w))
}

/// Depthwise transposed convolution over frequency. Gives the map and its width, which is twice
/// the input's.
pub fn convtranspose_dw(x: &[F32], c: usize, t: usize, f: usize, w: &[F32]) -> (r: (
    Vec<F32>,
    usize,
))
    requires
        c * t * f <= x@.len(),
        c * t <= usize::MAX,
        c * 3 <= w@.len(),
        2 * f <= usize::MAX,
    ensures
        r.1 == 2 * f,
        r.0@ == convtranspose_dw_of(x@, c as nat, t as nat, f as int, w@),
        r.0@.len() == c * t * r.1,
{
    let mut out: Vec<F32> = Vec::new();
    let ghost planes = transposed_planes(x@, t as nat, f as int, w@);
    for ch in 0..c
        invariant
            c * t * f <= x@.len(),
            c * t <= usize::MAX,
            c * 3 <= w@.len(),
            2 * f <= usize::MAX,
            planes == transposed_planes(x@, t as nat, f as int, w@),
            out@ == rows(ch as nat, planes),
    {
        let k = row_at(w, ch, 3);
        let ghost before = out@;
        let ghost g = transposed_rows(x@, t as int, f as int, w@, ch as int);
        for ti in 0..t
            invariant
                ch < c,
                c * t * f <= x@.len(),
                c * t <= usize::MAX,
                2 * f <= usize::MAX,
                k@ == row_of(w@, ch as int, 3),
                k@.len() == 3,
                g == transposed_rows(x@, t as int, f as int, w@, ch as int),
                out@ == before + rows(ti as nat, g),
        {
            proof {
                lemma_place(ch as int, ti as int, c as int, t as int);
                lemma_row_fits(ch * t + ti, c * t, f as int);
            }
            let src = row_at(x, ch * t + ti, f);
            let ghost start = out@;
            for i in 0..f
                invariant
                    k@.len() == 3,
                    src@.len() == f,
                    out@ == start + Seq::new(
                        (2 * i) as nat,
                        |n: int| transposed_at(src@, k@, n),
                    ),
            {
                out.push(src[i].mul(k[1]));
                let mut odd = src[i].mul(k[2]);
                if i + 1 < f {
                    odd = k[0].mul_add(src[i + 1], odd);
                }
                out.push(odd);
                assert(out@ =~= start + Seq::new(
                    (2 * (i + 1)) as nat,
                    |n: int| transposed_at(src@, k@, n),
                ));
            }
            assert(g(ti as int) =~= Seq::new(
                (2 * f) as nat,
                |n: int| transposed_at(src@, k@, n),
            ));
            assert(out@ =~= before + rows((ti + 1) as nat, g));
        }
        assert(out@ =~= rows((ch + 1) as nat, planes));
    }
    proof {
        law_convtranspose_doubles_frequency(x@, c as nat, t as nat, f as int, w@);
    }
    (out, 2 * f)
}

/// The transposed convolution has twice as many places per row as its input.
pub proof fn law_convtranspose_doubles_frequency(
    x: Seq<F32>,
    c: nat,
    t: nat,
    f: int,
    w: Seq<F32>,
)
    requires
        f >= 0,
    ensures
        convtranspose_dw_of(x, c, t, f, w).len() == c * t * (2 * f),
{
    assert forall|ch: int| 0 <= ch < c implies (#[trigger] transposed_planes(x, t, f, w)(
        ch,
    )).len() == t * (2 * f) by {
        lemma_rows_len(t, 2 * f, transposed_rows(x, t as int, f, w, ch));
    }
    lemma_rows_len(c, t * (2 * f), transposed_planes(x, t, f, w));
    lemma_mul_is_associative(c as int, t as int, 2 * f);
}

/// The three taps over frequency of one input row: `w[0]` to the left, `w[1]` in place, `w[2]` to
/// the right, the row being zero outside.
pub open spec fn freq_taps(acc: Seq<F32>, row: Seq<F32>, w: Seq<F32>) -> Seq<F32> {
    let f = row.len() as int;
    let p = padded(row);
    tap(
        tap(tap(acc, w[0], p.subrange(0, f)), w[1], p.subrange(1, f + 1)),
        w[2],
        p.subrange(2, f + 2),
    )
}

fn add_freq_taps(acc: &mut Vec<F32>, p: &[F32], w: &[F32], Ghost(row): Ghost<Seq<F32>>)
    requires
        p@ == padded(row),
        w@.len() == 3,
    ensures
        final(acc)@ == freq_taps(old(acc)@, row, w@),
        final(acc)@.len() == old(acc)@.len(),
{
    let f = p.len() - 2;
    for kf in 0..3usize
        invariant
            p@ == padded(row),
            f == row.len(),
            w@.len() == 3,
            acc@.len() == old(acc)@.len(),
            acc@ == if kf == 0 {
                old(acc)@
            } else if kf == 1 {
                tap(old(acc)@, w@[0], p@.subrange(0, f as int))
            } else if kf == 2 {
                tap(
                    tap(old(acc)@, w@[0], p@.subrange(0, f as int)),
                    w@[1],
                    p@.subrange(1, f + 1),
                )
            } else {
                freq_taps(old(acc)@, row, w@)
            },
    {
        let total = p.len();
        add_tap(acc, w[kf], &p[kf..kf + f]);
    }
}

/// The nine taps of one input channel at frame `ti`: frames `ti - 2`, `ti - 1` and `ti`, as far as
/// they exist.
pub open spec fn causal_taps(
    acc: Seq<F32>,
    x: Seq<F32>,
    t: int,
    f: int,
    c: int,
    ti: int,
    w: Seq<F32>,
    n: nat,
) -> Seq<F32>
    decreases n,
{
    if n == 0 {
        acc
    } else {
        let before = causal_taps(acc, x, t, f, c, ti, w, (n - 1) as nat);
        let tt = ti + (n - 1) - 2;
        if tt < 0 {
            before
        } else {
            freq_taps(before, row_of(x, c * t + tt, f), row_of(w, n - 1, 3))
        }
    }
}

/// Output row `(o, ti)` of [`conv3x3_causal_of`] after `n` of the group's input channels, which
/// are `cg` channels from channel `c0` on.
pub open spec fn conv3x3_row(
    x: Seq<F32>,
    t: int,
    f: nat,
    w: Seq<F32>,
    b: Option<Seq<F32>>,
    cg: int,
    c0: int,
    o: int,
    ti: int,
    n: nat,
) -> Seq<F32>
    decreases n,
{
    if n == 0 {
        filled(bias_at(b, o), f)
    } else {
        causal_taps(
            conv3x3_row(x, t, f, w, b, cg, c0, o, ti, (n - 1) as nat),
            x,
            t,
            f as int,
            c0 + (n - 1),
            ti,
            row_of(w, o * cg + (n - 1), 9),
            3,
        )
    }
}

/// The rows of output channel `o` of [`conv3x3_causal_of`].
pub open spec fn conv3x3_rows(
    x: Seq<F32>,
    t: int,
    f: nat,
    w: Seq<F32>,
    b: Option<Seq<F32>>,
    cg: nat,
    c0: int,
    o: int,
) -> spec_fn(int) -> Seq<F32> {
    |ti: int| conv3x3_row(x, t, f, w, b, cg as int, c0, o, ti, cg)
}

/// The output channels of [`conv3x3_causal_of`].
pub open spec fn conv3x3_planes(
    x: Seq<F32>,
    t: nat,
    f: nat,
    w: Seq<F32>,
    b: Option<Seq<F32>>,
    cg: nat,
    og: int,
) -> spec_fn(int) -> Seq<F32> {
    |o: int| rows(t, conv3x3_rows(x, t as int, f, w, b, cg, o / og * cg, o))
}

/// The 3x3 convolution with causal time padding: output frame `t` sees the frames `t - 2`,
/// `t - 1` and `t`. Output channel `o` belongs to group `o / (cout / groups)` and sees the
/// `cin / groups` input channels of that group.
pub open spec fn conv3x3_causal_of(
    x: Seq<F32>,
    cin: nat,
    t: nat,
    f: nat,
    w: Seq<F32>,
    b: Option<Seq<F32>>,
    cout: nat,
    groups: nat,
) -> Seq<F32> {
    rows(cout, conv3x3_planes(x, t, f, w, b, cin / groups, (cout / groups) as int))
}

/// Whether every output channel has a group, and every group its input channels.
pub open spec fn groups_fit(cin: int, cout: int, groups: int) -> bool {
    groups > 0 && (cout == 0 || (cout / groups > 0 && ((cout - 1) / (cout / groups) + 1) * (cin
        / groups) <= cin))
}

/// Groups that split input and output channels evenly fit.
pub proof fn lemma_even_groups_fit(cin: int, cout: int, groups: int)
    requires
        groups > 0,
        cin >= 0,
        cout >= groups,
        cin % groups == 0,
        cout % groups == 0,
    ensures
        groups_fit(cin, cout, groups),
{
    let og = cout / groups;
    lemma_fundamental_div_mod(cout, groups);
    lemma_fundamental_div_mod(cin, groups);
    lemma_div_non_zero(cout, groups);
    assert(groups * og == cout);
    assert((cout - 1) / og + 1 == groups) by {
        lemma_mul_is_distributive_sub_other_way(og, groups, 1);
        lemma_fundamental_div_mod_converse(cout - 1, og, groups - 1, og - 1);
    }
}

pub proof fn lemma_group(cin: int, cout: int, groups: int, o: int)
    requires
        groups_fit(cin, cout, groups),
        0 <= o < cout,
        cin >= 0,
    ensures
        0 <= o / (cout / groups) * (cin / groups),
        o / (cout / groups) * (cin / groups) + cin / groups <= cin,
{
    let og = cout / groups;
    let cg = cin / groups;
    lemma_div_pos_is_pos(cin, groups);
    lemma_div_is_ordered(o, cout - 1, og);
    lemma_div_pos_is_pos(o, og);
    lemma_mul_nonnegative(o / og, cg);
    lemma_row_fits(o / og, (cout - 1) / og + 1, cg);
}

/// 3x3 convolution with causal time padding (two frames of history, no lookahead) and zero-pad 1
/// on frequency. `groups` splits input and output channels.
pub fn conv3x3_causal(
    x: &[F32],
    cin: usize,
    t: usize,
    f: usize,
    w: &[F32],
    b: Option<&[F32]>,
    cout: usize,
    groups: usize,
) -> (out: Vec<F32>)
    requires
        groups_fit(cin as int, cout as int, groups as int),
        cin * t * f <= x@.len(),
        cin * t * (f + 2) <= usize::MAX,
        cin * t <= usize::MAX,
        f + 2 <= usize::MAX,
        cout * (cin as int / groups as int) * 9 <= w@.len(),
        b matches Some(s) ==> cout <= s@.len(),
    ensures
        out@ == conv3x3_causal_of(
            x@,
            cin as nat,
            t as nat,
            f as nat,
            w@,
            seq_of(b),
            cout as nat,
            groups as nat,
        ),
        out@.len() == cout * t * f,
{
    let cg = cin / groups;
    let og = cout / groups;
    let fp = f + 2;
    let xp = pad_freq(x, cin, t, f);
    let mut out: Vec<F32> = Vec::new();
    let ghost planes = conv3x3_planes(x@, t as nat, f as nat, w@, seq_of(b), cg as nat, og as int);
    proof {
        lemma_pad_len(x@, (cin * t) as nat, f as int);
    }
    for o in 0..cout
        invariant
            groups_fit(cin as int, cout as int, groups as int),
            cg == cin as int / groups as int,
            og == cout as int / groups as int,
            fp == f + 2,
            cin * t * f <= x@.len(),
            cin * t * (f + 2) <= usize::MAX,
            cin * t <= usize::MAX,
            cout * cg * 9 <= w@.len(),
            b matches Some(s) ==> cout <= s@.len(),
            xp@ == pad_freq_of(x@, (cin * t) as nat, f as int),
            xp@.len() == cin * t * fp,
            planes == conv3x3_planes(
                x@,
                t as nat,
                f as nat,
                w@,
                seq_of(b),
                cg as nat,
                og as int,
            ),
            out@ == rows(o as nat, planes),
    {
        proof {
            lemma_group(cin as int, cout as int, groups as int, o as int);
        }
        let c0 = o / og * cg;
        let ghost before = out@;
        let ghost g = conv3x3_rows(
            x@,
            t as int,
            f as nat,
            w@,
            seq_of(b),
            cg as nat,
            c0 as int,
            o as int,
        );
        for ti in 0..t
            invariant
                o < cout,
                c0 + cg <= cin,
                fp == f + 2,
                cin * t * f <= x@.len(),
                cin * t <= usize::MAX,
                cout * cg * 9 <= w@.len(),
                b matches Some(s) ==> cout <= s@.len(),
                xp@ == pad_freq_of(x@, (cin * t) as nat, f as int),
                xp@.len() == cin * t * fp,
                g == conv3x3_rows(
                    x@,
                    t as int,
                    f as nat,
                    w@,
                    seq_of(b),
                    cg as nat,
                    c0 as int,
                    o as int,
                ),
                out@ == before + rows(ti as nat, g),
        {
            let mut dst = fill(bias(b, o), f);
            for ci in 0..cg
                invariant
                    o < cout,
                    ti < t,
                    c0 + cg <= cin,
                    fp == f + 2,
                    cin * t * f <= x@.len(),
                    cin * t <= usize::MAX,
                    cout * cg * 9 <= w@.len(),
                    xp@ == pad_freq_of(x@, (cin * t) as nat, f as int),
                    xp@.len() == cin * t * fp,
                    dst@ == conv3x3_row(
                        x@,
                        t as int,
                        f as nat,
                        w@,
                        seq_of(b),
                        cg as int,
                        c0 as int,
                        o as int,
                        ti as int,
                        ci as nat,
                    ),
            {
                let total = w.len();
                proof {
                    lemma_place(o as int, ci as int, cout as int, cg as int);
                }
                let taps = row_at(w, o * cg + ci, 9);
                add_causal_taps(
                    &mut dst,
                    xp.as_slice(),
                    cin,
                    t,
                    f,
                    c0 + ci,
                    ti,
                    taps,
                    Ghost(x@),
                );
            }
            out.append(&mut dst);
            assert(out@ =~= before + rows((ti + 1) as nat, g));
        }
        assert(out@ =~= rows((o + 1) as nat, planes));
    }
    proof {
        lemma_conv3x3_len(
            x@,
            cin as nat,
            t as nat,
            f as nat,
            w@,
            seq_of(b),
            cout as nat,
            groups as nat,
        );
    }
    out
}

fn add_causal_taps(
    dst: &mut Vec<F32>,
    xp: &[F32],
    cin: usize,
    t: usize,
    f: usize,
    c: usize,
    ti: usize,
    w: &[F32],
    Ghost(x): Ghost<Seq<F32>>,
)
    requires
        c < cin,
        ti < t,
        cin * t * f <= x.len(),
        cin * t <= usize::MAX,
        f + 2 <= usize::MAX,
        xp@ == pad_freq_of(x, (cin * t) as nat, f as int),
        w@.len() == 9,
    ensures
        final(dst)@ == causal_taps(
            old(dst)@,
            x,
            t as int,
            f as int,
            c as int,
            ti as int,
            w@,
            3,
        ),
{
    for kt in 0..3usize
        invariant
            c < cin,
            ti < t,
            cin * t * f <= x.len(),
            cin * t <= usize::MAX,
            f + 2 <= usize::MAX,
            xp@ == pad_freq_of(x, (cin * t) as nat, f as int),
            w@.len() == 9,
            dst@ == causal_taps(
                old(dst)@,
                x,
                t as int,
                f as int,
                c as int,
                ti as int,
                w@,
                kt as nat,
            ),
    {
        if ti >= 2 - kt {
            let tt = ti - (2 - kt);
            proof {
                lemma_place(c as int, tt as int, cin as int, t as int);
                lemma_row_fits(c * t + tt, cin * t, f as int);
                lemma_row_fits(c * t + tt, cin * t, f + 2);
                lemma_pad_len(x, (cin * t) as nat, f as int);
                lemma_row_of_rows((cin * t) as nat, f + 2, pad_rows(x, f as int), c * t + tt);
            }
            let row = row_at(xp, c * t + tt, f + 2);
            add_freq_taps(dst, row, row_at(w, kt, 3), Ghost(row_of(x, c * t + tt, f as int)));
        }
    }
}

proof fn lemma_pad_len(x: Seq<F32>, n: nat, f: int)
    requires
        f >= 0,
        n * f <= x.len(),
    ensures
        pad_freq_of(x, n, f).len() == n * (f + 2),
        forall|r: int| 0 <= r < n ==> (#[trigger] pad_rows(x, f)(r)).len() == f + 2,
{
    assert forall|r: int| 0 <= r < n implies (#[trigger] pad_rows(x, f)(r)).len() == f + 2 by {
        lemma_row_fits(r, n as int, f);
    }
    lemma_rows_len(n, f + 2, pad_rows(x, f));
}

proof fn lemma_causal_taps_len(
    acc: Seq<F32>,
    x: Seq<F32>,
    t: int,
    f: int,
    c: int,
    ti: int,
    w: Seq<F32>,
    n: nat,
)
    ensures
        causal_taps(acc, x, t, f, c, ti, w, n).len() == acc.len(),
    decreases n,
{
    if n > 0 {
        lemma_causal_taps_len(acc, x, t, f, c, ti, w, (n - 1) as nat);
    }
}

pub proof fn lemma_conv3x3_row_len(
    x: Seq<F32>,
    t: int,
    f: nat,
    w: Seq<F32>,
    b: Option<Seq<F32>>,
    cg: int,
    c0: int,
    o: int,
    ti: int,
    n: nat,
)
    ensures
        conv3x3_row(x, t, f, w, b, cg, c0, o, ti, n).len() == f,
    decreases n,
{
    if n > 0 {
        lemma_conv3x3_row_len(x, t, f, w, b, cg, c0, o, ti, (n - 1) as nat);
        lemma_causal_taps_len(
            conv3x3_row(x, t, f, w, b, cg, c0, o, ti, (n - 1) as nat),
            x,
            t,
            f as int,
            c0 + (n - 1),
            ti,
            row_of(w, o * cg + (n - 1), 9),
            3,
        );
    }
}

pub proof fn lemma_conv3x3_len(
    x: Seq<F32>,
    cin: nat,
    t: nat,
    f: nat,
    w: Seq<F32>,
    b: Option<Seq<F32>>,
    cout: nat,
    groups: nat,
)
    ensures
        conv3x3_causal_of(x, cin, t, f, w, b, cout, groups).len() == cout * t * f,
{
    let cg = cin / groups;
    let og = (cout / groups) as int;
    let planes = conv3x3_planes(x, t, f, w, b, cg, og);
    assert forall|o: int| 0 <= o < cout implies (#[trigger] planes(o)).len() == t * f by {
        let g = conv3x3_rows(x, t as int, f, w, b, cg, o / og * cg, o);
        assert forall|ti: int| 0 <= ti < t implies (#[trigger] g(ti)).len() == f by {
            lemma_conv3x3_row_len(
                x,
                t as int,
                f,
                w,
                b,
                cg as int,
                o / og * cg,
                o,
                ti,
                cg,
            );
        }
        lemma_rows_len(t, f as int, g);
    }
    lemma_rows_len(cout, (t * f) as int, planes);
    lemma_mul_is_associative(cout as int, t as int, f as int);
}

/// Output row `(o, ti)` of [`conv1x3_of`] after `n` input channels.
pub open spec fn conv1x3_row(
    x: Seq<F32>,
    cin: int,
    t: int,
    f: nat,
    w: Seq<F32>,
    b: Seq<F32>,
    o: int,
    ti: int,
    n: nat,
) -> Seq<F32>
    decreases n,
{
    if n == 0 {
        filled(b[o], f)
    } else {
        freq_taps(
            conv1x3_row(x, cin, t, f, w, b, o, ti, (n - 1) as nat),
            row_of(x, (n - 1) * t + ti, f as int),
            row_of(w, o * cin + (n - 1), 3),
        )
    }
}

/// The rows of output channel `o` of [`conv1x3_of`].
pub open spec fn conv1x3_rows(
    x: Seq<F32>,
    cin: nat,
    t: int,
    f: nat,
    w: Seq<F32>,
    b: Seq<F32>,
    o: int,
) -> spec_fn(int) -> Seq<F32> {
    |ti: int| conv1x3_row(x, cin as int, t, f, w, b, o, ti, cin)
}

/// The output channels of [`conv1x3_of`].
pub open spec fn conv1x3_planes(
    x: Seq<F32>,
    cin: nat,
    t: nat,
    f: nat,
    w: Seq<F32>,
    b: Seq<F32>,
) -> spec_fn(int) -> Seq<F32> {
    |o: int| rows(t, conv1x3_rows(x, cin, t as int, f, w, b, o))
}

/// Convolution with kernel (1, 3) over frequency, every input channel into every output channel,
/// zero-pad 1 on each side.
pub open spec fn conv1x3_of(
    x: Seq<F32>,
    cin: nat,
    t: nat,
    f: nat,
    w: Seq<F32>,
    b: Seq<F32>,
    cout: nat,
) -> Seq<F32> {
    rows(cout, conv1x3_planes(x, cin, t, f, w, b))
}

/// Convolution with kernel (1, 3) over frequency, full channel mixing, zero-pad 1.
pub fn conv1x3(
    x: &[F32],
    cin: usize,
    t: usize,
    f: usize,
    w: &[F32],
    b: &[F32],
    cout: usize,
) -> (out: Vec<F32>)
    requires
        cin * t * f <= x@.len(),
        cin * t * (f + 2) <= usize::MAX,
        cin * t <= usize::MAX,
        f + 2 <= usize::MAX,
        cout * cin * 3 <= w@.len(),
        cout <= b@.len(),
    ensures
        out@ == conv1x3_of(x@, cin as nat, t as nat, f as nat, w@, b@, cout as nat),
        out@.len() == cout * t * f,
{
    let fp = f + 2;
    let xp = pad_freq(x, cin, t, f);
    let mut out: Vec<F32> = Vec::new();
    let ghost planes = conv1x3_planes(x@, cin as nat, t as nat, f as nat, w@, b@);
    proof {
        lemma_pad_len(x@, (cin * t) as nat, f as int);
    }
    for o in 0..cout
        invariant
            fp == f + 2,
            cin * t * f <= x@.len(),
            cin * t <= usize::MAX,
            cout * cin * 3 <= w@.len(),
            cout <= b@.len(),
            xp@ == pad_freq_of(x@, (cin * t) as nat, f as int),
            xp@.len() == cin * t * fp,
            planes == conv1x3_planes(x@, cin as nat, t as nat, f as nat, w@, b@),
            out@ == rows(o as nat, planes),
    {
        let ghost before = out@;
        let ghost g = conv1x3_rows(x@, cin as nat, t as int, f as nat, w@, b@, o as int);
        for ti in 0..t
            invariant
                o < cout,
                fp == f + 2,
                cin * t * f <= x@.len(),
                cin * t <= usize::MAX,
                cout * cin * 3 <= w@.len(),
                cout <= b@.len(),
                xp@ == pad_freq_of(x@, (cin * t) as nat, f as int),
                xp@.len() == cin * t * fp,
                g == conv1x3_rows(x@, cin as nat, t as int, f as nat, w@, b@, o as int),
                out@ == before + rows(ti as nat, g),
        {
            let mut dst = fill(b[o], f);
            for c in 0..cin
                invariant
                    o < cout,
                    ti < t,
                    fp == f + 2,
                    cin * t * f <= x@.len(),
                    cin * t <= usize::MAX,
                    cout * cin * 3 <= w@.len(),
                    xp@ == pad_freq_of(x@, (cin * t) as nat, f as int),
                    xp@.len() == cin * t * fp,
                    dst@ == conv1x3_row(
                        x@,
                        cin as int,
                        t as int,
                        f as nat,
                        w@,
                        b@,
                        o as int,
                        ti as int,
                        c as nat,
                    ),
            {
                let total = w.len();
                proof {
                    lemma_place(o as int, c as int, cout as int, cin as int);
                    lemma_place(c as int, ti as int, cin as int, t as int);
                    lemma_row_fits(c * t + ti, cin * t, f as int);
                    lemma_row_fits(c * t + ti, cin * t, f + 2);
                    lemma_pad_len(x@, (cin * t) as nat, f as int);
                    lemma_row_of_rows((cin * t) as nat, f + 2, pad_rows(x@, f as int), c * t + ti);
                }
                let row = row_at(xp.as_slice(), c * t + ti, fp);
                add_freq_taps(
                    &mut dst,
                    row,
                    row_at(w, o * cin + c, 3),
                    Ghost(row_of(x@, c * t + ti, f as int)),
                );
            }
            out.append(&mut dst);
            assert(out@ =~= before + rows((ti + 1) as nat, g));
        }
        assert(out@ =~= rows((o + 1) as nat, planes));
    }
    proof {
        lemma_conv1x3_len(x@, cin as nat, t as nat, f as nat, w@, b@, cout as nat);
    }
    out
}

pub proof fn lemma_conv1x3_row_len(
    x: Seq<F32>,
    cin: int,
    t: int,
    f: nat,
    w: Seq<F32>,
    b: Seq<F32>,
    o: int,
    ti: int,
    n: nat,
)
    ensures
        conv1x3_row(x, cin, t, f, w, b, o, ti, n).len() == f,
    decreases n,
{
    if n > 0 {
        lemma_conv1x3_row_len(x, cin, t, f, w, b, o, ti, (n - 1) as nat);
    }
}

pub proof fn lemma_conv1x3_len(
    x: Seq<F32>,
    cin: nat,
    t: nat,
    f: nat,
    w: Seq<F32>,
    b: Seq<F32>,
    cout: nat,
)
    ensures
        conv1x3_of(x, cin, t, f, w, b, cout).len() == cout * t * f,
{
    let planes = conv1x3_planes(x, cin, t, f, w, b);
    assert forall|o: int| 0 <= o < cout implies (#[trigger] planes(o)).len() == t * f by {
        let g = conv1x3_rows(x, cin, t as int, f, w, b, o);
        assert forall|ti: int| 0 <= ti < t implies (#[trigger] g(ti)).len() == f by {
            lemma_conv1x3_row_len(x, cin as int, t as int, f, w, b, o, ti, cin);
        }
        lemma_rows_len(t, f as int, g);
    }
    lemma_rows_len(cout, (t * f) as int, planes);
    lemma_mul_is_associative(cout as int, t as int, f as int);
}

// ------------------------------------------------------------------ linear / GRU

/// The first `n` terms of `sum_i x[i] * w[i][0..h]`, leaving out those where `x[i]` is a zero.
pub open spec fn linear_of(x: Seq<F32>, w: Seq<F32>, h: nat, n: nat) -> Seq<F32>
    decreases n,
{
    if n == 0 {
        zeros(h)
    } else {
        tap(linear_of(x, w, h, (n - 1) as nat), x[n - 1], row_of(w, n - 1, h as int))
    }
}

pub proof fn lemma_linear_len(x: Seq<F32>, w: Seq<F32>, h: nat, n: nat)
    ensures
        linear_of(x, w, h, n).len() == h,
    decreases n,
{
    if n > 0 {
        lemma_linear_len(x, w, h, (n - 1) as nat);
    }
}

/// One output row: `dst[0..h] = sum_i xv[i] * w[i][0..h]`.
pub fn linear_row(xv: &[F32], w: &[F32], h: usize, dst: &mut [F32])
    requires
        xv@.len() * h <= w@.len(),
        old(dst)@.len() == h,
    ensures
        final(dst)@ == linear_of(xv@, w@, h as nat, xv@.len()),
        final(dst)@.len() == h,
{
    for k in 0..h
        invariant
            dst@.len() == h,
            forall|j: int| 0 <= j < k ==> #[trigger] dst@[j] == F32::zero_spec(),
    {
        dst[k] = F32::zero();
    }
    let n = xv.len();
    assert(dst@ =~= zeros(h as nat));
    for i in 0..n
        invariant
            n == xv@.len(),
            n * h <= w@.len(),
            dst@.len() == h,
            dst@ == linear_of(xv@, w@, h as nat, i as nat),
    {
        proof {
            lemma_row_fits(i as int, n as int, h as int);
        }
        if !xv[i].is_zero() {
            axpy(dst, xv[i], row_at(w, i, h));
        }
    }
}

/// The groups of row `ti` of [`grouped_linear_of`].
pub open spec fn linear_groups(
    x: Seq<F32>,
    g: int,
    i: nat,
    h: nat,
    w: Seq<F32>,
    ti: int,
) -> spec_fn(int) -> Seq<F32> {
    |gi: int| linear_of(row_of(x, ti * g + gi, i as int), row_of(w, gi, (i * h) as int), h, i)
}

/// The rows of [`grouped_linear_of`].
pub open spec fn linear_rows(
    x: Seq<F32>,
    g: nat,
    i: nat,
    h: nat,
    w: Seq<F32>,
) -> spec_fn(int) -> Seq<F32> {
    |ti: int| rows(g, linear_groups(x, g as int, i, h, w, ti))
}

/// `x` of shape `[T, G * I]` through the `G` matrices `w` of shape `[G, I, H]`: shape
/// `[T, G * H]`.
pub open spec fn grouped_linear_of(
    x: Seq<F32>,
    t: nat,
    g: nat,
    i: nat,
    h: nat,
    w: Seq<F32>,
) -> Seq<F32> {
    rows(t, linear_rows(x, g, i, h, w))
}

/// `x` of shape `[T, G * I]` and `w` of shape `[G, I, H]` give `[T, G * H]`.
pub fn grouped_linear(x: &[F32], t: usize, g: usize, i: usize, h: usize, w: &[F32]) -> (out: Vec<
    F32,
>)
    requires
        t * g * i <= x@.len(),
        g * (i * h) <= w@.len(),
        t * g <= usize::MAX,
        i * h <= usize::MAX,
    ensures
        out@ == grouped_linear_of(x@, t as nat, g as nat, i as nat, h as nat, w@),
        out@.len() == t * (g * h),
{
    let mut out: Vec<F32> = Vec::new();
    let ghost f = linear_rows(x@, g as nat, i as nat, h as nat, w@);
    let ih = i * h;
    for ti in 0..t
        invariant
            t * g * i <= x@.len(),
            g * ih <= w@.len(),
            t * g <= usize::MAX,
            ih == i * h,
            f == linear_rows(x@, g as nat, i as nat, h as nat, w@),
            out@ == rows(ti as nat, f),
    {
        let ghost before = out@;
        let ghost q = linear_groups(x@, g as int, i as nat, h as nat, w@, ti as int);
        for gi in 0..g
            invariant
                ti < t,
                t * g * i <= x@.len(),
                g * ih <= w@.len(),
                t * g <= usize::MAX,
                ih == i * h,
                q == linear_groups(x@, g as int, i as nat, h as nat, w@, ti as int),
                out@ == before + rows(gi as nat, q),
        {
            proof {
                lemma_place(ti as int, gi as int, t as int, g as int);
                lemma_row_fits(ti * g + gi, t * g, i as int);
                lemma_row_fits(gi as int, g as int, ih as int);
            }
            let xv = row_at(x, ti * g + gi, i);
            let mut dst = fill(F32::zero(), h);
            linear_row(xv, row_at(w, gi, ih), h, dst.as_mut_slice());
            out.append(&mut dst);
            assert(out@ =~= before + rows((gi + 1) as nat, q));
        }
        assert(out@ =~= rows((ti + 1) as nat, f));
    }
    proof {
        lemma_grouped_linear_len(x@, t as nat, g as nat, i as nat, h as nat, w@);
    }
    out
}

pub proof fn lemma_grouped_linear_len(
    x: Seq<F32>,
    t: nat,
    g: nat,
    i: nat,
    h: nat,
    w: Seq<F32>,
)
    ensures
        grouped_linear_of(x, t, g, i, h, w).len() == t * (g * h),
        forall|ti: int|
            0 <= ti < t ==> (#[trigger] linear_rows(x, g, i, h, w)(ti)).len() == g * h,
{
    let f = linear_rows(x, g, i, h, w);
    assert forall|ti: int| 0 <= ti < t implies (#[trigger] f(ti)).len() == g * h by {
        let q = linear_groups(x, g as int, i, h, w, ti);
        assert forall|gi: int| 0 <= gi < g implies (#[trigger] q(gi)).len() == h by {
            lemma_linear_len(row_of(x, ti * g + gi, i as int), row_of(w, gi, (i * h) as int), h, i);
        }
        lemma_rows_len(g, h as int, q);
    }
    lemma_rows_len(t, (g * h) as int, f);
}

/// The new state of unit `k`: `z = sigmoid(xw + hr + rb)` and `r = sigmoid(xw + hr + rb)` from the
/// first and second third, `n = tanh(xw + r * (hr + rb))` from the last, and then
/// `(1 - z) * n + z * h`.
pub open spec fn gate_at(
    xw: Seq<F32>,
    hr: Seq<F32>,
    rb: Seq<F32>,
    h: Seq<F32>,
    hs: int,
    k: int,
) -> F32 {
    let z = sigmoid_of(xw[k].add_spec(hr[k]).add_spec(rb[k]));
    let r = sigmoid_of(xw[hs + k].add_spec(hr[hs + k]).add_spec(rb[hs + k]));
    let n = tanh_of(
        xw[2 * hs + k].add_spec(r.mul_spec(hr[2 * hs + k].add_spec(rb[2 * hs + k]))),
    );
    bits(ONE).sub_spec(z).mul_add_spec(n, z.mul_spec(h[k]))
}

/// The new state.
pub open spec fn gates_of(
    xw: Seq<F32>,
    hr: Seq<F32>,
    rb: Seq<F32>,
    h: Seq<F32>,
    hs: nat,
) -> Seq<F32> {
    Seq::new(hs, |k: int| gate_at(xw, hr, rb, h, hs as int, k))
}

/// One step of a gated recurrent unit of `hs` units: `xw` is the projected input, `hr` the
/// recurrent product, `rb` the recurrent bias, each for the gates z, r, h one after the other.
pub fn gate_update(xw: &[F32], hr: &[F32], rb: &[F32], h: &mut [F32], hs: usize)
    requires
        3 * hs <= xw@.len(),
        3 * hs <= hr@.len(),
        3 * hs <= rb@.len(),
        hs <= old(h)@.len(),
    ensures
        final(h)@ == over(gates_of(xw@, hr@, rb@, old(h)@, hs as nat), old(h)@),
{
    let total = xw.len();
    for k in 0..hs
        invariant
            total == xw@.len(),
            3 * hs <= xw@.len(),
            3 * hs <= hr@.len(),
            3 * hs <= rb@.len(),
            hs <= h@.len(),
            old(h)@.len() == h@.len(),
            forall|j: int|
                0 <= j < h@.len() ==> #[trigger] h@[j] == if j < k {
                    gate_at(xw@, hr@, rb@, old(h)@, hs as int, j)
                } else {
                    old(h)@[j]
                },
    {
        let z = sigmoid(xw[k].add(hr[k]).add(rb[k]));
        let r = sigmoid(xw[hs + k].add(hr[hs + k]).add(rb[hs + k]));
        let n = tanh(xw[2 * hs + k].add(r.mul(hr[2 * hs + k].add(rb[2 * hs + k]))));
        h[k] = F32::from_bits(ONE).sub(z).mul_add(n, z.mul(h[k]));
    }
    assert(h@ =~= over(gates_of(xw@, hr@, rb@, old(h)@, hs as nat), old(h)@));
}

/// The hidden state after `n` frames, starting from zero.
pub open spec fn gru_state(
    xw: Seq<F32>,
    r: Seq<F32>,
    rb: Seq<F32>,
    hs: nat,
    n: nat,
) -> Seq<F32>
    decreases n,
{
    if n == 0 {
        zeros(hs)
    } else {
        let h = gru_state(xw, r, rb, hs, (n - 1) as nat);
        gates_of(
            row_of(xw, n - 1, 3 * hs as int),
            matvec_packed_of(r, 3 * hs, hs as int, h),
            rb,
            h,
            hs,
        )
    }
}

/// The hidden states, frame by frame.
pub open spec fn gru_states(
    xw: Seq<F32>,
    r: Seq<F32>,
    rb: Seq<F32>,
    hs: nat,
) -> spec_fn(int) -> Seq<F32> {
    |ti: int| gru_state(xw, r, rb, hs, (ti + 1) as nat)
}

/// A gated recurrent unit over the frames of `x`: input weights `w`, recurrent weights `r` in
/// panels, and two biases in `b`, each in gate order update, reset, new.
pub open spec fn gru_of(
    x: Seq<F32>,
    t: nat,
    i: int,
    w: Seq<F32>,
    r: Seq<F32>,
    b: Seq<F32>,
    hs: nat,
) -> Seq<F32> {
    let xw = gemm_of(x, t, i, w, 3 * hs, b.take(3 * hs as int));
    rows(t, gru_states(xw, r, b.skip(3 * hs as int), hs))
}

pub proof fn lemma_gru_len(
    x: Seq<F32>,
    t: nat,
    i: int,
    w: Seq<F32>,
    r: Seq<F32>,
    b: Seq<F32>,
    hs: nat,
)
    ensures
        gru_of(x, t, i, w, r, b, hs).len() == t * hs,
{
    let xw = gemm_of(x, t, i, w, 3 * hs, b.take(3 * hs as int));
    lemma_rows_len(t, hs as int, gru_states(xw, r, b.skip(3 * hs as int), hs));
}

/// Gated recurrent unit, single direction, the reset gate applied after the recurrent product.
/// `x` has shape `[T, I]`, `w` `[3H, I]`, `r_packed` is [`pack_rows`] of `[3H, H]`, `b` `[6H]`
/// (gate order z, r, h). The state starts at zero.
pub fn gru(
    x: &[F32],
    t: usize,
    i: usize,
    w: &[F32],
    r_packed: &[F32],
    b: &[F32],
    h_size: usize,
) -> (y: Vec<F32>)
    requires
        t > 0,
        i > 0,
        h_size > 0,
        h_size % 8 == 0,
        x@.len() == t * i,
        3 * h_size * i <= w@.len(),
        3 * h_size * h_size <= r_packed@.len(),
        6 * h_size <= b@.len(),
        t * (3 * h_size) <= usize::MAX,
    ensures
        y@ == gru_of(x@, t as nat, i as int, w@, r_packed@, b@, h_size as nat),
        y@.len() == t * h_size,
{
    let total = b.len();
    let h3 = 3 * h_size;
    let bw = &b[0..h3];
    let rb = &b[h3..b.len()];
    assert(bw@ =~= b@.take(h3 as int));
    assert(rb@ =~= b@.skip(h3 as int));
    let mut xw = fill(F32::zero(), t * h3);
    gemm_nt(x, t, i, w, h3, bw, xw.as_mut_slice());
    let ghost f = gru_states(xw@, r_packed@, rb@, h_size as nat);
    proof {
        lemma_rows_len(
            t as nat,
            h3 as int,
            gemm_rows(x@, i as int, w@, h3 as nat, bw@),
        );
        assert(xw@ =~= gemm_of(x@, t as nat, i as int, w@, h3 as nat, bw@));
    }
    let mut h = fill(F32::zero(), h_size);
    let mut hr = fill(F32::zero(), h3);
    let mut y: Vec<F32> = Vec::new();
    assert(h@ =~= zeros(h_size as nat));
    for ti in 0..t
        invariant
            h3 == 3 * h_size,
            h_size % 8 == 0,
            h3 * h_size <= r_packed@.len(),
            rb@.len() >= h3,
            xw@.len() == t * h3,
            hr@.len() == h3,
            h@.len() == h_size,
            h@ == gru_state(xw@, r_packed@, rb@, h_size as nat, ti as nat),
            f == gru_states(xw@, r_packed@, rb@, h_size as nat),
            y@ == rows(ti as nat, f),
    {
        let ghost h0 = h@;
        matvec_packed(r_packed, h3, h_size, h.as_slice(), hr.as_mut_slice());
        proof {
            assert(h0.take(h_size as int) =~= h0);
            assert(hr@ =~= matvec_packed_of(r_packed@, h3 as nat, h_size as int, h0));
            lemma_row_fits(ti as int, t as int, h3 as int);
        }
        gate_update(row_at(xw.as_slice(), ti, h3), hr.as_slice(), rb, h.as_mut_slice(), h_size);
        assert(h@ =~= gru_state(xw@, r_packed@, rb@, h_size as nat, (ti + 1) as nat));
        let ghost before = y@;
        for k in 0..h_size
            invariant
                h@.len() == h_size,
                y@ == before + h@.take(k as int),
        {
            y.push(h[k]);
            assert(h@.take(k + 1) =~= h@.take(k as int).push(h@[k as int]));
        }
        assert(h@.take(h_size as int) =~= h@);
        assert(y@ =~= rows((ti + 1) as nat, f));
    }
    proof {
        lemma_gru_len(x@, t as nat, i as int, w@, r_packed@, b@, h_size as nat);
    }
    y
}

/// Every run of the recurrent unit starts from a state of zeros.
pub proof fn law_gru_starts_from_zero(
    x: Seq<F32>,
    t: nat,
    i: int,
    w: Seq<F32>,
    r: Seq<F32>,
    b: Seq<F32>,
    hs: nat,
)
    requires
        t > 0,
    ensures
        row_of(gru_of(x, t, i, w, r, b, hs), 0, hs as int) == gates_of(
            matvec_of(w, 3 * hs, i, row_of(x, 0, i), Some(b.take(3 * hs as int))),
            matvec_packed_of(r, 3 * hs, hs as int, zeros(hs)),
            b.skip(3 * hs as int),
            zeros(hs),
            hs,
        ),
{
    let bw = b.take(3 * hs as int);
    let rb = b.skip(3 * hs as int);
    let xw = gemm_of(x, t, i, w, 3 * hs, bw);
    law_gemm_rows_are_matvecs(x, t, i, w, 3 * hs, bw, 0);
    lemma_row_of_rows(t, hs as int, gru_states(xw, r, rb, hs), 0);
    assert(gru_state(xw, r, rb, hs, 0) == zeros(hs));
    assert(gru_state(xw, r, rb, hs, 1) == gates_of(
        row_of(xw, 0, 3 * hs as int),
        matvec_packed_of(r, 3 * hs, hs as int, zeros(hs)),
        rb,
        zeros(hs),
        hs,
    ));
}

/// With a packed recurrent matrix, each step multiplies the state by the matrix itself.
pub proof fn law_gru_steps_multiply_by_the_matrix(
    xw: Seq<F32>,
    m: Seq<F32>,
    rb: Seq<F32>,
    hs: nat,
    n: nat,
)
    requires
        n > 0,
        hs % 8 == 0,
        3 * hs * hs <= m.len(),
    ensures
        ({
            let r = pack_of(m, 3 * hs as int, hs as int);
            let h = gru_state(xw, r, rb, hs, (n - 1) as nat);
            gru_state(xw, r, rb, hs, n) == gates_of(
                row_of(xw, n - 1, 3 * hs as int),
                matvec_of(m, 3 * hs, hs as int, h, None),
                rb,
                h,
                hs,
            )
        }),
{
    let r = pack_of(m, 3 * hs as int, hs as int);
    let h = gru_state(xw, r, rb, hs, (n - 1) as nat);
    law_packed_matvec_is_matvec(m, 3 * hs as int, hs as int, h);
}

} // verus!
