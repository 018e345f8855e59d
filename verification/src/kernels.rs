//! What the network's kernels compute, as sums on reals: which number is weighed by which weight,
//! and how near the rounded result comes to the exact one.
use vstd::arithmetic::div_mod::*;
use vstd::arithmetic::mul::*;
use vstd::prelude::*;

use crate::float::F32;
use crate::nn::{
    bias_at, causal_taps, conv1x3_of, conv1x3_planes, conv1x3_row, conv1x3_rows, conv3x3_causal_of,
    conv3x3_planes, conv3x3_row, conv3x3_rows, convtranspose_dw_of, dot_of, dw_conv13_of,
    dw_planes, dw_rows, edge_tap, freq_taps, gemm_of, gemm_rows, grouped_linear_of, groups_fit,
    lane, lane_sum, lemma_conv1x3_row_len, lemma_conv3x3_row_len, lemma_dw_len,
    lemma_grouped_linear_len, lemma_linear_len, lemma_pointwise_plane_len, linear_groups,
    linear_of, linear_rows, matvec_of, matvec_packed_of, pack_of, padded, pointwise_of,
    pointwise_plane, pointwise_planes, strided, tail_sum, tap, transposed_planes, transposed_rows,
};
use crate::ranges::between;
use crate::rows::{lemma_place, lemma_row_fits, lemma_row_of_rows, lemma_rows_len, row_of, rows};
use crate::sums::{
    bounded, lemma_bounded_product, lemma_slack_grows, lemma_sum_eq, lemma_tracks_added,
    lemma_tracks_fused, lemma_tracks_skipped, lemma_tracks_start, lemma_tracks_sum, lemma_tracks_wider,
    lemma_tracks_zero, moderate, near, slack, sum, tracks,
};

verus! {

// ------------------------------------------------------------------ dot products

/// Every eighth term, from term `e` on.
spec fn eighth(g: spec_fn(int) -> real, e: int) -> spec_fn(int) -> real {
    |i: int| g(8 * i + e)
}

proof fn lemma_eighths(c: nat, g: spec_fn(int) -> real)
    ensures
        sum(8 * c, g) == sum(c, eighth(g, 0)) + sum(c, eighth(g, 1)) + sum(c, eighth(g, 2)) + sum(
            c,
            eighth(g, 3),
        ) + sum(c, eighth(g, 4)) + sum(c, eighth(g, 5)) + sum(c, eighth(g, 6)) + sum(
            c,
            eighth(g, 7),
        ),
    decreases c,
{
    if c > 0 {
        lemma_eighths((c - 1) as nat, g);
        reveal_with_fuel(sum, 9);
    }
}

proof fn lemma_lane_tracks(
    a: Seq<F32>,
    b: Seq<F32>,
    g: spec_fn(int) -> real,
    e: int,
    c: nat,
    p: real,
    q: real,
    m: real,
)
    requires
        bounded(a, p),
        bounded(b, q),
        p * q <= m,
        moderate(m),
        g == (|i: int| a[i].value() * b[i].value()),
        0 <= e < 8,
        8 * c <= a.len() <= b.len(),
        c <= 500,
    ensures
        tracks(lane(a, b, e, c), sum(c, eighth(g, e)), c as int, m),
    decreases c,
{
    if c == 0 {
        lemma_tracks_zero(m);
    } else {
        let k = (c - 1) as nat;
        lemma_lane_tracks(a, b, g, e, k, p, q, m);
        let i = 8 * k + e;
        assert(between(a[i], -p, p) && between(b[i], -q, q));
        lemma_bounded_product(a[i], b[i], p, q, m);
        lemma_tracks_fused(a[i], b[i], lane(a, b, e, k), sum(k, eighth(g, e)), k as int, m);
        assert(eighth(g, e)(k as int) == a[i].value() * b[i].value());
    }
}

proof fn lemma_tail_tracks(
    a: Seq<F32>,
    b: Seq<F32>,
    g: spec_fn(int) -> real,
    s: F32,
    from: nat,
    to: nat,
    p: real,
    q: real,
    m: real,
)
    requires
        bounded(a, p),
        bounded(b, q),
        p * q <= m,
        moderate(m),
        g == (|i: int| a[i].value() * b[i].value()),
        from <= to <= a.len() <= b.len(),
        to <= 3900,
        tracks(s, sum(from, g), from + 7int, m),
    ensures
        tracks(tail_sum(a, b, s, from as int, to as int), sum(to, g), to + 7int, m),
    decreases to,
{
    if from < to {
        let k = (to - 1) as nat;
        lemma_tail_tracks(a, b, g, s, from, k, p, q, m);
        assert(between(a[k as int], -p, p) && between(b[k as int], -q, q));
        lemma_bounded_product(a[k as int], b[k as int], p, q, m);
        lemma_tracks_added(
            a[k as int],
            b[k as int],
            tail_sum(a, b, s, from as int, k as int),
            sum(k, g),
            k + 7int,
            m,
        );
        assert(g(k as int) == a[k as int].value() * b[k as int].value());
    }
}

pub proof fn lemma_dot_tracks(a: Seq<F32>, b: Seq<F32>, p: real, q: real, m: real)
    requires
        a.len() <= b.len(),
        a.len() <= 3900,
        bounded(a, p),
        bounded(b, q),
        p * q <= m,
        moderate(m),
    ensures
        tracks(
            dot_of(a, b),
            sum(a.len(), |i: int| a[i].value() * b[i].value()),
            a.len() + 7int,
            m,
        ),
{
    reveal(dot_of);
    let n = a.len() as int;
    let c = (n / 8) as nat;
    let ci = c as int;
    let g = |i: int| a[i].value() * b[i].value();
    lemma_eighths(c, g);
    let s = Seq::new(8, |e: int| lane(a, b, e, c));
    lemma_lane_tracks(a, b, g, 0, c, p, q, m);
    lemma_lane_tracks(a, b, g, 1, c, p, q, m);
    lemma_lane_tracks(a, b, g, 2, c, p, q, m);
    lemma_lane_tracks(a, b, g, 3, c, p, q, m);
    lemma_lane_tracks(a, b, g, 4, c, p, q, m);
    lemma_lane_tracks(a, b, g, 5, c, p, q, m);
    lemma_lane_tracks(a, b, g, 6, c, p, q, m);
    lemma_lane_tracks(a, b, g, 7, c, p, q, m);
    let h = |e: int| sum(c, eighth(g, e));
    lemma_tracks_sum(s[0], h(0), ci, s[1], h(1), ci, m);
    lemma_tracks_sum(s[2], h(2), ci, s[3], h(3), ci, m);
    lemma_tracks_sum(s[4], h(4), ci, s[5], h(5), ci, m);
    lemma_tracks_sum(s[6], h(6), ci, s[7], h(7), ci, m);
    let (w, x, y, z) = (
        s[0].add_spec(s[1]),
        s[2].add_spec(s[3]),
        s[4].add_spec(s[5]),
        s[6].add_spec(s[7]),
    );
    lemma_tracks_sum(w, h(0) + h(1), 2 * ci + 1, x, h(2) + h(3), 2 * ci + 1, m);
    lemma_tracks_sum(y, h(4) + h(5), 2 * ci + 1, z, h(6) + h(7), 2 * ci + 1, m);
    lemma_tracks_sum(
        w.add_spec(x),
        h(0) + h(1) + (h(2) + h(3)),
        4 * ci + 3,
        y.add_spec(z),
        h(4) + h(5) + (h(6) + h(7)),
        4 * ci + 3,
        m,
    );
    lemma_tail_tracks(a, b, g, lane_sum(s), 8 * c, a.len(), p, q, m);
}

/// A dot product of up to 3900 pairs is the sum of their products, whatever their order: it is off by
/// no more than the roundings of the running sum.
pub proof fn law_dot_sums_the_products(a: Seq<F32>, b: Seq<F32>, p: real, q: real, m: real)
    requires
        a.len() <= b.len(),
        a.len() <= 3900,
        bounded(a, p),
        bounded(b, q),
        p * q <= m,
        moderate(m),
    ensures
        near(
            dot_of(a, b),
            sum(a.len(), |i: int| a[i].value() * b[i].value()),
            slack(a.len() + 7int, m),
        ),
{
    lemma_dot_tracks(a, b, p, q, m);
}

/// A product with a matrix: place `j` weighs place `i` of `x` by number `j * k + i` of the matrix, and
/// adds bias `j`.
pub proof fn law_matvec_sums_along_rows(
    w: Seq<F32>,
    n: nat,
    k: nat,
    x: Seq<F32>,
    b: Option<Seq<F32>>,
    j: int,
    p: real,
    q: real,
    m: real,
)
    requires
        0 <= j < n,
        n * k <= w.len(),
        x.len() == k,
        k <= 3900,
        bounded(w, p),
        bounded(x, q),
        p * q <= m,
        moderate(m),
        b matches Some(s) ==> j < s.len() && between(s[j], -m, m),
    ensures
        matvec_of(w, n, k as int, x, b).len() == n,
        near(
            matvec_of(w, n, k as int, x, b)[j],
            sum(k, |i: int| w[j * k + i].value() * x[i].value()) + (match b {
                Some(s) => s[j].value(),
                None => 0real,
            }),
            slack(k + 8int, m),
        ),
{
    lemma_row_fits(j, n as int, k as int);
    let row = row_of(w, j, k as int);
    assert(row.len() == k);
    assert forall|i: int| 0 <= i < row.len() implies between(#[trigger] row[i], -p, p) by {
        assert(row[i] == w[j * k + i]);
    }
    lemma_dot_tracks(row, x, p, q, m);
    let (g, h) = (
        |i: int| row[i].value() * x[i].value(),
        |i: int| w[j * k + i].value() * x[i].value(),
    );
    assert forall|i: int| 0 <= i < k implies #[trigger] g(i) == h(i) by {
        assert(row[i] == w[j * k + i]);
    }
    lemma_sum_eq(k, g, h);
    let c = bias_at(b, j);
    crate::ranges::lemma_zero();
    match b {
        None => {
            lemma_tracks_zero(m);
        },
        Some(s) => {
            lemma_tracks_start(c, m);
        },
    }
    lemma_tracks_sum(dot_of(row, x), sum(k, g), k + 7int, c, c.value(), 0, m);
}

/// A matrix applied to every row: place `j` of row `t` weighs place `i` of row `t` of `x`.
pub proof fn law_gemm_sums_along_rows(
    x: Seq<F32>,
    t: nat,
    k: nat,
    w: Seq<F32>,
    n: nat,
    b: Seq<F32>,
    ti: int,
    j: int,
    p: real,
    q: real,
    m: real,
)
    requires
        0 <= ti < t,
        0 <= j < n,
        t * k <= x.len(),
        n * k <= w.len(),
        n <= b.len(),
        k <= 3900,
        bounded(w, p),
        bounded(x, q),
        bounded(b, m),
        p * q <= m,
        moderate(m),
    ensures
        gemm_of(x, t, k as int, w, n, b).len() == t * n,
        near(
            gemm_of(x, t, k as int, w, n, b)[ti * n + j],
            sum(k, |i: int| w[j * k + i].value() * x[ti * k + i].value()) + b[j].value(),
            slack(k + 8int, m),
        ),
{
    let g = gemm_rows(x, k as int, w, n, b);
    lemma_row_of_rows(t, n as int, g, ti);
    lemma_row_fits(ti, t as int, n as int);
    lemma_row_fits(ti, t as int, k as int);
    assert(row_of(rows(t, g), ti, n as int)[j] == rows(t, g)[ti * n + j]);
    let row = row_of(x, ti, k as int);
    assert forall|i: int| 0 <= i < row.len() implies between(#[trigger] row[i], -q, q) by {
        assert(row[i] == x[ti * k + i]);
    }
    assert(between(b[j], -m, m));
    law_matvec_sums_along_rows(w, n, k, row, Some(b), j, p, q, m);
    let (h1, h2) = (
        |i: int| w[j * k + i].value() * row[i].value(),
        |i: int| w[j * k + i].value() * x[ti * k + i].value(),
    );
    assert forall|i: int| 0 <= i < k implies #[trigger] h1(i) == h2(i) by {
        assert(row[i] == x[ti * k + i]);
    }
    lemma_sum_eq(k, h1, h2);
}

/// A product with a matrix that was put in panels weighs as the matrix itself does.
pub proof fn law_packed_matvec_sums_along_rows(
    w: Seq<F32>,
    n: nat,
    k: nat,
    x: Seq<F32>,
    j: int,
    p: real,
    q: real,
    m: real,
)
    requires
        n % 12 == 0,
        k % 8 == 0,
        0 <= j < n,
        n * k <= w.len(),
        x.len() == k,
        k <= 3900,
        bounded(w, p),
        bounded(x, q),
        p * q <= m,
        moderate(m),
    ensures
        near(
            matvec_packed_of(pack_of(w, n as int, k as int), n, k as int, x)[j],
            sum(k, |i: int| w[j * k + i].value() * x[i].value()),
            slack(k + 8int, m),
        ),
{
    crate::nn::law_packed_matvec_is_matvec(w, n as int, k as int, x);
    law_matvec_sums_along_rows(w, n, k, x, None, j, p, q, m);
}

// ------------------------------------------------------------------ taps

/// Number `i` of a row of width `f` that starts at `base`; zero outside the row.
pub open spec fn cell(x: Seq<F32>, base: int, f: int, i: int) -> real {
    if 0 <= i < f {
        x[base + i].value()
    } else {
        0real
    }
}

/// One tap at one place.
proof fn lemma_tap_tracks(acc: Seq<F32>, s: F32, x: Seq<F32>, i: int, a: real, k: int, m: real)
    requires
        0 <= i < acc.len(),
        i < x.len(),
        tracks(acc[i], a, k, m),
        moderate(m),
        0 <= k < 3999,
        s.is_finite_spec(),
        x[i].is_finite_spec(),
        -m <= s.value() * x[i].value() <= m,
    ensures
        tap(acc, s, x).len() == acc.len(),
        tracks(tap(acc, s, x)[i], a + s.value() * x[i].value(), k + 1, m),
{
    if s.is_zero_spec() {
        lemma_tracks_skipped(s, x[i], acc[i], a, k, m);
    } else {
        lemma_tracks_fused(s, x[i], acc[i], a, k, m);
    }
}

proof fn lemma_pointwise_tracks(
    x: Seq<F32>,
    cin: nat,
    tf: nat,
    w: Seq<F32>,
    b: Option<Seq<F32>>,
    o: int,
    i: int,
    c: nat,
    p: real,
    q: real,
    m: real,
)
    requires
        c <= cin <= 3900,
        0 <= i < tf,
        0 <= o,
        cin * tf <= x.len(),
        (o + 1) * cin <= w.len(),
        bounded(w, p),
        bounded(x, q),
        p * q <= m,
        moderate(m),
        between(bias_at(b, o), -m, m),
    ensures
        pointwise_plane(x, cin as int, tf, w, b, o, c).len() == tf,
        tracks(
            pointwise_plane(x, cin as int, tf, w, b, o, c)[i],
            bias_at(b, o).value() + sum(
                c,
                |k: int| w[o * cin + k].value() * x[k * tf + i].value(),
            ),
            c as int,
            m,
        ),
    decreases c,
{
    let g = |k: int| w[o * cin + k].value() * x[k * tf + i].value();
    if c == 0 {
        lemma_tracks_start(bias_at(b, o), m);
    } else {
        let k = (c - 1) as nat;
        lemma_pointwise_tracks(x, cin, tf, w, b, o, i, k, p, q, m);
        lemma_row_fits(k as int, cin as int, tf as int);
        assert((o + 1) * cin == o * cin + cin && 0 <= o * cin) by (nonlinear_arith)
            requires
                0 <= o,
                0 <= cin,
        ;
        let row = row_of(x, k as int, tf as int);
        assert(row[i] == x[k * tf + i]);
        let s = w[o * cin + k];
        assert(between(s, -p, p) && between(x[k * tf + i], -q, q));
        lemma_bounded_product(s, x[k * tf + i], p, q, m);
        lemma_tap_tracks(
            pointwise_plane(x, cin as int, tf, w, b, o, k),
            s,
            row,
            i,
            bias_at(b, o).value() + sum(k, g),
            k as int,
            m,
        );
        assert(g(k as int) == s.value() * row[i].value());
    }
}

/// A 1x1 convolution: place `i` of output plane `o` adds up place `i` of every input plane, input
/// plane `c` weighed by number `o * cin + c` of the weights, and the bias of `o`.
pub proof fn law_pointwise_mixes_the_planes(
    x: Seq<F32>,
    cin: nat,
    tf: nat,
    w: Seq<F32>,
    b: Option<Seq<F32>>,
    cout: nat,
    o: int,
    i: int,
    p: real,
    q: real,
    m: real,
)
    requires
        0 <= o < cout,
        0 <= i < tf,
        cin <= 3900,
        cin * tf <= x.len(),
        cout * cin <= w.len(),
        b matches Some(s) ==> o < s.len() && between(s[o], -m, m),
        bounded(w, p),
        bounded(x, q),
        p * q <= m,
        moderate(m),
    ensures
        pointwise_of(x, cin, tf, w, b, cout).len() == cout * tf,
        near(
            pointwise_of(x, cin, tf, w, b, cout)[o * tf + i],
            (match b {
                Some(s) => s[o].value(),
                None => 0real,
            }) + sum(cin, |c: int| w[o * cin + c].value() * x[c * tf + i].value()),
            slack(cin as int, m),
        ),
{
    crate::ranges::lemma_zero();
    lemma_row_fits(o, cout as int, cin as int);
    lemma_pointwise_tracks(x, cin, tf, w, b, o, i, cin, p, q, m);
    let g = pointwise_planes(x, cin, tf, w, b);
    assert forall|k: int| 0 <= k < cout implies (#[trigger] g(k)).len() == tf by {
        lemma_pointwise_plane_len(x, cin as int, tf, w, b, k, cin);
    }
    lemma_row_of_rows(cout, tf as int, g, o);
    lemma_row_fits(o, cout as int, tf as int);
    assert(row_of(rows(cout, g), o, tf as int)[i] == rows(cout, g)[o * tf + i]);
}

// ------------------------------------------------------------------ convolutions over frequency

/// The three taps of one row at place `i`: `w[j]` weighs place `i + j - 1`.
proof fn lemma_freq_taps_track(
    acc: Seq<F32>,
    row: Seq<F32>,
    w: Seq<F32>,
    i: int,
    a: real,
    k: int,
    p: real,
    q: real,
    m: real,
)
    requires
        0 <= i < acc.len(),
        acc.len() == row.len(),
        w.len() == 3,
        tracks(acc[i], a, k, m),
        0 <= k < 3990,
        bounded(w, p),
        bounded(row, q),
        p * q <= m,
        moderate(m),
    ensures
        freq_taps(acc, row, w).len() == acc.len(),
        tracks(
            freq_taps(acc, row, w)[i],
            a + sum(3, |j: int| w[j].value() * cell(row, 0, row.len() as int, i + j - 1)),
            k + 3,
            m,
        ),
{
    let f = row.len() as int;
    let pd = padded(row);
    crate::ranges::lemma_zero();
    assert(between(row[i], -q, q));
    assert forall|j: int| 0 <= j < pd.len() implies between(#[trigger] pd[j], -q, q) && pd[j].value()
        == cell(row, 0, f, j - 1) by {
        if 1 <= j <= f {
            assert(pd[j] == row[j - 1]);
            assert(between(row[j - 1], -q, q));
        } else {
            assert(pd[j] == F32::zero_spec());
        }
    }
    let (r0, r1, r2) = (pd.subrange(0, f), pd.subrange(1, f + 1), pd.subrange(2, f + 2));
    assert(r0[i] == pd[i] && r1[i] == pd[i + 1] && r2[i] == pd[i + 2]);
    assert(between(w[0], -p, p) && between(w[1], -p, p) && between(w[2], -p, p));
    lemma_bounded_product(w[0], r0[i], p, q, m);
    lemma_bounded_product(w[1], r1[i], p, q, m);
    lemma_bounded_product(w[2], r2[i], p, q, m);
    let g = |j: int| w[j].value() * cell(row, 0, f, i + j - 1);
    lemma_tap_tracks(acc, w[0], r0, i, a, k, m);
    let a1 = tap(acc, w[0], r0);
    lemma_tap_tracks(a1, w[1], r1, i, a + g(0), k + 1, m);
    let a2 = tap(a1, w[1], r1);
    lemma_tap_tracks(a2, w[2], r2, i, a + g(0) + g(1), k + 2, m);
    reveal_with_fuel(sum, 4);
    assert(sum(3, g) == g(0) + g(1) + g(2));
}

/// Place `i` of row `ti` of plane `o` of a map of planes of rows.
pub proof fn lemma_map_cell(
    c: nat,
    t: nat,
    f: int,
    planes: spec_fn(int) -> Seq<F32>,
    row: spec_fn(int) -> Seq<F32>,
    o: int,
    ti: int,
    i: int,
)
    requires
        0 <= o < c,
        0 <= ti < t,
        0 <= i < f,
        forall|k: int| 0 <= k < c ==> (#[trigger] planes(k)).len() == t * f,
        planes(o) == rows(t, row),
        forall|k: int| 0 <= k < t ==> (#[trigger] row(k)).len() == f,
    ensures
        0 <= (o * t + ti) * f + i < rows(c, planes).len(),
        rows(c, planes)[(o * t + ti) * f + i] == row(ti)[i],
{
    lemma_mul_nonnegative(t as int, f);
    lemma_row_of_rows(c, t * f, planes, o);
    lemma_row_of_rows(t, f, row, ti);
    lemma_row_fits(o, c as int, t * f);
    lemma_row_fits(ti, t as int, f);
    lemma_mul_is_associative(o, t as int, f);
    lemma_mul_is_distributive_add_other_way(f, o * t, ti);
    let all = rows(c, planes);
    assert(row_of(all, o, t * f)[ti * f + i] == all[o * (t * f) + (ti * f + i)]);
    assert(row_of(planes(o), ti, f)[i] == planes(o)[ti * f + i]);
}

/// Three numbers from `base` on.
proof fn lemma_three(w: Seq<F32>, r: int, p: real)
    requires
        0 <= r,
        3 * (r + 1) <= w.len(),
        bounded(w, p),
    ensures
        row_of(w, r, 3).len() == 3,
        bounded(row_of(w, r, 3), p),
        forall|j: int| 0 <= j < 3 ==> #[trigger] row_of(w, r, 3)[j] == w[r * 3 + j],
{
    let row = row_of(w, r, 3);
    assert forall|j: int| 0 <= j < row.len() implies between(#[trigger] row[j], -p, p) by {
        assert(row[j] == w[r * 3 + j]);
    }
}

/// A row of a bounded array.
proof fn lemma_row_bounded(x: Seq<F32>, r: int, n: int, f: int, q: real)
    requires
        0 <= r < n,
        0 <= f,
        n * f <= x.len(),
        bounded(x, q),
    ensures
        row_of(x, r, f).len() == f,
        bounded(row_of(x, r, f), q),
        forall|i: int| 0 <= i < f ==> #[trigger] row_of(x, r, f)[i] == x[r * f + i],
{
    lemma_row_fits(r, n, f);
    let row = row_of(x, r, f);
    assert forall|i: int| 0 <= i < row.len() implies between(#[trigger] row[i], -q, q) by {
        assert(row[i] == x[r * f + i]);
    }
}

proof fn lemma_conv1x3_tracks(
    x: Seq<F32>,
    cin: nat,
    t: nat,
    f: nat,
    w: Seq<F32>,
    b: Seq<F32>,
    o: int,
    ti: int,
    i: int,
    n: nat,
    p: real,
    q: real,
    m: real,
)
    requires
        n <= cin <= 1000,
        0 <= o,
        0 <= ti < t,
        0 <= i < f,
        cin * t * f <= x.len(),
        3 * ((o + 1) * cin) <= w.len(),
        o < b.len(),
        between(b[o], -m, m),
        bounded(w, p),
        bounded(x, q),
        p * q <= m,
        moderate(m),
    ensures
        conv1x3_row(x, cin as int, t as int, f, w, b, o, ti, n).len() == f,
        tracks(
            conv1x3_row(x, cin as int, t as int, f, w, b, o, ti, n)[i],
            b[o].value() + sum(
                n,
                |c: int|
                    sum(
                        3,
                        |j: int|
                            w[(o * cin + c) * 3 + j].value() * cell(
                                x,
                                (c * t + ti) * f,
                                f as int,
                                i + j - 1,
                            ),
                    ),
            ),
            3int * n,
            m,
        ),
    decreases n,
{
    let g = |c: int|
        sum(
            3,
            |j: int|
                w[(o * cin + c) * 3 + j].value() * cell(x, (c * t + ti) * f, f as int, i + j - 1),
        );
    if n == 0 {
        lemma_tracks_start(b[o], m);
    } else {
        let c = n - 1;
        lemma_conv1x3_tracks(x, cin, t, f, w, b, o, ti, i, c as nat, p, q, m);
        let acc = conv1x3_row(x, cin as int, t as int, f, w, b, o, ti, c as nat);
        lemma_place(c, ti, cin as int, t as int);
        lemma_row_bounded(x, c * t + ti, cin as int * t, f as int, q);
        assert((o + 1) * cin == o * cin + cin && 0 <= o * cin) by (nonlinear_arith)
            requires
                0 <= o,
                0 <= cin,
        ;
        lemma_three(w, o * cin + c, p);
        let row = row_of(x, c * t + ti, f as int);
        let w3 = row_of(w, o * cin + c, 3);
        lemma_freq_taps_track(
            acc,
            row,
            w3,
            i,
            b[o].value() + sum(c as nat, g),
            3 * c,
            p,
            q,
            m,
        );
        let (h1, h2) = (
            |j: int| w3[j].value() * cell(row, 0, row.len() as int, i + j - 1),
            |j: int|
                w[(o * cin + c) * 3 + j].value() * cell(x, (c * t + ti) * f, f as int, i + j - 1),
        );
        assert forall|j: int| 0 <= j < 3 implies #[trigger] h1(j) == h2(j) by {
            assert(w3[j] == w[(o * cin + c) * 3 + j]);
            let l = i + j - 1;
            if 0 <= l < f {
                assert(row[l] == x[(c * t + ti) * f + l]);
            }
        }
        lemma_sum_eq(3, h1, h2);
        assert(g(c) == sum(3, h2));
    }
}

/// A convolution over frequency: place `i` of frame `ti` of output channel `o` adds up, over every
/// input channel `c` and tap `j`, place `i + j - 1` of frame `ti` weighed by tap `j` of `(o, c)`.
pub proof fn law_conv1x3_weighs_the_neighbours(
    x: Seq<F32>,
    cin: nat,
    t: nat,
    f: nat,
    w: Seq<F32>,
    b: Seq<F32>,
    cout: nat,
    o: int,
    ti: int,
    i: int,
    p: real,
    q: real,
    m: real,
)
    requires
        cin <= 1000,
        0 <= o < cout,
        0 <= ti < t,
        0 <= i < f,
        cin * t * f <= x.len(),
        3 * (cout * cin) <= w.len(),
        cout <= b.len(),
        bounded(b, m),
        bounded(w, p),
        bounded(x, q),
        p * q <= m,
        moderate(m),
    ensures
        near(
            conv1x3_of(x, cin, t, f, w, b, cout)[(o * t + ti) * f + i],
            b[o].value() + sum(
                cin,
                |c: int|
                    sum(
                        3,
                        |j: int|
                            w[(o * cin + c) * 3 + j].value() * cell(
                                x,
                                (c * t + ti) * f,
                                f as int,
                                i + j - 1,
                            ),
                    ),
            ),
            slack(3int * cin, m),
        ),
{
    lemma_row_fits(o, cout as int, cin as int);
    assert(between(b[o], -m, m));
    lemma_conv1x3_tracks(x, cin, t, f, w, b, o, ti, i, cin, p, q, m);
    let planes = conv1x3_planes(x, cin, t, f, w, b);
    assert forall|k: int| 0 <= k < cout implies (#[trigger] planes(k)).len() == t * f by {
        let g = conv1x3_rows(x, cin, t as int, f, w, b, k);
        assert forall|l: int| 0 <= l < t implies (#[trigger] g(l)).len() == f by {
            lemma_conv1x3_row_len(x, cin as int, t as int, f, w, b, k, l, cin);
        }
        lemma_rows_len(t, f as int, g);
    }
    let g = conv1x3_rows(x, cin, t as int, f, w, b, o);
    assert forall|l: int| 0 <= l < t implies (#[trigger] g(l)).len() == f by {
        lemma_conv1x3_row_len(x, cin as int, t as int, f, w, b, o, l, cin);
    }
    lemma_map_cell(cout, t, f as int, planes, g, o, ti, i);
}

/// Number `i` of frame `ti` of channel `c` of a map; zero outside the frames and outside the row.
pub open spec fn map_cell(x: Seq<F32>, t: int, f: int, c: int, ti: int, i: int) -> real {
    if 0 <= ti < t {
        cell(x, (c * t + ti) * f, f, i)
    } else {
        0real
    }
}

proof fn lemma_causal_taps_track(
    acc: Seq<F32>,
    x: Seq<F32>,
    cin: nat,
    t: nat,
    f: nat,
    c: int,
    ti: int,
    w: Seq<F32>,
    n: nat,
    i: int,
    a: real,
    k: int,
    p: real,
    q: real,
    m: real,
)
    requires
        n <= 3,
        acc.len() == f,
        w.len() == 9,
        0 <= c < cin,
        0 <= ti < t,
        0 <= i < f,
        cin * t * f <= x.len(),
        0 <= k < 3900,
        tracks(acc[i], a, k, m),
        bounded(w, p),
        bounded(x, q),
        p * q <= m,
        moderate(m),
    ensures
        causal_taps(acc, x, t as int, f as int, c, ti, w, n).len() == f,
        tracks(
            causal_taps(acc, x, t as int, f as int, c, ti, w, n)[i],
            a + sum(
                n,
                |d: int|
                    sum(
                        3,
                        |j: int|
                            w[d * 3 + j].value() * map_cell(
                                x,
                                t as int,
                                f as int,
                                c,
                                ti + d - 2,
                                i + j - 1,
                            ),
                    ),
            ),
            k + 3 * n,
            m,
        ),
    decreases n,
{
    let g = |d: int|
        sum(
            3,
            |j: int|
                w[d * 3 + j].value() * map_cell(x, t as int, f as int, c, ti + d - 2, i + j - 1),
        );
    if n > 0 {
        let d = n - 1;
        lemma_causal_taps_track(acc, x, cin, t, f, c, ti, w, d as nat, i, a, k, p, q, m);
        let before = causal_taps(acc, x, t as int, f as int, c, ti, w, d as nat);
        let tt = ti + d - 2;
        let h2 = |j: int|
            w[d * 3 + j].value() * map_cell(x, t as int, f as int, c, ti + d - 2, i + j - 1);
        assert(g(d) == sum(3, h2));
        if tt < 0 {
            reveal_with_fuel(sum, 4);
            assert forall|j: int| #[trigger] h2(j) == 0real by {
                let v = w[d * 3 + j].value();
                assert(v * 0real == 0real) by (nonlinear_arith);
            }
            assert(sum(3, h2) == h2(0) + h2(1) + h2(2));
            lemma_tracks_wider(before[i], a + sum(d as nat, g), k + 3 * d, k + 3 * n, m);
        } else {
            lemma_place(c, tt, cin as int, t as int);
            lemma_row_bounded(x, c * t + tt, cin as int * t, f as int, q);
            lemma_three(w, d, p);
            let row = row_of(x, c * t + tt, f as int);
            let w3 = row_of(w, d, 3);
            lemma_freq_taps_track(before, row, w3, i, a + sum(d as nat, g), k + 3 * d, p, q, m);
            let h1 = |j: int| w3[j].value() * cell(row, 0, row.len() as int, i + j - 1);
            assert forall|j: int| 0 <= j < 3 implies #[trigger] h1(j) == h2(j) by {
                assert(w3[j] == w[d * 3 + j]);
                let l = i + j - 1;
                if 0 <= l < f {
                    assert(row[l] == x[(c * t + tt) * f + l]);
                }
            }
            lemma_sum_eq(3, h1, h2);
        }
    }
}

proof fn lemma_conv3x3_tracks(
    x: Seq<F32>,
    cin: nat,
    t: nat,
    f: nat,
    w: Seq<F32>,
    b: Option<Seq<F32>>,
    cg: int,
    c0: int,
    o: int,
    ti: int,
    n: nat,
    i: int,
    p: real,
    q: real,
    m: real,
)
    requires
        n <= cg <= 400,
        0 <= c0,
        c0 + cg <= cin,
        0 <= o,
        0 <= ti < t,
        0 <= i < f,
        cin * t * f <= x.len(),
        9 * ((o + 1) * cg) <= w.len(),
        between(bias_at(b, o), -m, m),
        bounded(w, p),
        bounded(x, q),
        p * q <= m,
        moderate(m),
    ensures
        conv3x3_row(x, t as int, f, w, b, cg, c0, o, ti, n).len() == f,
        tracks(
            conv3x3_row(x, t as int, f, w, b, cg, c0, o, ti, n)[i],
            bias_at(b, o).value() + sum(
                n,
                |c: int|
                    sum(
                        3,
                        |d: int|
                            sum(
                                3,
                                |j: int|
                                    w[(o * cg + c) * 9 + (d * 3 + j)].value() * map_cell(
                                        x,
                                        t as int,
                                        f as int,
                                        c0 + c,
                                        ti + d - 2,
                                        i + j - 1,
                                    ),
                            ),
                    ),
            ),
            9int * n,
            m,
        ),
    decreases n,
{
    let inner = |c: int, d: int|
        sum(
            3,
            |j: int|
                w[(o * cg + c) * 9 + (d * 3 + j)].value() * map_cell(
                    x,
                    t as int,
                    f as int,
                    c0 + c,
                    ti + d - 2,
                    i + j - 1,
                ),
        );
    let g = |c: int|
        sum(
            3,
            |d: int|
                sum(
                    3,
                    |j: int|
                        w[(o * cg + c) * 9 + (d * 3 + j)].value() * map_cell(
                            x,
                            t as int,
                            f as int,
                            c0 + c,
                            ti + d - 2,
                            i + j - 1,
                        ),
                ),
        );
    if n == 0 {
        lemma_tracks_start(bias_at(b, o), m);
    } else {
        let c = n - 1;
        lemma_conv3x3_tracks(x, cin, t, f, w, b, cg, c0, o, ti, c as nat, i, p, q, m);
        let acc = conv3x3_row(x, t as int, f, w, b, cg, c0, o, ti, c as nat);
        assert((o + 1) * cg == o * cg + cg && 0 <= o * cg) by (nonlinear_arith)
            requires
                0 <= o,
                0 <= cg,
        ;
        let r = o * cg + c;
        lemma_row_bounded(w, r, r + 1, 9, p);
        let w9 = row_of(w, r, 9);
        lemma_causal_taps_track(
            acc,
            x,
            cin,
            t,
            f,
            c0 + c,
            ti,
            w9,
            3,
            i,
            bias_at(b, o).value() + sum(c as nat, g),
            9 * c,
            p,
            q,
            m,
        );
        let h1 = |d: int|
            sum(
                3,
                |j: int|
                    w9[d * 3 + j].value() * map_cell(
                        x,
                        t as int,
                        f as int,
                        c0 + c,
                        ti + d - 2,
                        i + j - 1,
                    ),
            );
        let h2 = |d: int| inner(c, d);
        assert forall|d: int| 0 <= d < 3 implies #[trigger] h1(d) == h2(d) by {
            let k1 = |j: int|
                w9[d * 3 + j].value() * map_cell(
                    x,
                    t as int,
                    f as int,
                    c0 + c,
                    ti + d - 2,
                    i + j - 1,
                );
            let k2 = |j: int|
                w[(o * cg + c) * 9 + (d * 3 + j)].value() * map_cell(
                    x,
                    t as int,
                    f as int,
                    c0 + c,
                    ti + d - 2,
                    i + j - 1,
                );
            assert forall|j: int| 0 <= j < 3 implies #[trigger] k1(j) == k2(j) by {
                assert(w9[d * 3 + j] == w[r * 9 + (d * 3 + j)]);
            }
            lemma_sum_eq(3, k1, k2);
        }
        lemma_sum_eq(3, h1, h2);
        lemma_sum_eq(
            3,
            h2,
            |d: int|
                sum(
                    3,
                    |j: int|
                        w[(o * cg + c) * 9 + (d * 3 + j)].value() * map_cell(
                            x,
                            t as int,
                            f as int,
                            c0 + c,
                            ti + d - 2,
                            i + j - 1,
                        ),
                ),
        );
        assert(g(c) == sum(3, h2));
    }
}

/// The causal 3x3 convolution: place `i` of frame `ti` of output channel `o` adds up, over the input
/// channels of its group, the frames `ti - 2`, `ti - 1` and `ti` and the places `i - 1`, `i` and
/// `i + 1`, each weighed by its own tap; what lies before the first frame or beside the row is zero.
pub proof fn law_conv3x3_weighs_frames_and_neighbours(
    x: Seq<F32>,
    cin: nat,
    t: nat,
    f: nat,
    w: Seq<F32>,
    b: Option<Seq<F32>>,
    cout: nat,
    groups: nat,
    o: int,
    ti: int,
    i: int,
    p: real,
    q: real,
    m: real,
)
    requires
        0 <= o < cout,
        0 <= ti < t,
        0 <= i < f,
        0 < groups,
        groups_fit(cin as int, cout as int, groups as int),
        cin / groups <= 400,
        cin * t * f <= x.len(),
        9 * (cout * (cin / groups)) <= w.len(),
        b matches Some(s) ==> o < s.len() && between(s[o], -m, m),
        bounded(w, p),
        bounded(x, q),
        p * q <= m,
        moderate(m),
    ensures
        ({
            let cg = (cin / groups) as int;
            let c0 = o / ((cout / groups) as int) * cg;
            near(
                conv3x3_causal_of(x, cin, t, f, w, b, cout, groups)[(o * t + ti) * f + i],
                (match b {
                    Some(s) => s[o].value(),
                    None => 0real,
                }) + sum(
                    cin / groups,
                    |c: int|
                        sum(
                            3,
                            |d: int|
                                sum(
                                    3,
                                    |j: int|
                                        w[(o * cg + c) * 9 + (d * 3 + j)].value() * map_cell(
                                            x,
                                            t as int,
                                            f as int,
                                            c0 + c,
                                            ti + d - 2,
                                            i + j - 1,
                                        ),
                                ),
                        ),
                ),
                slack(9 * cg, m),
            )
        }),
{
    crate::ranges::lemma_zero();
    let cg = cin / groups;
    let og = (cout / groups) as int;
    let c0 = o / og * cg;
    lemma_row_fits(o, cout as int, cg as int);
    assert(0 <= c0 && c0 + cg <= cin) by {
        lemma_div_is_ordered(o, cout - 1, og);
        lemma_div_pos_is_pos(o, og);
        let (r, l) = (o / og, (cout - 1) / og);
        assert(0 <= r * cg && r * cg + cg <= (l + 1) * cg) by (nonlinear_arith)
            requires
                0 <= r <= l,
                0 <= cg,
        ;
    }
    lemma_conv3x3_tracks(x, cin, t, f, w, b, cg as int, c0, o, ti, cg, i, p, q, m);
    let planes = conv3x3_planes(x, t, f, w, b, cg, og);
    assert forall|k: int| 0 <= k < cout implies (#[trigger] planes(k)).len() == t * f by {
        let g = conv3x3_rows(x, t as int, f, w, b, cg, k / og * cg, k);
        assert forall|l: int| 0 <= l < t implies (#[trigger] g(l)).len() == f by {
            lemma_conv3x3_row_len(x, t as int, f, w, b, cg as int, k / og * cg, k, l, cg);
        }
        lemma_rows_len(t, f as int, g);
    }
    let g = conv3x3_rows(x, t as int, f, w, b, cg, c0, o);
    assert forall|l: int| 0 <= l < t implies (#[trigger] g(l)).len() == f by {
        lemma_conv3x3_row_len(x, t as int, f, w, b, cg as int, c0, o, l, cg);
    }
    lemma_map_cell(cout, t, f as int, planes, g, o, ti, i);
}

proof fn lemma_edge_tap_tracks(
    src: Seq<F32>,
    k: F32,
    i: int,
    s: F32,
    a: real,
    n: int,
    p: real,
    q: real,
    m: real,
)
    requires
        tracks(s, a, n, m),
        0 <= n < 3999,
        between(k, -p, p),
        bounded(src, q),
        p * q <= m,
        moderate(m),
    ensures
        tracks(
            edge_tap(src, k, i, s),
            a + k.value() * cell(src, 0, src.len() as int, i),
            n + 1,
            m,
        ),
{
    if 0 <= i < src.len() {
        assert(between(src[i], -q, q));
        lemma_bounded_product(k, src[i], p, q, m);
        lemma_tracks_fused(k, src[i], s, a, n, m);
    } else {
        let v = k.value();
        assert(v * 0real == 0real) by (nonlinear_arith);
        lemma_tracks_wider(s, a, n, n + 1, m);
    }
}

/// A depthwise convolution over frequency: place `i` of a row adds up the places `i * stride - 1`,
/// `i * stride` and `i * stride + 1` of the same frame of the same channel, each weighed by its tap of
/// that channel.
pub proof fn law_dw_conv13_weighs_the_neighbours(
    x: Seq<F32>,
    c: nat,
    t: nat,
    f: int,
    w: Seq<F32>,
    stride: int,
    ch: int,
    ti: int,
    i: int,
    p: real,
    q: real,
    m: real,
)
    requires
        0 <= ch < c,
        0 <= ti < t,
        0 < f,
        0 < stride,
        0 <= i < (f - 1) / stride + 1,
        c * t * f <= x.len(),
        3 * c <= w.len(),
        bounded(w, p),
        bounded(x, q),
        p * q <= m,
        moderate(m),
    ensures
        near(
            dw_conv13_of(x, c, t, f, w, stride)[(ch * t + ti) * ((f - 1) / stride + 1) + i],
            sum(
                3,
                |j: int|
                    w[ch * 3 + j].value() * cell(x, (ch * t + ti) * f, f, i * stride + j - 1),
            ),
            slack(3, m),
        ),
{
    let fo = strided(f, stride);
    lemma_dw_len(x, c, t, f, w, stride);
    lemma_place(ch, ti, c as int, t as int);
    lemma_row_bounded(x, ch * t + ti, c as int * t, f, q);
    lemma_three(w, ch, p);
    let row = row_of(x, ch * t + ti, f);
    let w3 = row_of(w, ch, 3);
    let l = i * stride - 1;
    let g = |j: int| w3[j].value() * cell(row, 0, f, l + j);
    assert(between(w3[0], -p, p) && between(w3[1], -p, p) && between(w3[2], -p, p));
    let zero = F32::zero_spec();
    lemma_tracks_zero(m);
    lemma_edge_tap_tracks(row, w3[0], l, zero, 0real, 0, p, q, m);
    let s1 = edge_tap(row, w3[0], l, zero);
    lemma_edge_tap_tracks(row, w3[1], l + 1, s1, g(0), 1, p, q, m);
    let s2 = edge_tap(row, w3[1], l + 1, s1);
    lemma_edge_tap_tracks(row, w3[2], l + 2, s2, g(0) + g(1), 2, p, q, m);
    reveal_with_fuel(sum, 4);
    assert(sum(3, g) == g(0) + g(1) + g(2));
    let h = |j: int| w[ch * 3 + j].value() * cell(x, (ch * t + ti) * f, f, i * stride + j - 1);
    assert forall|j: int| 0 <= j < 3 implies #[trigger] g(j) == h(j) by {
        assert(w3[j] == w[ch * 3 + j]);
        if 0 <= l + j < f {
            assert(row[l + j] == x[(ch * t + ti) * f + (l + j)]);
        }
    }
    lemma_sum_eq(3, g, h);
    let planes = dw_planes(x, t, f, w, stride);
    assert forall|k: int| 0 <= k < c implies (#[trigger] planes(k)).len() == t * fo by {
        lemma_rows_len(t, fo, dw_rows(x, t as int, f, w, stride, k));
    }
    lemma_map_cell(c, t, fo, planes, dw_rows(x, t as int, f, w, stride, ch), ch, ti, i);
}

/// A sum of which no term but `i` counts.
pub proof fn lemma_sum_one(n: nat, g: spec_fn(int) -> real, i: int)
    requires
        forall|k: int| 0 <= k < n && k != i ==> #[trigger] g(k) == 0real,
    ensures
        sum(n, g) == if 0 <= i < n {
            g(i)
        } else {
            0real
        },
    decreases n,
{
    if n > 0 {
        lemma_sum_one((n - 1) as nat, g, i);
        if i != n - 1 {
            assert(g(n - 1) == 0real);
        }
    }
}

/// A sum of which no terms but `i` and `i + 1` count.
proof fn lemma_sum_two(n: nat, g: spec_fn(int) -> real, i: int)
    requires
        0 <= i < n,
        forall|k: int| 0 <= k < n && k != i && k != i + 1 ==> #[trigger] g(k) == 0real,
    ensures
        sum(n, g) == g(i) + if i + 1 < n {
            g(i + 1)
        } else {
            0real
        },
    decreases n,
{
    if i == n - 1 {
        lemma_sum_one((n - 1) as nat, g, i);
    } else if i + 1 == n - 1 {
        lemma_sum_one((n - 1) as nat, g, i);
    } else {
        lemma_sum_two((n - 1) as nat, g, i);
        assert(g(n - 1) == 0real);
    }
}

/// The term of input place `i` and tap `j` of a transposed convolution at output place `n`: tap `j` of
/// place `i` goes to place `2 * i + j - 1`.
pub open spec fn spread(x: Seq<F32>, base: int, w: Seq<F32>, ch: int, n: int, i: int, j: int) -> real {
    if 2 * i + j - 1 == n {
        x[base + i].value() * w[ch * 3 + j].value()
    } else {
        0real
    }
}

/// The transposed convolution: every place `i` of a row goes, weighed by tap `j` of its channel, to
/// place `2 * i + j - 1` of a row of twice the width, and what comes to the same place is added up.
pub proof fn law_convtranspose_spreads_the_places(
    x: Seq<F32>,
    c: nat,
    t: nat,
    f: int,
    w: Seq<F32>,
    ch: int,
    ti: int,
    n: int,
    p: real,
    q: real,
    m: real,
)
    requires
        0 <= ch < c,
        0 <= ti < t,
        0 <= n < 2 * f,
        c * t * f <= x.len(),
        3 * c <= w.len(),
        bounded(w, p),
        bounded(x, q),
        p * q <= m,
        moderate(m),
    ensures
        near(
            convtranspose_dw_of(x, c, t, f, w)[(ch * t + ti) * (2 * f) + n],
            sum(
                f as nat,
                |i: int| sum(3, |j: int| spread(x, (ch * t + ti) * f, w, ch, n, i, j)),
            ),
            slack(2, m),
        ),
{
    lemma_place(ch, ti, c as int, t as int);
    lemma_row_bounded(x, ch * t + ti, c as int * t, f, q);
    lemma_three(w, ch, p);
    let base = (ch * t + ti) * f;
    let row = row_of(x, ch * t + ti, f);
    let w3 = row_of(w, ch, 3);
    let g = |i: int| sum(3, |j: int| spread(x, base, w, ch, n, i, j));
    let i = n / 2;
    assert(w3[0] == w[ch * 3] && w3[1] == w[ch * 3 + 1] && w3[2] == w[ch * 3 + 2]);
    assert(row[i] == x[base + i]);
    reveal_with_fuel(sum, 4);
    assert forall|k: int| 0 <= k < f implies #[trigger] g(k) == spread(x, base, w, ch, n, k, 0)
        + spread(x, base, w, ch, n, k, 1) + spread(x, base, w, ch, n, k, 2) by {
        let h = |j: int| spread(x, base, w, ch, n, k, j);
        assert(g(k) == sum(3, h));
        assert(sum(3, h) == h(0) + h(1) + h(2));
    }
    lemma_sum_two(f as nat, g, i);
    assert(between(row[i], -q, q));
    assert(between(w3[0], -p, p) && between(w3[1], -p, p) && between(w3[2], -p, p));
    lemma_bounded_product(w3[1], row[i], p, q, m);
    lemma_bounded_product(w3[2], row[i], p, q, m);
    let (x0, k1, k2) = (row[i].value(), w3[1].value(), w3[2].value());
    assert(k1 * x0 == x0 * k1 && k2 * x0 == x0 * k2) by (nonlinear_arith);
    lemma_scaled_tracks(row[i], w3[1], m);
    lemma_scaled_tracks(row[i], w3[2], m);
    lemma_slack_grows(1, 2, m);
    if n % 2 == 1 && i + 1 < f {
        assert(row[i + 1] == x[base + (i + 1)]);
        assert(between(row[i + 1], -q, q));
        lemma_bounded_product(w3[0], row[i + 1], p, q, m);
        lemma_tracks_fused(w3[0], row[i + 1], row[i].mul_spec(w3[2]), x0 * k2, 1, m);
        let (x1, k0) = (row[i + 1].value(), w3[0].value());
        assert(k0 * x1 == x1 * k0) by (nonlinear_arith);
    }
    let planes = transposed_planes(x, t, f, w);
    assert forall|k: int| 0 <= k < c implies (#[trigger] planes(k)).len() == t * (2 * f) by {
        lemma_rows_len(t, 2 * f, transposed_rows(x, t as int, f, w, k));
    }
    lemma_map_cell(c, t, 2 * f, planes, transposed_rows(x, t as int, f, w, ch), ch, ti, n);
}

/// One product is a running sum of one.
proof fn lemma_scaled_tracks(x: F32, w: F32, m: real)
    requires
        moderate(m),
        x.is_finite_spec(),
        w.is_finite_spec(),
        -m <= x.value() * w.value() <= m,
    ensures
        tracks(x.mul_spec(w), x.value() * w.value(), 1, m),
{
    crate::values::lemma_mul(x, w);
    crate::values::lemma_close(x.mul_spec(w), x.value() * w.value(), m);
    assert(2real * m >= m);
    assert(17real * m / 16777216real >= m / 16777216real);
}

// ------------------------------------------------------------------ linear layers

proof fn lemma_linear_tracks(
    x: Seq<F32>,
    w: Seq<F32>,
    h: nat,
    n: nat,
    j: int,
    p: real,
    q: real,
    m: real,
)
    requires
        n <= x.len(),
        n <= 3900,
        x.len() * h <= w.len(),
        0 <= j < h,
        bounded(x, p),
        bounded(w, q),
        p * q <= m,
        moderate(m),
    ensures
        linear_of(x, w, h, n).len() == h,
        tracks(
            linear_of(x, w, h, n)[j],
            sum(n, |k: int| x[k].value() * w[k * h + j].value()),
            n as int,
            m,
        ),
    decreases n,
{
    let g = |k: int| x[k].value() * w[k * h + j].value();
    if n == 0 {
        lemma_tracks_zero(m);
    } else {
        let k = n - 1;
        lemma_linear_tracks(x, w, h, k as nat, j, p, q, m);
        lemma_row_bounded(w, k, x.len() as int, h as int, q);
        let row = row_of(w, k, h as int);
        assert(row[j] == w[k * h + j]);
        assert(between(x[k], -p, p) && between(row[j], -q, q));
        lemma_bounded_product(x[k], row[j], p, q, m);
        lemma_tap_tracks(linear_of(x, w, h, k as nat), x[k], row, j, sum(k as nat, g), k, m);
        assert(g(k) == x[k].value() * row[j].value());
    }
}

/// A grouped linear layer: place `j` of group `gi` of row `ti` adds up the places `k` of that group of
/// that row, each weighed by number `(k, j)` of the group's matrix.
pub proof fn law_grouped_linear_weighs_its_group(
    x: Seq<F32>,
    t: nat,
    g: nat,
    i: nat,
    h: nat,
    w: Seq<F32>,
    ti: int,
    gi: int,
    j: int,
    p: real,
    q: real,
    m: real,
)
    requires
        0 <= ti < t,
        0 <= gi < g,
        0 <= j < h,
        i <= 3900,
        t * g * i <= x.len(),
        g * (i * h) <= w.len(),
        bounded(x, p),
        bounded(w, q),
        p * q <= m,
        moderate(m),
    ensures
        near(
            grouped_linear_of(x, t, g, i, h, w)[ti * (g * h) + (gi * h + j)],
            sum(
                i,
                |k: int|
                    x[(ti * g + gi) * i + k].value() * w[gi * (i * h) + (k * h + j)].value(),
            ),
            slack(i as int, m),
        ),
{
    lemma_place(ti, gi, t as int, g as int);
    lemma_row_bounded(x, ti * g + gi, t as int * g, i as int, p);
    lemma_mul_nonnegative(i as int, h as int);
    lemma_row_bounded(w, gi, g as int, i as int * h, q);
    let xr = row_of(x, ti * g + gi, i as int);
    let wr = row_of(w, gi, (i * h) as int);
    lemma_linear_tracks(xr, wr, h, i, j, p, q, m);
    let (g1, g2) = (
        |k: int| xr[k].value() * wr[k * h + j].value(),
        |k: int| x[(ti * g + gi) * i + k].value() * w[gi * (i * h) + (k * h + j)].value(),
    );
    assert forall|k: int| 0 <= k < i implies #[trigger] g1(k) == g2(k) by {
        lemma_place(k, j, i as int, h as int);
        assert(xr[k] == x[(ti * g + gi) * i + k]);
        assert(wr[k * h + j] == w[gi * (i * h) + (k * h + j)]);
    }
    lemma_sum_eq(i, g1, g2);
    lemma_grouped_linear_len(x, t, g, i, h, w);
    let f = linear_rows(x, g, i, h, w);
    let q2 = linear_groups(x, g as int, i, h, w, ti);
    assert forall|k: int| 0 <= k < g implies (#[trigger] q2(k)).len() == h by {
        lemma_linear_len(row_of(x, ti * g + k, i as int), row_of(w, k, (i * h) as int), h, i);
    }
    lemma_mul_nonnegative(g as int, h as int);
    lemma_row_of_rows(t, (g * h) as int, f, ti);
    lemma_row_of_rows(g, h as int, q2, gi);
    lemma_row_fits(ti, t as int, (g * h) as int);
    lemma_place(gi, j, g as int, h as int);
    let out = rows(t, f);
    assert(row_of(out, ti, (g * h) as int)[gi * h + j] == out[ti * (g * h) + (gi * h + j)]);
    assert(row_of(rows(g, q2), gi, h as int)[j] == rows(g, q2)[gi * h + j]);
}

} // verus!
