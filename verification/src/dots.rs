//! Dot products of any length, and small steps of the kernels: every pair counts, and nothing else.
use vstd::prelude::*;

use crate::float::F32;
use crate::kernels::law_dot_sums_the_products;
use crate::nn::{
    axpy_of, dot_of, lane, lane_sum, law_packing_keeps_every_row, matvec_of, pack_of, pad_freq_of, pad_rows,
    lemma_pointwise_plane_len, over, padded, panel_index, pointwise_of, pointwise_plane, pointwise_planes,
    tail_sum, unpacked_row,
};
use crate::ranges::{between, lemma_zero};
use crate::rows::{lemma_row_fits, lemma_row_of_rows, lemma_rows_len, row_of, rows};
use crate::shares::lemma_rounded;
use crate::sums::{
    bounded, lemma_bounded_product, lemma_sum_eq, lemma_tracks_fused, lemma_tracks_sum, lemma_tracks_zero,
    lemma_zero_value, moderate, near, slack, sum, tracks,
};
use crate::tools::{dot_1acc_of, dot_4acc_of, wide_lane};
use crate::values::{lemma_add, lemma_close, lemma_mul, lemma_mul_add, lemma_within, power};

verus! {

// ------------------------------------------------------------------ one pair among zeros

/// How far off the rounding of `x` may be.
pub open spec fn one_rounding(x: real) -> real {
    (if x < 0real {
        -x
    } else {
        x
    }) / 8388608real + power(-149)
}

/// Whether `x` stands for `v` but for one rounding, or for nothing at all.
spec fn holds(x: F32, full: bool, v: real) -> bool {
    if full {
        near(x, v, one_rounding(v))
    } else {
        x.is_finite_spec() && x.value() == 0real
    }
}

/// What stands for nothing adds nothing.
proof fn lemma_add_nothing(x: F32, p: bool, y: F32, q: bool, v: real)
    requires
        holds(x, p, v),
        holds(y, q, v),
        !(p && q),
    ensures
        holds(x.add_spec(y), p || q, v),
{
    lemma_add(x, y);
    if q {
        lemma_within(x.add_spec(y), y.value(), y, y);
    } else {
        lemma_within(x.add_spec(y), x.value(), x, x);
    }
}

/// Whether no pair but number `j` counts.
pub open spec fn lone(a: Seq<F32>, b: Seq<F32>, j: int) -> bool {
    &&& forall|i: int| 0 <= i < a.len() ==> (#[trigger] a[i]).is_finite_spec()
    &&& forall|i: int| 0 <= i < b.len() ==> (#[trigger] b[i]).is_finite_spec()
    &&& forall|i: int| 0 <= i < a.len() && i != j ==> (#[trigger] a[i]).is_zero_spec()
}

proof fn lemma_lone_pair(a: Seq<F32>, b: Seq<F32>, j: int, i: int, acc: F32, full: bool)
    requires
        lone(a, b, j),
        0 <= i < a.len() <= b.len(),
        i == j ==> !full,
        ({
            let v = a[j].value() * b[j].value();
            -power(127) <= v <= power(127) && holds(acc, full, v)
        }),
    ensures
        holds(a[i].mul_add_spec(b[i], acc), full || i == j, a[j].value() * b[j].value()),
        holds(a[i].mul_spec(b[i]), i == j, a[j].value() * b[j].value()),
{
    let v = a[j].value() * b[j].value();
    let (x, y) = (a[i], b[i]);
    assert(x.is_finite_spec() && y.is_finite_spec());
    lemma_mul_add(x, y, acc);
    lemma_mul(x, y);
    lemma_zero();
    let r = x.mul_add_spec(y, acc);
    if i == j {
        lemma_rounded(r, v);
        lemma_rounded(x.mul_spec(y), v);
    } else {
        lemma_zero_value(x);
        let z = y.value();
        assert(0real * z == 0real) by (nonlinear_arith);
        lemma_within(r, acc.value(), acc, acc);
        lemma_within(x.mul_spec(y), 0real, F32::zero_spec(), F32::zero_spec());
    }
}

proof fn lemma_lone_lane(a: Seq<F32>, b: Seq<F32>, j: int, e: int, c: nat)
    requires
        lone(a, b, j),
        0 <= j < a.len() <= b.len(),
        -power(127) <= a[j].value() * b[j].value() <= power(127),
        0 <= e < 8,
        8 * c <= a.len(),
    ensures
        holds(lane(a, b, e, c), j % 8 == e && j / 8 < c, a[j].value() * b[j].value()),
    decreases c,
{
    lemma_zero();
    if c > 0 {
        let k = (c - 1) as nat;
        lemma_lone_lane(a, b, j, e, k);
        lemma_lone_pair(a, b, j, 8 * k + e, lane(a, b, e, k), j % 8 == e && j / 8 < k);
    }
}

proof fn lemma_lone_tail(a: Seq<F32>, b: Seq<F32>, j: int, s: F32, from: int, to: int)
    requires
        lone(a, b, j),
        0 <= j < a.len() <= b.len(),
        -power(127) <= a[j].value() * b[j].value() <= power(127),
        0 <= from <= to <= a.len(),
        holds(s, j < from, a[j].value() * b[j].value()),
    ensures
        holds(tail_sum(a, b, s, from, to), j < to, a[j].value() * b[j].value()),
    decreases to - from,
{
    if from < to {
        let k = to - 1;
        lemma_lone_tail(a, b, j, s, from, k);
        let acc = tail_sum(a, b, s, from, k);
        lemma_zero();
        lemma_lone_pair(a, b, j, k, F32::zero_spec(), false);
        lemma_add_nothing(acc, j < k, a[k].mul_spec(b[k]), k == j, a[j].value() * b[j].value());
    }
}

/// Every pair of a dot product counts, however long it is: where all other first factors are zero, the
/// dot product is the product of the one pair that is left, rounded once.
pub proof fn law_every_pair_counts(a: Seq<F32>, b: Seq<F32>, j: int)
    requires
        lone(a, b, j),
        0 <= j < a.len() <= b.len(),
        -power(127) <= a[j].value() * b[j].value() <= power(127),
    ensures
        near(
            dot_of(a, b),
            a[j].value() * b[j].value(),
            one_rounding(a[j].value() * b[j].value()),
        ),
{
    reveal(dot_of);
    let n = a.len() as int;
    let c = (n / 8) as nat;
    let v = a[j].value() * b[j].value();
    let s = Seq::new(8, |e: int| lane(a, b, e, c));
    let at = |e: int| j % 8 == e && j / 8 < c;
    assert forall|e: int| 0 <= e < 8 implies holds(#[trigger] s[e], at(e), v) by {
        lemma_lone_lane(a, b, j, e, c);
    }
    lemma_add_nothing(s[0], at(0), s[1], at(1), v);
    lemma_add_nothing(s[2], at(2), s[3], at(3), v);
    lemma_add_nothing(s[4], at(4), s[5], at(5), v);
    lemma_add_nothing(s[6], at(6), s[7], at(7), v);
    let (w, x, y, z) = (
        s[0].add_spec(s[1]),
        s[2].add_spec(s[3]),
        s[4].add_spec(s[5]),
        s[6].add_spec(s[7]),
    );
    lemma_add_nothing(w, at(0) || at(1), x, at(2) || at(3), v);
    lemma_add_nothing(y, at(4) || at(5), z, at(6) || at(7), v);
    lemma_add_nothing(
        w.add_spec(x),
        at(0) || at(1) || at(2) || at(3),
        y.add_spec(z),
        at(4) || at(5) || at(6) || at(7),
        v,
    );
    assert((at(0) || at(1) || at(2) || at(3) || at(4) || at(5) || at(6) || at(7)) == (j < 8 * c));
    lemma_lone_tail(a, b, j, lane_sum(s), 8 * (n / 8), n);
}

/// One more pair behind a dot product whose length is not seven past a multiple of eight is added last.
pub proof fn law_one_more_pair_is_added_last(a: Seq<F32>, b: Seq<F32>, x: F32, y: F32)
    requires
        a.len() == b.len(),
        a.len() % 8 != 7,
    ensures
        dot_of(a.push(x), b.push(y)) == dot_of(a, b).add_spec(x.mul_spec(y)),
{
    reveal(dot_of);
    let (p, q) = (a.push(x), b.push(y));
    let n = a.len() as int;
    let c = (n / 8) as nat;
    assert((n + 1) / 8 == n / 8);
    assert forall|e: int| 0 <= e < 8 implies lane(p, q, e, c) == lane(a, b, e, c) by {
        lemma_lane_local(p, q, a, b, e, c);
    }
    assert(Seq::new(8, |e: int| lane(p, q, e, c)) =~= Seq::new(8, |e: int| lane(a, b, e, c)));
    let s = lane_sum(Seq::new(8, |e: int| lane(a, b, e, c)));
    lemma_tail_local(p, q, a, b, s, 8 * (n / 8), n);
}

proof fn lemma_lane_local(p: Seq<F32>, q: Seq<F32>, a: Seq<F32>, b: Seq<F32>, e: int, c: nat)
    requires
        0 <= e < 8,
        8 * c <= a.len() <= p.len(),
        8 * c <= b.len() <= q.len(),
        forall|i: int| 0 <= i < a.len() ==> #[trigger] p[i] == a[i],
        forall|i: int| 0 <= i < b.len() ==> #[trigger] q[i] == b[i],
    ensures
        lane(p, q, e, c) == lane(a, b, e, c),
    decreases c,
{
    if c > 0 {
        lemma_lane_local(p, q, a, b, e, (c - 1) as nat);
    }
}

proof fn lemma_tail_local(
    p: Seq<F32>,
    q: Seq<F32>,
    a: Seq<F32>,
    b: Seq<F32>,
    s: F32,
    from: int,
    to: int,
)
    requires
        0 <= from <= to <= a.len() <= p.len(),
        to <= b.len() <= q.len(),
        forall|i: int| 0 <= i < a.len() ==> #[trigger] p[i] == a[i],
        forall|i: int| 0 <= i < b.len() ==> #[trigger] q[i] == b[i],
    ensures
        tail_sum(p, q, s, from, to) == tail_sum(a, b, s, from, to),
    decreases to - from,
{
    if from < to {
        lemma_tail_local(p, q, a, b, s, from, to - 1);
    }
}

/// Place `j` of a product with a matrix, however wide: the dot product of numbers `j * k` to
/// `j * k + k - 1` of the matrix with `x`, plus bias `j`.
pub proof fn law_products_take_row_by_row(
    w: Seq<F32>,
    n: nat,
    k: nat,
    x: Seq<F32>,
    b: Seq<F32>,
    j: int,
)
    requires
        0 <= j < n,
        n * k <= w.len(),
        n <= b.len(),
    ensures
        matvec_of(w, n, k as int, x, Some(b))[j] == dot_of(w.subrange(j * k, j * k + k), x).add_spec(b[j]),
        matvec_of(w, n, k as int, x, None)[j] == dot_of(w.subrange(j * k, j * k + k), x).add_spec(
            F32 { bits: 0 },
        ),
{
    lemma_row_fits(j, n as int, k as int);
    assert((j + 1) * k == j * k + k) by (nonlinear_arith);
}

// ------------------------------------------------------------------ four running sums

proof fn lemma_sum_append(n: nat, k: nat, g: spec_fn(int) -> real)
    ensures
        sum(n + k, g) == sum(n, g) + sum(k, |e: int| g(n + e)),
    decreases k,
{
    if k > 0 {
        lemma_sum_append(n, (k - 1) as nat, g);
    }
}

proof fn lemma_sum_plus(
    k: nat,
    f: spec_fn(int) -> real,
    g: spec_fn(int) -> real,
    h: spec_fn(int) -> real,
)
    requires
        forall|e: int| 0 <= e < k ==> #[trigger] h(e) == f(e) + g(e),
    ensures
        sum(k, h) == sum(k, f) + sum(k, g),
    decreases k,
{
    if k > 0 {
        lemma_sum_plus((k - 1) as nat, f, g, h);
        assert(h(k - 1) == f(k - 1) + g(k - 1));
    }
}

/// Every 32nd term, from term `e` on.
spec fn part(g: spec_fn(int) -> real, e: int) -> spec_fn(int) -> real {
    |i: int| g(32 * i + e)
}

proof fn lemma_parts(c: nat, g: spec_fn(int) -> real)
    ensures
        sum(32 * c, g) == sum(32, |e: int| sum(c, part(g, e))),
    decreases c,
{
    let h = |e: int| sum(c, part(g, e));
    if c == 0 {
        lemma_sum_nothing(32, h);
    } else {
        let k = (c - 1) as nat;
        lemma_parts(k, g);
        lemma_sum_append(32 * k, 32, g);
        let (f, l) = (|e: int| sum(k, part(g, e)), |e: int| g(32 * k + e));
        assert forall|e: int| 0 <= e < 32 implies #[trigger] h(e) == f(e) + l(e) by {
            assert(part(g, e)(k as int) == g(32 * k + e));
        }
        lemma_sum_plus(32, f, l, h);
    }
}

proof fn lemma_sum_nothing(n: nat, h: spec_fn(int) -> real)
    requires
        forall|e: int| 0 <= e < n ==> #[trigger] h(e) == 0real,
    ensures
        sum(n, h) == 0real,
    decreases n,
{
    if n > 0 {
        lemma_sum_nothing((n - 1) as nat, h);
        assert(h(n - 1) == 0real);
    }
}

proof fn lemma_wide_lane(
    a: Seq<F32>,
    b: Seq<F32>,
    g: spec_fn(int) -> real,
    e: int,
    c: nat,
    p: real,
    q: real,
    m: real,
)
    requires
        bounded(a, p),
        bounded(b, q),
        p * q <= m,
        moderate(m),
        g == (|i: int| a[i].value() * b[i].value()),
        0 <= e < 32,
        32 * c <= a.len() <= b.len(),
        c <= 200,
    ensures
        tracks(wide_lane(a, b, e, c), sum(c, part(g, e)), c as int, m),
    decreases c,
{
    if c == 0 {
        lemma_tracks_zero(m);
    } else {
        let k = (c - 1) as nat;
        lemma_wide_lane(a, b, g, e, k, p, q, m);
        let i = 32 * k + e;
        assert(between(a[i], -p, p) && between(b[i], -q, q));
        lemma_bounded_product(a[i], b[i], p, q, m);
        lemma_tracks_fused(a[i], b[i], wide_lane(a, b, e, k), sum(k, part(g, e)), k as int, m);
        assert(part(g, e)(k as int) == a[i].value() * b[i].value());
    }
}

/// Four of the 32 running sums.
proof fn lemma_four_lanes(
    a: Seq<F32>,
    b: Seq<F32>,
    g: spec_fn(int) -> real,
    e: int,
    c: nat,
    p: real,
    q: real,
    m: real,
)
    requires
        bounded(a, p),
        bounded(b, q),
        p * q <= m,
        moderate(m),
        g == (|i: int| a[i].value() * b[i].value()),
        0 <= e < 8,
        32 * c <= a.len() <= b.len(),
        c <= 100,
    ensures
        tracks(
            wide_lane(a, b, e, c).add_spec(wide_lane(a, b, e + 8, c)).add_spec(
                wide_lane(a, b, e + 16, c).add_spec(wide_lane(a, b, e + 24, c)),
            ),
            sum(c, part(g, e)) + sum(c, part(g, e + 8)) + (sum(c, part(g, e + 16)) + sum(
                c,
                part(g, e + 24),
            )),
            4 * c + 3int,
            m,
        ),
{
    let h = |i: int| sum(c, part(g, i));
    let s = |i: int| wide_lane(a, b, i, c);
    let ci = c as int;
    lemma_wide_lane(a, b, g, e, c, p, q, m);
    lemma_wide_lane(a, b, g, e + 8, c, p, q, m);
    lemma_wide_lane(a, b, g, e + 16, c, p, q, m);
    lemma_wide_lane(a, b, g, e + 24, c, p, q, m);
    lemma_tracks_sum(s(e), h(e), ci, s(e + 8), h(e + 8), ci, m);
    lemma_tracks_sum(s(e + 16), h(e + 16), ci, s(e + 24), h(e + 24), ci, m);
    lemma_tracks_sum(
        s(e).add_spec(s(e + 8)),
        h(e) + h(e + 8),
        2 * ci + 1,
        s(e + 16).add_spec(s(e + 24)),
        h(e + 16) + h(e + 24),
        2 * ci + 1,
        m,
    );
}

/// With 32 running sums, the dot product of the whole chunks of 32 is the sum of their products too.
pub proof fn law_32_running_sums_sum_the_products(
    a: Seq<F32>,
    b: Seq<F32>,
    p: real,
    q: real,
    m: real,
)
    requires
        a.len() <= b.len(),
        a.len() <= 3200,
        bounded(a, p),
        bounded(b, q),
        p * q <= m,
        moderate(m),
    ensures
        near(
            dot_4acc_of(a, b),
            sum(a.len() / 32 * 32, |i: int| a[i].value() * b[i].value()),
            slack(a.len() / 32 * 32 + 31int, m),
        ),
{
    let c = a.len() / 32;
    let ci = c as int;
    let g = |i: int| a[i].value() * b[i].value();
    let h = |e: int| sum(c, part(g, e));
    lemma_parts(c, g);
    let k = |e: int| h(e) + h(e + 8) + (h(e + 16) + h(e + 24));
    let s = Seq::new(
        8,
        |e: int|
            wide_lane(a, b, e, c).add_spec(wide_lane(a, b, e + 8, c)).add_spec(
                wide_lane(a, b, e + 16, c).add_spec(wide_lane(a, b, e + 24, c)),
            ),
    );
    assert forall|e: int| 0 <= e < 8 implies tracks(#[trigger] s[e], k(e), 4 * ci + 3, m) by {
        lemma_four_lanes(a, b, g, e, c, p, q, m);
    }
    let n = 4 * ci + 3;
    lemma_tracks_sum(s[0], k(0), n, s[1], k(1), n, m);
    lemma_tracks_sum(s[2], k(2), n, s[3], k(3), n, m);
    lemma_tracks_sum(s[4], k(4), n, s[5], k(5), n, m);
    lemma_tracks_sum(s[6], k(6), n, s[7], k(7), n, m);
    let (w, x, y, z) = (
        s[0].add_spec(s[1]),
        s[2].add_spec(s[3]),
        s[4].add_spec(s[5]),
        s[6].add_spec(s[7]),
    );
    lemma_tracks_sum(w, k(0) + k(1), 2 * n + 1, x, k(2) + k(3), 2 * n + 1, m);
    lemma_tracks_sum(y, k(4) + k(5), 2 * n + 1, z, k(6) + k(7), 2 * n + 1, m);
    lemma_tracks_sum(
        w.add_spec(x),
        k(0) + k(1) + (k(2) + k(3)),
        4 * n + 3,
        y.add_spec(z),
        k(4) + k(5) + (k(6) + k(7)),
        4 * n + 3,
        m,
    );
    lemma_thirty_two(h);
}

proof fn lemma_thirty_two(h: spec_fn(int) -> real)
    ensures
        ({
            let k = |e: int| h(e) + h(e + 8) + (h(e + 16) + h(e + 24));
            sum(32, h) == k(0) + k(1) + (k(2) + k(3)) + (k(4) + k(5) + (k(6) + k(7)))
        }),
{
    reveal_with_fuel(sum, 33);
}

/// With eight running sums, the dot product of the whole chunks of eight is the sum of their products.
pub proof fn law_8_running_sums_sum_the_products(a: Seq<F32>, b: Seq<F32>, p: real, q: real, m: real)
    requires
        a.len() == b.len(),
        a.len() <= 3900,
        bounded(a, p),
        bounded(b, q),
        p * q <= m,
        moderate(m),
    ensures
        near(
            dot_1acc_of(a, b),
            sum(a.len() / 8 * 8, |i: int| a[i].value() * b[i].value()),
            slack(a.len() / 8 * 8 + 7int, m),
        ),
{
    let n = a.len() / 8 * 8;
    let (x, y) = (a.take(n as int), b.take(n as int));
    assert forall|i: int| 0 <= i < x.len() implies between(#[trigger] x[i], -p, p) by {
        assert(x[i] == a[i]);
    }
    assert forall|i: int| 0 <= i < y.len() implies between(#[trigger] y[i], -q, q) by {
        assert(y[i] == b[i]);
    }
    law_dot_sums_the_products(x, y, p, q, m);
    lemma_sum_eq(n, |i: int| x[i].value() * y[i].value(), |i: int| a[i].value() * b[i].value());
}

// ------------------------------------------------------------------ small steps

/// A product is written over the beginning of what was there, and the rest stays.
pub proof fn law_results_go_over_the_beginning(s: Seq<F32>, out: Seq<F32>, i: int)
    requires
        s.len() <= out.len(),
        0 <= i < out.len(),
    ensures
        over(s, out).len() == out.len(),
        i < s.len() ==> over(s, out)[i] == s[i],
        i >= s.len() ==> over(s, out)[i] == out[i],
{
}

/// `out + s * x` on reals, as far as `x` goes; behind it nothing is added.
pub proof fn law_multiples_are_added_place_by_place(out: Seq<F32>, s: F32, x: Seq<F32>, i: int, b: real)
    requires
        0 <= i < out.len(),
        1real / 1099511627776real <= b <= 8000000real,
        i < x.len() ==> s.is_finite_spec() && x[i].is_finite_spec() && between(out[i], -b, b) && -b <= s.value()
            * x[i].value() <= b,
    ensures
        axpy_of(out, s, x).len() == out.len(),
        i < x.len() ==> near(
            axpy_of(out, s, x)[i],
            out[i].value() + s.value() * x[i].value(),
            2real * b / 16777216real,
        ),
        i >= x.len() ==> axpy_of(out, s, x)[i] == out[i],
{
    if i < x.len() {
        lemma_mul_add(s, x[i], out[i]);
        lemma_close(s.mul_add_spec(x[i], out[i]), s.value() * x[i].value() + out[i].value(), 2real * b);
    }
}

/// A padded row of width `f` is the row between two zeros.
pub proof fn law_padding_puts_a_zero_on_each_side(x: Seq<F32>, n: nat, f: nat, r: int, i: int)
    requires
        0 <= r < n,
        0 <= i < f,
        n * f <= x.len(),
    ensures
        pad_freq_of(x, n, f as int).len() == n * (f + 2),
        pad_freq_of(x, n, f as int)[r * (f + 2)].bits == 0,
        pad_freq_of(x, n, f as int)[r * (f + 2) + 1 + i] == x[r * f + i],
        pad_freq_of(x, n, f as int)[r * (f + 2) + f + 1].bits == 0,
{
    let g = pad_rows(x, f as int);
    assert forall|k: int| 0 <= k < n implies (#[trigger] g(k)).len() == f + 2 by {
        lemma_row_fits(k, n as int, f as int);
    }
    lemma_rows_len(n, f + 2int, g);
    lemma_row_of_rows(n, f + 2int, g, r);
    lemma_row_fits(r, n as int, f + 2int);
    lemma_row_fits(r, n as int, f as int);
    let row = row_of(rows(n, g), r, f + 2int);
    let all = rows(n, g);
    assert(row[0] == all[r * (f + 2)]);
    assert(row[1 + i] == all[r * (f + 2) + (1 + i)]);
    assert(row[f + 1int] == all[r * (f + 2) + (f + 1)]);
    assert(row_of(x, r, f as int)[i] == x[r * f + i]);
}

/// The panels: chunk `c` of row `12 * p + l` lies in panel `p`, behind the chunks before it of all twelve
/// rows and the same chunk of the rows before it.
pub proof fn law_panels_hold_chunks_of_twelve_rows(
    m: Seq<F32>,
    n: int,
    k: int,
    p: int,
    l: int,
    c: int,
    e: int,
)
    requires
        n % 12 == 0,
        k % 8 == 0,
        0 <= k,
        0 <= p < n / 12,
        0 <= l < 12,
        0 <= c < k / 8,
        0 <= e < 8,
        n * k <= m.len(),
    ensures
        pack_of(m, n, k).len() == n * k,
        pack_of(m, n, k)[p * (12 * k) + (c * 96 + (l * 8 + e))] == m[(12 * p + l) * k + (8 * c + e)],
{
    let (j, i) = (12 * p + l, 8 * c + e);
    law_packing_keeps_every_row(m, n, k, j);
    lemma_row_fits(j, n, k);
    assert(unpacked_row(pack_of(m, n, k), k, j)[i] == row_of(m, j, k)[i]);
    assert(j / 12 == p && j % 12 == l && i / 8 == c && i % 8 == e);
    assert(panel_index(j, i, k) == p * (12 * k) + (c * 96 + (l * 8 + e)));
}

// ------------------------------------------------------------------ zeros

proof fn lemma_plane_ignores(
    x: Seq<F32>,
    y: Seq<F32>,
    cin: int,
    tf: nat,
    w: Seq<F32>,
    b: Option<Seq<F32>>,
    o: int,
    c: nat,
    z: int,
)
    requires
        c <= cin,
        w[o * cin + z].is_zero_spec(),
        forall|k: int| 0 <= k < cin && k != z ==> #[trigger] row_of(x, k, tf as int) == row_of(y, k, tf as int),
    ensures
        pointwise_plane(x, cin, tf, w, b, o, c) == pointwise_plane(y, cin, tf, w, b, o, c),
    decreases c,
{
    if c > 0 {
        lemma_plane_ignores(x, y, cin, tf, w, b, o, (c - 1) as nat, z);
        if c - 1 != z {
            assert(row_of(x, c - 1, tf as int) == row_of(y, c - 1, tf as int));
        }
    }
}

/// A 1x1 convolution does not read what a zero weighs: where weight `(o, z)` is zero, output plane `o` is
/// the same whatever input plane `z` holds, numbers or not.
pub proof fn law_zero_weights_read_nothing(
    x: Seq<F32>,
    y: Seq<F32>,
    cin: nat,
    tf: nat,
    w: Seq<F32>,
    b: Option<Seq<F32>>,
    cout: nat,
    o: int,
    z: int,
    i: int,
)
    requires
        0 <= o < cout,
        0 <= z < cin,
        0 <= i < tf,
        cin * tf <= x.len(),
        cin * tf <= y.len(),
        w[o * cin + z].is_zero_spec(),
        forall|k: int, l: int|
            0 <= k < cin && k != z && 0 <= l < tf ==> #[trigger] x[k * tf + l] == y[k * tf + l],
    ensures
        pointwise_of(x, cin, tf, w, b, cout)[o * tf + i] == pointwise_of(y, cin, tf, w, b, cout)[o * tf + i],
{
    assert forall|k: int| 0 <= k < cin && k != z implies #[trigger] row_of(x, k, tf as int) == row_of(
        y,
        k,
        tf as int,
    ) by {
        lemma_row_fits(k, cin as int, tf as int);
        assert forall|l: int| 0 <= l < tf implies row_of(x, k, tf as int)[l] == row_of(y, k, tf as int)[l] by {
            assert(x[k * tf + l] == y[k * tf + l]);
        }
        assert(row_of(x, k, tf as int) =~= row_of(y, k, tf as int));
    }
    lemma_plane_ignores(x, y, cin as int, tf, w, b, o, cin, z);
    lemma_plane_cell(x, cin, tf, w, b, cout, o, i);
    lemma_plane_cell(y, cin, tf, w, b, cout, o, i);
}

proof fn lemma_plane_cell(
    x: Seq<F32>,
    cin: nat,
    tf: nat,
    w: Seq<F32>,
    b: Option<Seq<F32>>,
    cout: nat,
    o: int,
    i: int,
)
    requires
        0 <= o < cout,
        0 <= i < tf,
    ensures
        pointwise_of(x, cin, tf, w, b, cout)[o * tf + i] == pointwise_plane(x, cin as int, tf, w, b, o, cin)[i],
{
    let g = pointwise_planes(x, cin, tf, w, b);
    assert forall|k: int| 0 <= k < cout implies (#[trigger] g(k)).len() == tf by {
        lemma_pointwise_plane_len(x, cin as int, tf, w, b, k, cin);
    }
    lemma_row_of_rows(cout, tf as int, g, o);
    lemma_row_fits(o, cout as int, tf as int);
    lemma_rows_len(cout, tf as int, g);
    assert(row_of(rows(cout, g), o, tf as int)[i] == rows(cout, g)[o * tf + i]);
}

} // verus!
