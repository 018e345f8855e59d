//! Sums on reals, and how near rounded running sums of products come to them.
use vstd::prelude::*;

use crate::float::F32;
use crate::ranges::{between, lemma_zero};
use crate::values::{lemma_add, lemma_close, lemma_mul, lemma_mul_add, power};

verus! {

/// `g(0) + ... + g(n - 1)`.
pub open spec fn sum(n: nat, g: spec_fn(int) -> real) -> real
    decreases n,
{
    if n == 0 {
        0real
    } else {
        sum((n - 1) as nat, g) + g(n - 1)
    }
}

/// Whether `x` is a number within `d` of `y`.
pub open spec fn near(x: F32, y: real, d: real) -> bool {
    x.is_finite_spec() && -d <= x.value() - y <= d
}

/// Whether every number lies between `-p` and `p`.
pub open spec fn bounded(s: Seq<F32>, p: real) -> bool {
    forall|i: int| 0 <= i < s.len() ==> between(#[trigger] s[i], -p, p)
}

/// Whether products of at most `m` add up without leaving the range in which rounding is relative.
pub open spec fn moderate(m: real) -> bool {
    1real / 1099511627776real <= m <= 4000real
}

/// How far a running sum of `k` products of at most `m` may be off.
pub open spec fn slack(k: int, m: real) -> real {
    (k * (k + 16)) as real * m / 16777216real
}

/// Whether `acc` is a running sum of `k` products of at most `m` that stands for `a`.
pub open spec fn tracks(acc: F32, a: real, k: int, m: real) -> bool {
    &&& near(acc, a, slack(k, m))
    &&& -((k + 1) as real * m) <= a <= (k + 1) as real * m
}

/// How the slack grows, and that it stays below `m`.
proof fn lemma_slack(k: int, m: real)
    requires
        0 <= k <= 4000,
        m >= 0real,
    ensures
        0real <= slack(k, m) <= m,
        slack(k + 1, m) == slack(k, m) + (2real * (k as real * m) + 17real * m) / 16777216real,
        (k + 1) as real * m == k as real * m + m,
        (k + 2) as real * m == k as real * m + 2real * m,
        0real <= k as real * m <= 4000real * m,
{
    let a = (k * (k + 16)) as real;
    let b = ((k + 1) * (k + 1 + 16)) as real;
    let kr = k as real;
    assert((k + 1) * (k + 1 + 16) == k * (k + 16) + 2 * k + 17 && 0 <= k * (k + 16) <= 16777216)
        by (nonlinear_arith)
        requires
            0 <= k <= 4000,
    ;
    assert(b == a + 2real * kr + 17real);
    assert(b * m == a * m + 2real * (kr * m) + 17real * m) by (nonlinear_arith)
        requires
            b == a + 2real * kr + 17real,
    ;
    assert(0real <= a * m <= 16777216real * m) by (nonlinear_arith)
        requires
            0real <= a <= 16777216real,
            m >= 0real,
    ;
    let (k1, k2) = ((k + 1) as real, (k + 2) as real);
    assert(k1 * m == kr * m + m && k2 * m == kr * m + 2real * m) by (nonlinear_arith)
        requires
            k1 == kr + 1real,
            k2 == kr + 2real,
    ;
    assert(0real <= kr * m <= 4000real * m) by (nonlinear_arith)
        requires
            0real <= kr <= 4000real,
            m >= 0real,
    ;
}

/// More products leave more room.
pub proof fn lemma_slack_grows(j: int, k: int, m: real)
    requires
        0 <= j <= k <= 4000,
        m >= 0real,
    ensures
        0real <= slack(j, m) <= slack(k, m),
        j as real * m <= k as real * m,
    decreases k - j,
{
    lemma_slack(j, m);
    if j < k {
        lemma_slack_grows(j + 1, k, m);
    }
}

/// What tracks a sum tracks it with more room.
pub proof fn lemma_tracks_wider(acc: F32, a: real, j: int, k: int, m: real)
    requires
        tracks(acc, a, j, m),
        0 <= j <= k < 4000,
        m >= 0real,
    ensures
        tracks(acc, a, k, m),
{
    lemma_slack_grows(j, k, m);
    lemma_slack_grows(j + 1, k + 1, m);
}

/// A running sum starts with a number of at most `m`.
pub proof fn lemma_tracks_start(b: F32, m: real)
    requires
        between(b, -m, m),
        m >= 0real,
    ensures
        tracks(b, b.value(), 0, m),
{
    lemma_slack(0, m);
    assert(0real * m == 0real) by (nonlinear_arith);
    assert(1real * m == m);
}

/// A running sum starts with zero.
pub proof fn lemma_tracks_zero(m: real)
    requires
        m >= 0real,
    ensures
        tracks(F32::zero_spec(), 0real, 0, m),
{
    lemma_zero();
    lemma_tracks_start(F32::zero_spec(), m);
}

/// One more product, in one step.
pub proof fn lemma_tracks_fused(w: F32, x: F32, acc: F32, a: real, k: int, m: real)
    requires
        tracks(acc, a, k, m),
        moderate(m),
        0 <= k < 4000,
        w.is_finite_spec(),
        x.is_finite_spec(),
        -m <= w.value() * x.value() <= m,
    ensures
        tracks(w.mul_add_spec(x, acc), a + w.value() * x.value(), k + 1, m),
{
    lemma_slack(k, m);
    lemma_slack(k + 1, m);
    let p = w.value() * x.value();
    lemma_mul_add(w, x, acc);
    let r = w.mul_add_spec(x, acc);
    lemma_close(r, p + acc.value(), k as real * m + 3real * m);
}

/// One more product, in two steps.
pub proof fn lemma_tracks_added(w: F32, x: F32, acc: F32, a: real, k: int, m: real)
    requires
        tracks(acc, a, k, m),
        moderate(m),
        0 <= k < 4000,
        w.is_finite_spec(),
        x.is_finite_spec(),
        -m <= w.value() * x.value() <= m,
    ensures
        tracks(acc.add_spec(w.mul_spec(x)), a + w.value() * x.value(), k + 1, m),
{
    lemma_slack(k, m);
    lemma_slack(k + 1, m);
    let y = w.value() * x.value();
    lemma_mul(w, x);
    let p = w.mul_spec(x);
    lemma_close(p, y, m);
    lemma_add(acc, p);
    lemma_close(acc.add_spec(p), acc.value() + p.value(), k as real * m + 4real * m);
}

/// One more term, which is itself off by a little.
pub proof fn lemma_tracks_term(y: F32, t: real, acc: F32, a: real, k: int, m: real)
    requires
        tracks(acc, a, k, m),
        moderate(m),
        0 <= k < 4000,
        near(y, t, 8real * m / 16777216real),
        -m <= t <= m,
    ensures
        tracks(acc.add_spec(y), a + t, k + 1, m),
{
    lemma_slack(k, m);
    lemma_slack(k + 1, m);
    lemma_add(acc, y);
    lemma_close(acc.add_spec(y), acc.value() + y.value(), k as real * m + 4real * m);
}

/// What is zero has the value zero.
pub proof fn lemma_zero_value(x: F32)
    requires
        x.is_zero_spec(),
    ensures
        x.is_finite_spec(),
        x.value() == 0real,
{
    assert(x.sig() == 0);
    let p = power(x.exp());
    assert(0real * p == 0real) by (nonlinear_arith);
}

/// A product with a zero that is left out.
pub proof fn lemma_tracks_skipped(w: F32, x: F32, acc: F32, a: real, k: int, m: real)
    requires
        tracks(acc, a, k, m),
        m >= 0real,
        0 <= k < 3999,
        w.is_zero_spec(),
    ensures
        tracks(acc, a + w.value() * x.value(), k + 1, m),
{
    lemma_zero_value(w);
    let v = x.value();
    assert(0real * v == 0real) by (nonlinear_arith);
    lemma_tracks_wider(acc, a, k, k + 1, m);
}

/// Two running sums, added.
pub proof fn lemma_tracks_sum(x: F32, a: real, j: int, y: F32, b: real, k: int, m: real)
    requires
        tracks(x, a, j, m),
        tracks(y, b, k, m),
        moderate(m),
        0 <= j,
        0 <= k,
        j + k < 3999,
    ensures
        tracks(x.add_spec(y), a + b, j + k + 1, m),
{
    lemma_slack(j, m);
    lemma_slack(k, m);
    lemma_slack(j + k, m);
    lemma_slack(j + k + 1, m);
    lemma_add(x, y);
    let (jr, kr, n) = (j as real, k as real, (j + k) as real);
    assert(n * m == jr * m + kr * m) by (nonlinear_arith)
        requires
            n == jr + kr,
    ;
    lemma_close(x.add_spec(y), x.value() + y.value(), n * m + 4real * m);
    let (p, q, r) = (
        (j * (j + 16)) as real,
        (k * (k + 16)) as real,
        ((j + k) * (j + k + 16)) as real,
    );
    assert(j * (j + 16) + k * (k + 16) <= (j + k) * (j + k + 16)) by (nonlinear_arith)
        requires
            0 <= j,
            0 <= k,
    ;
    assert(p * m + q * m <= r * m) by (nonlinear_arith)
        requires
            p + q <= r,
            m >= 0real,
    ;
}

/// Sums of the same terms are the same.
pub proof fn lemma_sum_eq(n: nat, g: spec_fn(int) -> real, h: spec_fn(int) -> real)
    requires
        forall|i: int| 0 <= i < n ==> #[trigger] g(i) == h(i),
    ensures
        sum(n, g) == sum(n, h),
    decreases n,
{
    if n > 0 {
        lemma_sum_eq((n - 1) as nat, g, h);
        assert(g(n - 1) == h(n - 1));
    }
}

/// A product of two bounded numbers.
pub proof fn lemma_bounded_product(x: F32, y: F32, p: real, q: real, m: real)
    requires
        between(x, -p, p),
        between(y, -q, q),
        p * q <= m,
    ensures
        -m <= x.value() * y.value() <= m,
{
    crate::ranges::lemma_product(x.value(), y.value(), p, q);
}

} // verus!
