//! How far rounded results lie from the exact ones: dot products, and what analysis and synthesis
//! give back.

use crate::float::F32;
use crate::nn::{dot_of, lane, lane_sum, tail_sum};
use crate::ranges::{between, lemma_product, lemma_zero};
use crate::values::{
    dyadic, lemma_add, lemma_close, lemma_dyadic, lemma_mul, lemma_mul_add, lemma_within, power,
};
use vstd::arithmetic::power2::*;
use vstd::prelude::*;

verus! {

// ------------------------------------------------------------------ dot products

/// The exact sum of the first `n` products.
pub open spec fn exact_dot(a: Seq<F32>, b: Seq<F32>, n: nat) -> real
    decreases n,
{
    if n == 0 {
        0real
    } else {
        exact_dot(a, b, (n - 1) as nat) + a[n - 1].value() * b[n - 1].value()
    }
}

/// The exact sum of the first `c` products of lane `e`.
spec fn exact_lane(a: Seq<F32>, b: Seq<F32>, e: int, c: nat) -> real
    decreases c,
{
    if c == 0 {
        0real
    } else {
        exact_lane(a, b, e, (c - 1) as nat) + a[8 * (c - 1) + e].value() * b[8 * (c - 1)
            + e].value()
    }
}

/// `k` quarters, as a number.
proof fn lemma_quarters(k: int) -> (r: F32)
    requires
        -1000 <= k <= 1000,
    ensures
        r.is_finite_spec(),
        r.value() == k as real / 4real,
{
    lemma_dyadic(k, -2);
    lemma2_to64();
    assert(power(-2) == 1real / 4real);
    assert(k as real * power(-2) == k as real / 4real) by (nonlinear_arith)
        requires
            power(-2) == 1real / 4real,
    ;
    dyadic(k, -2)
}

/// A sum of numbers of at most `p` and `q` quarters.
proof fn lemma_bounded_sum(x: F32, y: F32, p: int, q: int)
    requires
        0 <= p,
        0 <= q,
        0 < p + q <= 1000,
        between(x, -(p as real / 4real), p as real / 4real),
        between(y, -(q as real / 4real), q as real / 4real),
    ensures
        ({
            let r = x.add_spec(y);
            let c = (p + q) as real / 4real;
            between(r, -c, c) && -(c / 16777216real) <= r.value() - (x.value() + y.value()) <= c
                / 16777216real
        }),
{
    let c = (p + q) as real / 4real;
    let hi = lemma_quarters(p + q);
    let lo = lemma_quarters(-(p + q));
    assert((p + q) as real == p as real + q as real);
    assert((-(p + q)) as real == -((p + q) as real));
    assert(p + q >= 1);
    lemma_add(x, y);
    lemma_within(x.add_spec(y), x.value() + y.value(), lo, hi);
    lemma_close(x.add_spec(y), x.value() + y.value(), c);
}

/// Whether every place of both holds a number of at most one half.
pub open spec fn halves_at_most(a: Seq<F32>, b: Seq<F32>) -> bool {
    forall|i: int|
        #![trigger a[i]]
        #![trigger b[i]]
        0 <= i < a.len() ==> between(a[i], -(1real / 2real), 1real / 2real) && between(
            b[i],
            -(1real / 2real),
            1real / 2real,
        )
}

proof fn lemma_lane(a: Seq<F32>, b: Seq<F32>, e: int, c: nat)
    requires
        halves_at_most(a, b),
        0 <= e < 8,
        8 * c <= a.len(),
        c <= 32,
    ensures
        ({
            let r = lane(a, b, e, c);
            let cr = c as real;
            let d = cr * (cr + 1real) / 8real / 16777216real;
            between(r, -(cr / 4real), cr / 4real) && -d <= r.value() - exact_lane(a, b, e, c) <= d
        }),
    decreases c,
{
    lemma_zero();
    if c > 0 {
        let k = (c - 1) as nat;
        lemma_lane(a, b, e, k);
        let i = 8 * (c - 1) + e;
        let (x, y, s) = (a[i], b[i], lane(a, b, e, k));
        lemma_product(x.value(), y.value(), 1real / 2real, 1real / 2real);
        let r = lane(a, b, e, c);
        assert(r == x.mul_add_spec(y, s));
        lemma_mul_add(x, y, s);
        let exact = x.value() * y.value() + s.value();
        let hi = lemma_quarters(c as int);
        let lo = lemma_quarters(-(c as int));
        let (cr, kr) = (c as real, k as real);
        assert(cr == kr + 1real);
        assert((-(c as int)) as real == -cr);
        lemma_within(r, exact, lo, hi);
        lemma_close(r, exact, cr / 4real);
        assert(cr * (cr + 1real) == kr * (kr + 1real) + 2real * cr) by (nonlinear_arith)
            requires
                cr == kr + 1real,
        ;
    } else {
        assert(0real * (0real + 1real) == 0real) by (nonlinear_arith);
    }
}

proof fn lemma_lanes_make_the_sum(a: Seq<F32>, b: Seq<F32>, c: nat)
    ensures
        exact_dot(a, b, 8 * c) == exact_lane(a, b, 0, c) + exact_lane(a, b, 1, c) + exact_lane(
            a,
            b,
            2,
            c,
        ) + exact_lane(a, b, 3, c) + exact_lane(a, b, 4, c) + exact_lane(a, b, 5, c) + exact_lane(
            a,
            b,
            6,
            c,
        ) + exact_lane(a, b, 7, c),
    decreases c,
{
    if c > 0 {
        lemma_lanes_make_the_sum(a, b, (c - 1) as nat);
        reveal_with_fuel(exact_dot, 9);
    }
}

proof fn lemma_lane_sum(a: Seq<F32>, b: Seq<F32>, c: nat)
    requires
        halves_at_most(a, b),
        8 * c <= a.len(),
        c <= 32,
    ensures
        ({
            let r = lane_sum(Seq::new(8, |e: int| lane(a, b, e, c)));
            let cr = c as real;
            let d = (cr * cr + 7real * cr) / 16777216real;
            between(r, -(2real * cr), 2real * cr) && -d <= r.value() - exact_dot(a, b, 8 * c) <= d
        }),
{
    let s = Seq::new(8, |e: int| lane(a, b, e, c));
    let cr = c as real;
    let ci = c as int;
    lemma_lane(a, b, 0, c);
    lemma_lane(a, b, 1, c);
    lemma_lane(a, b, 2, c);
    lemma_lane(a, b, 3, c);
    lemma_lane(a, b, 4, c);
    lemma_lane(a, b, 5, c);
    lemma_lane(a, b, 6, c);
    lemma_lane(a, b, 7, c);
    lemma_lanes_make_the_sum(a, b, c);
    assert(cr * (cr + 1real) == cr * cr + cr) by (nonlinear_arith);
    if c == 0 {
        lemma_zero();
        assert forall|e: int| 0 <= e < 8 implies #[trigger] s[e] == F32::zero_spec() by {}
        let z = F32::zero_spec();
        lemma_add(z, z);
        lemma_within(z.add_spec(z), 0real, z, z);
        let z2 = z.add_spec(z);
        lemma_add(z2, z2);
        lemma_within(z2.add_spec(z2), 0real, z, z);
        let z4 = z2.add_spec(z2);
        lemma_add(z4, z4);
        lemma_within(z4.add_spec(z4), 0real, z, z);
        assert(cr * cr == 0real) by (nonlinear_arith)
            requires
                cr == 0real,
        ;
    } else {
        lemma_bounded_sum(s[0], s[1], ci, ci);
        lemma_bounded_sum(s[2], s[3], ci, ci);
        lemma_bounded_sum(s[4], s[5], ci, ci);
        lemma_bounded_sum(s[6], s[7], ci, ci);
        let (p, q, r, t) = (
            s[0].add_spec(s[1]),
            s[2].add_spec(s[3]),
            s[4].add_spec(s[5]),
            s[6].add_spec(s[7]),
        );
        lemma_bounded_sum(p, q, 2 * ci, 2 * ci);
        lemma_bounded_sum(r, t, 2 * ci, 2 * ci);
        lemma_bounded_sum(p.add_spec(q), r.add_spec(t), 4 * ci, 4 * ci);
    }
}

proof fn lemma_tail(a: Seq<F32>, b: Seq<F32>, s: F32, c: nat, j: nat)
    requires
        halves_at_most(a, b),
        8 * c + j <= a.len(),
        c <= 32,
        j <= 7,
        between(s, -(2real * c as real), 2real * c as real),
    ensures
        ({
            let r = tail_sum(a, b, s, 8 * c as int, 8 * c + j as int);
            let (cr, jr) = (c as real, j as real);
            let m = 2real * cr + jr / 4real;
            let d = (jr * (2real * cr + 1real / 4real) + jr * (jr + 1real) / 8real) / 16777216real;
            let x = s.value() + exact_dot(a, b, 8 * c + j) - exact_dot(a, b, 8 * c);
            between(r, -m, m) && -d <= r.value() - x <= d
        }),
    decreases j,
{
    let (cr, jr) = (c as real, j as real);
    if j == 0 {
        assert(jr * (2real * cr + 1real / 4real) == 0real && jr * (jr + 1real) == 0real)
            by (nonlinear_arith)
            requires
                jr == 0real,
        ;
    } else {
        let k = (j - 1) as nat;
        lemma_tail(a, b, s, c, k);
        let kr = k as real;
        let i = 8 * c + j - 1;
        let (x, y) = (a[i], b[i]);
        let p = x.mul_spec(y);
        lemma_mul(x, y);
        lemma_product(x.value(), y.value(), 1real / 2real, 1real / 2real);
        let hi = lemma_quarters(1);
        let lo = lemma_quarters(-1);
        lemma_within(p, x.value() * y.value(), lo, hi);
        lemma_close(p, x.value() * y.value(), 1real / 4real);
        let before = tail_sum(a, b, s, 8 * c as int, 8 * c + k as int);
        assert((8 * c + k) as real == 8real * cr + kr);
        lemma_bounded_sum(before, p, 8 * c + k as int, 1);
        assert(jr == kr + 1real);
        assert((8 * c + k + 1) as real == 8real * cr + jr);
        let w = 2real * cr + 1real / 4real;
        assert(jr * w == kr * w + w && jr * (jr + 1real) == kr * (kr + 1real) + 2real * jr)
            by (nonlinear_arith)
            requires
                jr == kr + 1real,
        ;
    }
}

/// The dot product of up to 256 pairs of numbers of at most one half is within `1e-4` of the exact
/// sum of the products.
pub proof fn law_dot_is_near_the_exact_sum(a: Seq<F32>, b: Seq<F32>)
    requires
        a.len() == b.len(),
        a.len() <= 256,
        halves_at_most(a, b),
    ensures
        dot_of(a, b).is_finite_spec(),
        -(1real / 10000real) <= dot_of(a, b).value() - exact_dot(a, b, a.len()) <= 1real
            / 10000real,
{
    reveal(dot_of);
    let n = a.len() as int;
    let c = (n / 8) as nat;
    let j = (n % 8) as nat;
    lemma_lane_sum(a, b, c);
    let s = lane_sum(Seq::new(8, |e: int| lane(a, b, e, c)));
    lemma_tail(a, b, s, c, j);
    let (cr, jr) = (c as real, j as real);
    assert(cr <= 32real && jr <= 7real);
    assert(8real * cr + jr <= 256real);
    if c == 32 {
        assert(j == 0);
    }
    let w = cr * cr + 7real * cr + (jr * (2real * cr + 1real / 4real) + jr * (jr + 1real) / 8real);
    assert(w <= 1650real) by (nonlinear_arith)
        requires
            w == cr * cr + 7real * cr + (jr * (2real * cr + 1real / 4real) + jr * (jr + 1real)
                / 8real),
            cr == 32real && jr == 0real || 0real <= cr <= 31real && 0real <= jr <= 7real,
    {
        if cr <= 31real {
            assert(cr * cr <= 31real * 31real);
            assert(jr * (2real * cr + 1real / 4real) <= 7real * (62real + 1real / 4real));
            assert(jr * (jr + 1real) <= 56real);
        }
    }
}

} // verus!
