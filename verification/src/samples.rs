//! What stored samples, eight-bit codes and test signals stand for.
use vstd::arithmetic::div_mod::*;
use vstd::arithmetic::mul::*;
use vstd::arithmetic::power2::*;
use vstd::prelude::*;

use crate::dsp::Complex;
use crate::float::F32;
use crate::half::widen;
use crate::int8::{
    code_dot, code_of, code_sum, codes_of, peak_of, product_at, products_of, shifted_dot, shifted_of,
    tile_at, tiles_of, CODE_MAX,
};
use crate::pcm::{format_fault, pcm16_of, pcm16s_of, sample_of, samples_of, FULL_SCALE};
use crate::ranges::{between, lemma_bits, lemma_units, lemma_zero};
use crate::rows::{lemma_place, row_of};
use crate::shares::{
    law_division_is_off_by_a_share, law_small_integers_are_numbers, lemma_rounded, lemma_smallest_step,
};
use crate::simd::{bits, HALF, ONE};
use crate::sums::{lemma_sum_eq, near, sum};
use crate::text::{decimal, list_text, listed};
use crate::tools::{centred, lcg_state, max_of, maxdiff_of, rnd_of, tile_of, LCG_RANGE};
use crate::values::{
    dyadic, lemma_add, lemma_close, lemma_div, lemma_dyadic, lemma_mul, lemma_neg, lemma_order,
    lemma_power_adds, lemma_power_monotonic, lemma_power_step, lemma_round_signed, lemma_within,
    power,
};
use crate::whole::{
    law_cutting_off_keeps_within_limits, law_integers_are_off_by_a_share,
    law_integers_within_limits_are_nearest, law_magnitudes_and_mirror_images,
};

use crate::weights::{floats_of, halves_of};

verus! {

// ------------------------------------------------------------------ wave files

/// A power of two is a number.
proof fn lemma_of_power(k: nat)
    requires
        k <= 62,
    ensures
        F32::of_int(pow2(k) as int).is_finite_spec(),
        F32::of_int(pow2(k) as int).value() == power(k as int),
{
    reveal(F32::of_int);
    lemma2_to64();
    let n = pow2(k) as int;
    let (x, p) = (n as real, power(0));
    assert(x * p == x) by (nonlinear_arith)
        requires
            p == 1real,
    ;
    lemma_round_signed(n, 0, false);
    lemma_dyadic(1, k as int);
    let w = power(k as int);
    assert(1int as real * w == w) by (nonlinear_arith);
    assert(x == w);
    lemma_within(F32::of_int(n), x, dyadic(1, k as int), dyadic(1, k as int));
}

/// The scale of a sample of `w` bits is `2^(1 - w)`.
proof fn lemma_sample_scale(w: int)
    requires
        1 <= w <= 63,
    ensures
        crate::pcm::scale_of(w).is_finite_spec(),
        crate::pcm::scale_of(w).value() == power(1 - w),
{
    let k = (w - 1) as nat;
    let d = F32::of_int(pow2(k) as int);
    lemma_units();
    lemma_of_power(k);
    lemma_power_step(k as int);
    crate::values::lemma_sign(d);
    lemma_div(bits(ONE), d);
    lemma_dyadic(1, 1 - w);
    let u = power(1 - w);
    assert(1int as real * u == u) by (nonlinear_arith);
    lemma_power_adds(k as int, 1 - w);
    lemma2_to64();
    let v = power(k as int);
    let q = 1real / v;
    assert(q == u) by (nonlinear_arith)
        requires
            q == 1real / v,
            v * u == 1real,
            v > 0real,
    ;
    lemma_within(crate::pcm::scale_of(w), q, dyadic(1, 1 - w), dyadic(1, 1 - w));
}

/// A sample of `w` bits stands for its share of `2^(w - 1)`: exactly up to 24 bits, and otherwise off by
/// at most a share of about 2^-22.
pub proof fn law_samples_are_shares_of_full_scale(v: int, w: int)
    requires
        1 <= w <= 63,
        -0x8000_0000 <= v <= 0x8000_0000,
    ensures
        sample_of(v, w).is_finite_spec(),
        -0x100_0000 < v < 0x100_0000 ==> sample_of(v, w).value() == v as real * power(1 - w),
        ({
            let x = v as real * power(1 - w);
            let size = if v < 0 {
                -x
            } else {
                x
            };
            -(size / 4000000real) <= sample_of(v, w).value() - x <= size / 4000000real
        }),
{
    let u = power(1 - w);
    lemma_sample_scale(w);
    law_integers_are_off_by_a_share(v);
    let (i, s) = (F32::of_int(v), crate::pcm::scale_of(w));
    lemma_mul(i, s);
    let (y, x) = (i.value() * u, v as real * u);
    let r = sample_of(v, w);
    lemma_power_step(1 - w);
    if -0x100_0000 < v < 0x100_0000 {
        law_small_integers_are_numbers(v);
        lemma_dyadic(v, 1 - w);
        lemma_within(r, y, dyadic(v, 1 - w), dyadic(v, 1 - w));
        assert(-(x / 4000000real) <= 0real || v < 0) by {
            let n = v as real;
            assert(n >= 0real ==> n * u >= 0real) by (nonlinear_arith)
                requires
                    u > 0real,
            ;
        }
        let n = v as real;
        assert(n < 0real ==> n * u <= 0real) by (nonlinear_arith)
            requires
                u > 0real,
        ;
    } else {
        lemma_power_monotonic(1 - w, 0);
        lemma_power_monotonic(-62, 1 - w);
        lemma2_to64();
        lemma2_to64_rest();
        assert(power(-62) == 1real / 4611686018427387904real);
        let (n, a) = (v as real, i.value());
        let m = if n < 0real {
            -n
        } else {
            n
        };
        assert(16777216real <= m <= 2147483648real);
        let (z, t) = (m * u, a * u);
        assert(t - x <= z / 16777216real && x - t <= z / 16777216real && 16777216real * u <= z <= 2147483648real)
            by (nonlinear_arith)
            requires
                t == a * u,
                x == n * u,
                z == m * u,
                a - n <= m / 16777216real,
                n - a <= m / 16777216real,
                16777216real <= m <= 2147483648real,
                0real < u <= 1real,
        ;
        assert(n >= 0real ==> x == z);
        assert(n < 0real ==> x == -z) by (nonlinear_arith)
            requires
                x == n * u,
                z == m * u,
                n < 0real ==> m == -n,
        ;
        lemma_power_monotonic(32, 127);
        assert(power(32) == 4294967296real);
        lemma_rounded(r, y);
        lemma_smallest_step();
    }
}

/// A recording is read sample by sample, in order.
pub proof fn law_recordings_are_read_in_order(s: Seq<i32>, w: int, i: int)
    requires
        1 <= w <= 63,
        0 <= i < s.len(),
    ensures
        samples_of(s, w).len() == s.len(),
        ({
            let x = s[i] as real * power(1 - w);
            let share = size(x) / 4000000real;
            near(samples_of(s, w)[i], x, share)
        }),
{
    law_samples_are_shares_of_full_scale(s[i] as int, w);
    let (v, u) = (s[i] as real, power(1 - w));
    lemma_power_step(1 - w);
    assert(v >= 0real ==> v * u >= 0real) by (nonlinear_arith)
        requires
            u > 0real,
    ;
    assert(v < 0real ==> v * u < 0real) by (nonlinear_arith)
        requires
            u > 0real,
    ;
}

/// What 32767 stands for.
proof fn lemma_full_scale()
    ensures
        bits(FULL_SCALE).is_finite_spec(),
        bits(FULL_SCALE).value() == 32767real,
{
    lemma2_to64();
    lemma_bits(bits(FULL_SCALE), 9, 512);
}

/// A number as a 16-bit sample: an integer next to 32767 times the number, which is cut off to full
/// scale on either side. What is not a number is silent.
pub proof fn law_samples_are_next_to_full_scale_times_the_number(x: F32)
    ensures
        -32767 <= pcm16_of(x) <= 32767,
        x.is_finite_spec() ==> ({
            let c = if x.value() < -1real {
                -1real
            } else if x.value() > 1real {
                1real
            } else {
                x.value()
            };
            -(502real / 1000real) <= pcm16_of(x) as real - 32767real * c <= 502real / 1000real
        }),
        x.is_inf_spec() ==> pcm16_of(x) == if x.is_neg_spec() {
            -32767int
        } else {
            32767int
        },
        x.is_nan_spec() ==> pcm16_of(x) == 0,
{
    lemma_units();
    lemma_full_scale();
    let (lo, hi) = (bits(crate::pcm::MINUS_ONE), bits(ONE));
    law_cutting_off_keeps_within_limits(x, lo, hi);
    let c = x.clamp_spec(lo, hi);
    let y = c.mul_spec(bits(FULL_SCALE));
    if x.is_nan_spec() {
        reveal(F32::mul_spec);
    } else {
        let v = c.value();
        lemma_mul(c, bits(FULL_SCALE));
        lemma_neg(bits(FULL_SCALE));
        lemma_within(y, v * 32767real, bits(FULL_SCALE).neg_spec(), bits(FULL_SCALE));
        lemma_close(y, v * 32767real, 32767real);
        law_integers_within_limits_are_nearest(y, -32768, 32767);
        let n = pcm16_of(x);
        if x.is_inf_spec() {
            if x.is_neg_spec() {
                lemma_within(y, v * 32767real, bits(FULL_SCALE).neg_spec(), bits(FULL_SCALE).neg_spec());
            } else {
                lemma_within(y, v * 32767real, bits(FULL_SCALE), bits(FULL_SCALE));
            }
        }
        if n == -32768 {
            assert(n < 32767);
            assert(false);
        }
    }
}

/// A recording is written sample by sample, in order.
pub proof fn law_recordings_are_written_in_order(s: Seq<F32>, i: int)
    requires
        0 <= i < s.len(),
        s[i].is_finite_spec(),
    ensures
        pcm16s_of(s).len() == s.len(),
        ({
            let (v, n) = (s[i].value(), pcm16s_of(s)[i] as real);
            &&& -1real <= v <= 1real ==> size(n - 32767real * v) <= 502real / 1000real
            &&& v > 1real ==> size(n - 32767real) <= 502real / 1000real
            &&& v < -1real ==> size(n + 32767real) <= 502real / 1000real
        }),
{
    law_samples_are_next_to_full_scale_times_the_number(s[i]);
}

// ------------------------------------------------------------------ peaks

/// The greatest of two numbers.
proof fn lemma_greater(x: F32, y: F32)
    requires
        x.is_finite_spec(),
        y.is_finite_spec(),
    ensures
        max_of(x, y).is_finite_spec(),
        max_of(x, y).value() == if x.value() < y.value() {
            y.value()
        } else {
            x.value()
        },
{
    lemma_order(y, x);
}

/// How far a number is from zero.
pub open spec fn size(x: real) -> real {
    if x < 0real {
        -x
    } else {
        x
    }
}

/// The peak of numbers is no less than any of their magnitudes, and is one of them; without numbers it
/// is zero.
pub proof fn law_the_peak_is_the_greatest_magnitude(m: Seq<F32>, n: nat)
    requires
        n <= m.len(),
        forall|i: int| 0 <= i < n ==> (#[trigger] m[i]).is_finite_spec(),
    ensures
        peak_of(m, n).is_finite_spec(),
        forall|i: int| 0 <= i < n ==> size((#[trigger] m[i]).value()) <= peak_of(m, n).value(),
        n == 0 ==> peak_of(m, n).value() == 0real,
        n > 0 ==> exists|i: int| 0 <= i < n && size((#[trigger] m[i]).value()) == peak_of(m, n).value(),
    decreases n,
{
    lemma_zero();
    if n > 0 {
        let k = (n - 1) as nat;
        law_the_peak_is_the_greatest_magnitude(m, k);
        let x = m[k as int];
        law_magnitudes_and_mirror_images(x);
        lemma_greater(peak_of(m, k), x.abs_spec());
        assert(size(m[k as int].value()) == x.abs_spec().value());
        let p = peak_of(m, n).value();
        if p == size(x.value()) {
            assert(size(m[k as int].value()) == p);
        } else {
            assert(k > 0);
            let i = choose|i: int| 0 <= i < k && size((#[trigger] m[i]).value()) == peak_of(m, k).value();
            assert(size(m[i].value()) == p);
        }
    }
}

/// The greatest difference is no less than the difference in any place, and is the one in some place, but
/// for the rounding of the subtraction.
pub proof fn law_the_greatest_difference_is_found(a: Seq<F32>, b: Seq<F32>, n: nat, p: real)
    requires
        n <= a.len(),
        n <= b.len(),
        1real / 1099511627776real <= p <= 1000000real,
        forall|i: int| 0 <= i < n ==> between(#[trigger] a[i], -p, p),
        forall|i: int| 0 <= i < n ==> between(#[trigger] b[i], -p, p),
    ensures
        maxdiff_of(a, b, n).is_finite_spec(),
        forall|i: int|
            0 <= i < n ==> size((#[trigger] a[i]).value() - b[i].value()) <= maxdiff_of(a, b, n).value() + p
                / 8000000real,
        n == 0 ==> maxdiff_of(a, b, n).value() == 0real,
        n > 0 ==> exists|i: int|
            0 <= i < n && maxdiff_of(a, b, n).value() <= size((#[trigger] a[i]).value() - b[i].value()) + p
                / 8000000real,
    decreases n,
{
    lemma_zero();
    if n > 0 {
        let k = (n - 1) as nat;
        law_the_greatest_difference_is_found(a, b, k, p);
        let (x, y) = (a[k as int], b[k as int]);
        lemma_neg(y);
        lemma_add(x, y.neg_spec());
        let d = x.sub_spec(y);
        lemma_close(d, x.value() - y.value(), 2real * p);
        law_magnitudes_and_mirror_images(d);
        let old_max = maxdiff_of(a, b, k);
        lemma_greater(old_max, d.abs_spec());
        let v = maxdiff_of(a, b, n).value();
        if v == d.abs_spec().value() {
            assert(v <= size(a[k as int].value() - b[k as int].value()) + p / 8000000real);
        } else {
            if k == 0 {
                assert(v <= size(a[k as int].value() - b[k as int].value()) + p / 8000000real);
            } else {
                let i = choose|i: int|
                    0 <= i < k && old_max.value() <= size((#[trigger] a[i]).value() - b[i].value()) + p
                        / 8000000real;
                assert(v <= size(a[i].value() - b[i].value()) + p / 8000000real);
            }
        }
    }
}

// ------------------------------------------------------------------ codes

/// The scale of the codes is the peak over 127.
pub proof fn law_the_scale_brings_the_peak_to_127(m: Seq<F32>)
    requires
        forall|i: int| 0 <= i < m.len() ==> (#[trigger] m[i]).is_finite_spec(),
        peak_of(m, m.len()).value() <= power(100),
    ensures
        ({
            let x = peak_of(m, m.len()).value() / 127real;
            let s = crate::int8::scale_of(m);
            s.is_finite_spec() && -(x / 8388608real + power(-149)) <= s.value() - x <= x / 8388608real
                + power(-149)
        }),
{
    law_the_peak_is_the_greatest_magnitude(m, m.len());
    let p = peak_of(m, m.len());
    let d = F32 { bits: CODE_MAX };
    lemma2_to64();
    lemma_bits(d, 17, 131072);
    assert(d.value() == 127real);
    lemma_power_monotonic(100, 127);
    if m.len() > 0 {
        assert(size(m[0].value()) <= p.value());
    }
    assert(p.value() >= 0real);
    law_division_is_off_by_a_share(p, d);
}

/// A code is the multiple of the scale next to the number, as far as codes go.
pub proof fn law_codes_are_next_to_the_number(x: F32, s: F32)
    requires
        x.is_finite_spec(),
        s.is_finite_spec(),
        s.value() > 0real,
        -power(100) <= x.value() / s.value() <= power(100),
    ensures
        -127 <= code_of(x, s) <= 127,
        code_of(x, s) > -127 ==> code_of(x, s) as real - 501real / 1000real <= x.value() / s.value(),
        code_of(x, s) < 127 ==> x.value() / s.value() <= code_of(x, s) as real + 501real / 1000real,
{
    let q = x.value() / s.value();
    lemma_power_monotonic(100, 127);
    crate::values::lemma_sign(s);
    law_division_is_off_by_a_share(x, s);
    law_integers_within_limits_are_nearest(x.div_spec(s), -127, 127);
    lemma_smallest_step();
}

/// Every number has its code in its own place.
pub proof fn law_codes_stand_in_place(m: Seq<F32>, s: F32, i: int)
    requires
        0 <= i < m.len(),
        m[i].is_finite_spec(),
        s.is_finite_spec(),
        s.value() > 0real,
        -power(100) <= m[i].value() / s.value() <= power(100),
    ensures
        codes_of(m, s).len() == m.len(),
        ({
            let c = codes_of(m, s)[i];
            let q = m[i].value() / s.value();
            -127 <= c <= 127 && (c > -127 ==> c as real - 501real / 1000real <= q) && (c < 127 ==> q <= c as real
                + 501real / 1000real)
        }),
{
    law_codes_are_next_to_the_number(m[i], s);
}

/// The activations' codes are those of the numbers, in place, shifted up by 128.
pub proof fn law_shifted_codes_are_codes_above_128(x: Seq<F32>, s: F32, i: int)
    requires
        0 <= i < x.len(),
        x[i].is_finite_spec(),
        s.is_finite_spec(),
        s.value() > 0real,
        -power(100) <= x[i].value() / s.value() <= power(100),
    ensures
        shifted_of(x, s).len() == x.len(),
        ({
            let c = shifted_of(x, s)[i] - 128;
            let q = x[i].value() / s.value();
            -127 <= c <= 127 && (c > -127 ==> c as real - 501real / 1000real <= q) && (c < 127 ==> q <= c as real
                + 501real / 1000real)
        }),
{
    law_codes_are_next_to_the_number(x[i], s);
}

/// Row `p * nb + l` of a matrix lies in panel `p` as row `l` of each of its chunks, chunk after chunk.
pub proof fn law_panels_hold_their_rows_in_chunks<A>(
    m: Seq<A>,
    rows: int,
    k: int,
    nb: int,
    ch: int,
    z: A,
    p: int,
    l: int,
    c: int,
    e: int,
)
    requires
        0 < nb,
        0 < ch,
        0 <= k,
        0 <= p < rows / nb,
        0 <= l < nb,
        0 <= c < k / ch,
        0 <= e < ch,
    ensures
        tiles_of(m, rows, k, nb, ch, z).len() == rows * k,
        tiles_of(m, rows, k, nb, ch, z)[p * (nb * k) + (c * (ch * nb) + (l * ch + e))] == m[(p * nb + l) * k
            + (c * ch + e)],
{
    let w = l * ch + e;
    lemma_place(l, e, nb, ch);
    lemma_mul_is_commutative(nb, ch);
    assert(0 <= w < ch * nb);
    let r = c * (ch * nb) + w;
    lemma_place(c, w, k / ch, ch * nb);
    lemma_fundamental_div_mod(k, ch);
    assert(0 <= r < k / ch * (ch * nb));
    assert(k / ch * (ch * nb) <= nb * k) by {
        lemma_mul_is_associative(k / ch, ch, nb);
        lemma_mul_is_commutative(k / ch, ch);
        lemma_mul_inequality(ch * (k / ch), k, nb);
        lemma_mul_is_commutative(k, nb);
    }
    let d = p * (nb * k) + r;
    assert(0 <= r < nb * k);
    lemma_place(p, r, rows / nb, nb * k);
    lemma_fundamental_div_mod(rows, nb);
    assert(rows / nb * (nb * k) <= rows * k) by {
        lemma_mul_is_associative(rows / nb, nb, k);
        lemma_mul_is_commutative(rows / nb, nb);
        lemma_mul_inequality(nb * (rows / nb), rows, k);
    }
    lemma_fundamental_div_mod_converse(d, nb * k, p, r);
    lemma_fundamental_div_mod_converse(r, ch * nb, c, w);
    lemma_fundamental_div_mod_converse(w, ch, l, e);
    assert(tile_at(m, rows, k, nb, ch, z, d) == m[(p * nb + l) * k + (c * ch + e)]);
}

/// The sum of codes is their sum, and the products of codes are the sums of the products of their
/// places; a shift by 128 is undone by the sum of the weights.
pub proof fn law_code_products_are_sums(a: Seq<int>, u: Seq<u8>, w: Seq<i8>, n: nat)
    ensures
        code_sum(w, n) as real == sum(n, |i: int| w[i] as real),
        code_dot(a, w, n) as real == sum(n, |i: int| (a[i] * w[i]) as real),
        shifted_dot(u, w, n) as real == sum(n, |i: int| (u[i] * w[i]) as real),
    decreases n,
{
    if n > 0 {
        law_code_products_are_sums(a, u, w, (n - 1) as nat);
        reveal_with_fuel(sum, 2);
    }
}

/// A row of the product of codes, in what they stand for: the sum of the products of weight codes and
/// activation codes, times both scales.
pub proof fn law_products_of_codes_stand_for_products(
    q: Seq<i8>,
    rows: int,
    k: int,
    a: Seq<int>,
    u: Seq<u8>,
    sums: Seq<i32>,
    ws: F32,
    xs: F32,
    j: int,
    b: real,
)
    requires
        rows % 12 == 0,
        k % 32 == 0,
        0 <= k,
        0 <= j < rows,
        rows <= sums.len(),
        rows * k <= q.len(),
        k <= a.len(),
        k <= u.len(),
        forall|i: int| 0 <= i < k ==> #[trigger] u[i] == a[i] + 128,
        sums[j] as real == sum(k as nat, |i: int| q[j * k + i] as real),
        between(ws, -1real, 1real),
        between(xs, -1real, 1real),
        1real <= b <= 4000000real,
        -b <= sum(k as nat, |i: int| (a[i] * q[j * k + i]) as real) <= b,
    ensures
        near(
            product_at(tiles_of(q, rows, k, 12, 32, 0i8), k, u, sums, ws, xs, j),
            sum(k as nat, |i: int| (a[i] * q[j * k + i]) as real) * (ws.value() * xs.value()),
            8real * b / 16777216real,
        ),
{
    let row = row_of(q, j, k);
    crate::rows::lemma_row_fits(j, rows, k);
    law_code_products_are_sums(a, u, row, k as nat);
    let d = code_dot(a, row, k as nat);
    lemma_sum_eq(k as nat, |i: int| row[i] as real, |i: int| q[j * k + i] as real);
    lemma_sum_eq(k as nat, |i: int| (a[i] * row[i]) as real, |i: int| (a[i] * q[j * k + i]) as real);
    assert(sums[j] as real == code_sum(row, k as nat) as real);
    crate::int8::law_code_products_are_exact(q, rows, k, a, u, sums, ws, xs, j);
    let dr = d as real;
    assert(dr == sum(k as nat, |i: int| (a[i] * q[j * k + i]) as real));
    law_integers_are_off_by_a_share(d);
    let (i, s) = (F32::of_int(d), ws.mul_spec(xs));
    let (x, y) = (ws.value() * xs.value(), s.value());
    crate::ranges::lemma_product(ws.value(), xs.value(), 1real, 1real);
    lemma_mul(ws, xs);
    lemma_close(s, x, 1real);
    lemma_mul(i, s);
    let n = i.value();
    let t = 1real / 16777216real;
    assert(-(b * t) <= n - dr <= b * t);
    assert(-(3real * b * t) <= n * y - dr * x <= 3real * b * t && -2real * b <= n * y <= 2real * b) by (nonlinear_arith)
        requires
            -(b * t) <= n - dr <= b * t,
            -t <= y - x <= t,
            -1real <= x <= 1real,
            -b <= dr <= b,
            b >= 1real,
            t == 1real / 16777216real,
    ;
    lemma_close(i.mul_spec(s), n * y, 2real * b);
}

/// The product is written row by row as far as the rows fill panels, and nothing is written behind them.
pub proof fn law_products_are_written_in_place(
    q: Seq<i8>,
    rows: int,
    k: int,
    a: Seq<int>,
    u: Seq<u8>,
    sums: Seq<i32>,
    ws: F32,
    xs: F32,
    out: Seq<F32>,
    j: int,
    b: real,
)
    requires
        rows % 12 == 0,
        k % 32 == 0,
        0 <= k,
        0 <= j < out.len(),
        rows <= out.len(),
        rows <= sums.len(),
        rows * k <= q.len(),
        k <= a.len(),
        k <= u.len(),
        forall|i: int| 0 <= i < k ==> #[trigger] u[i] == a[i] + 128,
        j < rows ==> sums[j] as real == sum(k as nat, |i: int| q[j * k + i] as real),
        between(ws, -1real, 1real),
        between(xs, -1real, 1real),
        1real <= b <= 4000000real,
        j < rows ==> -b <= sum(k as nat, |i: int| (a[i] * q[j * k + i]) as real) <= b,
    ensures
        ({
            let r = products_of(tiles_of(q, rows, k, 12, 32, 0i8), rows, k, u, sums, ws, xs, out);
            &&& r.len() == out.len()
            &&& j < rows ==> near(
                r[j],
                sum(k as nat, |i: int| (a[i] * q[j * k + i]) as real) * (ws.value() * xs.value()),
                8real * b / 16777216real,
            )
            &&& j >= rows ==> r[j] == out[j]
        }),
{
    if j < rows {
        law_products_of_codes_stand_for_products(q, rows, k, a, u, sums, ws, xs, j, b);
    }
}

// ------------------------------------------------------------------ test signals

/// A repeated signal starts with the signal and comes back after its length.
pub proof fn law_a_repeated_signal_comes_back(audio: Seq<F32>, n: nat, i: int)
    requires
        0 <= i < n,
        audio.len() > 0,
    ensures
        tile_of(audio, n).len() == n,
        i < audio.len() ==> tile_of(audio, n)[i] == audio[i],
        i + audio.len() < n ==> tile_of(audio, n)[i + audio.len()] == tile_of(audio, n)[i],
{
    let len = audio.len() as int;
    if i < len {
        lemma_small_mod(i as nat, len as nat);
    }
    lemma_mod_add_multiples_vanish(i, len);
    lemma_add_mod_noop(i, len, len);
    lemma_mod_self_0(len);
    assert((i + len) % len == i % len);
}

/// The generator's next state is 6364136223846793005 times the state plus one, and its numbers are those
/// of the states behind the seed, one by one.
pub proof fn law_the_generator_steps(seed: u64, n: nat, i: int)
    requires
        0 <= i < n,
    ensures
        lcg_state(seed, 1) == (seed * 6364136223846793005 + 1) % 0x1_0000_0000_0000_0000,
        lcg_state(seed, n + 1) == lcg_state(lcg_state(seed, 1), n),
        rnd_of(n, seed).len() == n,
        rnd_of(n + 1, seed)[0] == rnd_of(n, seed)[0],
        rnd_of(n + 1, seed)[i + 1] == rnd_of(n, lcg_state(seed, 1))[i],
    decreases n,
{
    reveal_with_fuel(lcg_state, 2);
    let m = 0x1_0000_0000_0000_0000int;
    let x = seed * 6364136223846793005;
    assert(lcg_state(seed, 1) == seed.wrapping_mul(6364136223846793005).wrapping_add(1));
    assert(seed.wrapping_mul(6364136223846793005) == x % m);
    assert((x % m + 1) % m == (x + 1) % m) by {
        lemma_add_mod_noop(x, 1, m);
        lemma_mod_twice(x, m);
        lemma_add_mod_noop(x % m, 1, m);
    }
    lemma_steps(seed, n);
    lemma_steps(seed, (i + 1) as nat);
}

proof fn lemma_steps(seed: u64, n: nat)
    ensures
        lcg_state(seed, n + 1) == lcg_state(lcg_state(seed, 1), n),
    decreases n,
{
    if n > 0 {
        lemma_steps(seed, (n - 1) as nat);
    } else {
        reveal_with_fuel(lcg_state, 2);
    }
}

proof fn lemma_half()
    ensures
        bits(HALF).is_finite_spec(),
        bits(HALF).value() == 1real / 2real,
{
    lemma2_to64();
    lemma_bits(bits(HALF), 24, 16777216);
}

proof fn lemma_range()
    ensures
        bits(LCG_RANGE).is_finite_spec(),
        !bits(LCG_RANGE).is_zero_spec(),
        bits(LCG_RANGE).value() == 2147483648real,
{
    lemma2_to64();
    let d = bits(LCG_RANGE);
    assert(d.exp() == 8 && d.sig() == 8388608);
    assert(power(8) == 256real);
}

proof fn lemma_share_of_the_range(x: F32)
    requires
        between(x, -200real, 3000000000real),
    ensures
        near(x.div_spec(bits(LCG_RANGE)), x.value() / 2147483648real, 2real / 8388608real),
{
    lemma_range();
    lemma_large_powers();
    law_division_is_off_by_a_share(x, bits(LCG_RANGE));
    lemma_smallest_step();
}

proof fn lemma_large_powers()
    ensures
        power(127) >= 4294967296real,
{
    lemma2_to64();
    lemma_power_monotonic(32, 127);
    assert(power(32) == 4294967296real);
}

/// The number of a state is its upper 31 bits as a share of 2^31, less one half.
pub proof fn law_the_numbers_are_upper_bits_centred(n: nat, seed: u64, i: int)
    requires
        0 <= i < n,
    ensures
        ({
            let s = lcg_state(seed, (i + 1) as nat);
            near(
                rnd_of(n, seed)[i],
                (s as int / 0x2_0000_0000) as real / 2147483648real - 1real / 2real,
                1real / 2000000real,
            )
        }),
{
    let s = lcg_state(seed, (i + 1) as nat);
    assert(s >> 33 == s / 0x2_0000_0000) by (bit_vector);
    let v = (s >> 33) as int;
    assert(0 <= v < 0x8000_0000);
    law_integers_are_off_by_a_share(v);
    let x = F32::of_int(v);
    let (y, w) = (x.value(), v as real);
    assert(0real <= w <= 2147483648real);
    assert(-128real <= y - w <= 128real);
    lemma_share_of_the_range(x);
    let q = x.div_spec(bits(LCG_RANGE));
    lemma_half();
    lemma_neg(bits(HALF));
    lemma_add(q, bits(HALF).neg_spec());
    lemma_close(q.sub_spec(bits(HALF)), q.value() - 1real / 2real, 1real);
    assert(rnd_of(n, seed)[i] == centred(s));
}

// ------------------------------------------------------------------ recordings and blobs

/// A recording is taken if and only if it has one channel and 16000 samples a second; of one with more
/// channels, these are told, and else its rate.
pub proof fn law_only_mono_at_16_khz_is_taken(channels: nat, rate: nat)
    ensures
        format_fault(channels, rate) is None <==> channels == 1 && rate == 16000,
        channels != 1 ==> format_fault(channels, rate) == Some(
            "expected mono, got "@ + decimal(channels) + " channels"@,
        ),
        channels == 1 && rate != 16000 ==> format_fault(channels, rate) == Some(
            "expected "@ + seq!['1', '6', '0', '0', '0'] + " Hz, got "@ + decimal(rate) + " Hz"@,
        ),
{
    reveal_with_fuel(decimal, 5);
    assert(decimal(16000) =~= seq!['1', '6', '0', '0', '0']);
}

/// Four bytes make a binary32 pattern and two a binary16 one, the least significant first; what is left
/// over at the end makes none.
pub proof fn law_bytes_make_patterns(b: Seq<u8>, i: int)
    ensures
        floats_of(b).len() == b.len() / 4,
        0 <= i < b.len() / 4 ==> floats_of(b)[i].bits == b[4 * i] + 256 * b[4 * i + 1] + 65536 * b[4 * i + 2]
            + 16777216 * b[4 * i + 3],
        halves_of(b).len() == b.len() / 2,
        0 <= i < b.len() / 2 ==> halves_of(b)[i] == widen((b[2 * i] + 256 * b[2 * i + 1]) as u16),
{
}

/// A list of numbers in words: in square brackets, with a comma and a space between two.
pub proof fn law_lists_in_words(a: usize, b: usize, c: usize, s: Seq<usize>)
    ensures
        list_text(Seq::empty()) == "[]"@,
        list_text(seq![a]) == "["@ + decimal(a as nat) + "]"@,
        list_text(seq![a, b, c]) == "["@ + decimal(a as nat) + ", "@ + decimal(b as nat) + ", "@ + decimal(
            c as nat,
        ) + "]"@,
        s.len() > 0 ==> list_text(s.push(a)) == list_text(s).drop_last() + ", "@ + decimal(a as nat) + "]"@,
{
    reveal_strlit("[");
    reveal_strlit("]");
    reveal_strlit("[]");
    reveal_strlit(", ");
    reveal_with_fuel(listed, 4);
    assert(list_text(Seq::empty()) =~= "[]"@);
    assert(list_text(seq![a]) =~= "["@ + decimal(a as nat) + "]"@);
    let t = seq![a, b, c];
    assert(list_text(t) =~= "["@ + decimal(a as nat) + ", "@ + decimal(b as nat) + ", "@ + decimal(c as nat)
        + "]"@);
    if s.len() > 0 {
        lemma_listed(s.push(a), s, s.len());
        assert(list_text(s.push(a)) =~= list_text(s).drop_last() + ", "@ + decimal(a as nat) + "]"@);
    }
}

proof fn lemma_listed(s: Seq<usize>, t: Seq<usize>, k: nat)
    requires
        k <= s.len(),
        k <= t.len(),
        forall|i: int| 0 <= i < k ==> s[i] == t[i],
    ensures
        listed(s, k) == listed(t, k),
    decreases k,
{
    if k > 0 {
        lemma_listed(s, t, (k - 1) as nat);
    }
}

// ------------------------------------------------------------------ complex numbers

/// Complex numbers part by part: a multiple by a real number, a sum, the conjugate, and the energy.
pub proof fn law_complex_numbers_part_by_part(x: Complex, y: Complex, s: F32, p: real)
    requires
        between(x.re, -p, p),
        between(x.im, -p, p),
        between(y.re, -p, p),
        between(y.im, -p, p),
        between(s, -1real, 1real),
        1real / 1000000real <= p <= 1000real,
    ensures
        ({
            let d = p / 8000000real;
            &&& near(x.scaled_spec(s).re, x.re.value() * s.value(), d)
            &&& near(x.scaled_spec(s).im, x.im.value() * s.value(), d)
            &&& near(x.plus_spec(y).re, x.re.value() + y.re.value(), d)
            &&& near(x.plus_spec(y).im, x.im.value() + y.im.value(), d)
            &&& x.conj_spec().re == x.re
            &&& x.conj_spec().im.value() == -x.im.value()
            &&& near(
                x.energy_spec(),
                x.re.value() * x.re.value() + x.im.value() * x.im.value(),
                p * p / 2000000real,
            )
        }),
{
    let (a, b, v) = (x.re.value(), x.im.value(), s.value());
    lemma_mul(x.re, s);
    lemma_mul(x.im, s);
    crate::ranges::lemma_product(a, v, p, 1real);
    crate::ranges::lemma_product(b, v, p, 1real);
    lemma_close(x.re.mul_spec(s), a * v, p);
    lemma_close(x.im.mul_spec(s), b * v, p);
    lemma_add(x.re, y.re);
    lemma_add(x.im, y.im);
    lemma_close(x.re.add_spec(y.re), a + y.re.value(), 2real * p);
    lemma_close(x.im.add_spec(y.im), b + y.im.value(), 2real * p);
    lemma_neg(x.im);
    lemma_mul(x.re, x.re);
    lemma_mul(x.im, x.im);
    crate::ranges::lemma_product(a, a, p, p);
    crate::ranges::lemma_product(b, b, p, p);
    let m = p * p;
    assert(1real / 1099511627776real <= m <= 1000000real) by (nonlinear_arith)
        requires
            m == p * p,
            1real / 1000000real <= p <= 1000real,
    ;
    let (c, d) = (x.re.mul_spec(x.re), x.im.mul_spec(x.im));
    lemma_close(c, a * a, m);
    lemma_close(d, b * b, m);
    lemma_add(c, d);
    lemma_close(c.add_spec(d), c.value() + d.value(), 21real / 10real * m);
}

} // verus!
