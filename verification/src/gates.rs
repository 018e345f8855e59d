//! What the activations make of sums that are off by a little: the gates of the recurrent unit and the
//! predicted SNR, as functions on reals.
use vstd::prelude::*;

use crate::bank::BankView;
use crate::encoder::{encode_of, LSNR_FLOOR, LSNR_SPAN};
use crate::exponential::{
    hyperbolic, is_exponential, law_sigmoid_is_near_the_logistic_function,
    law_tanh_is_near_the_hyperbolic_tangent, lemma_positive, lemma_series, lemma_sum, lemma_term,
    logistic, series, term,
};
use crate::float::F32;
use crate::nn::{
    dot_of, gate_at, gates_of, gemm_of, gru_of, gru_state, gru_states, law_gemm_rows_are_matvecs,
    law_packed_matvec_is_matvec, lemma_gru_len, matvec_of, pack_of,
};
use crate::ranges::{
    between, law_sigmoid_is_between_zero_and_one, law_tanh_is_between_minus_one_and_one, lemma_bits,
    lemma_product, lemma_units, lemma_zero,
};
use crate::rows::{lemma_row_fits, lemma_row_of_rows, row_of};
use crate::simd::{
    bits, exp_octaves, exp_of, exp_poly, exp_reduced, sigmoid_of, tanh_of, EXP_HI, EXP_LO, ONE,
    TWO,
};
use crate::sums::{
    bounded, lemma_sum_eq, lemma_tracks_start, lemma_tracks_sum, moderate, near, slack, sum,
};
use crate::values::{
    lemma_add, lemma_close, lemma_mul, lemma_mul_add, lemma_neg, lemma_order, lemma_within,
};
use crate::weights::zeros;
use crate::whole::{law_no_number_comes_of_none, law_sums_with_an_infinity};

verus! {

/// The logistic function moves by at most twice what its argument moves.
proof fn lemma_logistic_moves(f: spec_fn(real) -> real, a: real, b: real, d: real)
    requires
        is_exponential(f),
        -d <= a - b <= d,
        d <= 1real,
    ensures
        0real < logistic(f(-a)) < 1real,
        0real < logistic(f(-b)) < 1real,
        -(2real * d) <= logistic(f(-a)) - logistic(f(-b)) <= 2real * d,
{
    let e = a - b;
    let (x, r, y) = (f(-a), f(e), f(-b));
    lemma_positive(f, -a);
    lemma_positive(f, e);
    lemma_positive(f, -b);
    lemma_sum(f, -a, e);
    assert(-a + e == -b);
    assert(y == x * r);
    // the exponential next to zero
    lemma_series(f, e, 1);
    assert(term(e, 0) == 1real && series(e, 0) == 1real);
    lemma_term(e, 1);
    lemma_term(e, 2);
    assert(1real * term(e, 1) == 1real * e);
    assert(2real * term(e, 2) == e * e);
    assert(0real <= e * e <= d) by (nonlinear_arith)
        requires
            -d <= e <= d,
            d <= 1real,
    {
        assert(e * e <= d * d);
        assert(d * d <= d);
    }
    let g = r - 1real;
    assert(-(2real * d) <= g <= 2real * d);
    let (s1, s2) = (logistic(x), logistic(y));
    assert(s1 * (1real + x) == 1real && 0real < s1 < 1real) by (nonlinear_arith)
        requires
            s1 == 1real / (1real + x),
            x > 0real,
    ;
    assert(s2 * (1real + y) == 1real && 0real < s2 < 1real) by (nonlinear_arith)
        requires
            s2 == 1real / (1real + y),
            y > 0real,
    ;
    // s1 - s2 == g * (x * s1) * s2
    let u = x * s1;
    assert(u == 1real - s1) by (nonlinear_arith)
        requires
            u == x * s1,
            s1 * (1real + x) == 1real,
    ;
    let v = u * s2;
    assert(0real <= v <= 1real) by (nonlinear_arith)
        requires
            v == u * s2,
            0real < u < 1real,
            0real < s2 < 1real,
    ;
    assert(s1 - s2 == g * v) by (nonlinear_arith)
        requires
            v == u * s2,
            u == x * s1,
            u == 1real - s1,
            s2 * (1real + y) == 1real,
            y == x * r,
            g == r - 1real,
    {
        assert(g * v == (r * u) * s2 - u * s2);
        assert(r * u == y * s1) by (nonlinear_arith)
            requires
                u == x * s1,
                y == x * r,
        ;
        assert((y * s1) * s2 == s1 * (y * s2)) by (nonlinear_arith);
        assert(y * s2 == 1real - s2);
        assert(s1 * (1real - s2) == s1 - s1 * s2);
        assert(u * s2 == s2 - s1 * s2);
    }
    lemma_product(g, v, 2real * d, 1real);
}

/// The computed logistic function of a number within `d` of `s` is within `2 * d + 2e-7` of the
/// logistic function of `s`.
pub proof fn law_sigmoid_follows_its_argument(f: spec_fn(real) -> real, y: F32, s: real, d: real)
    requires
        is_exponential(f),
        near(y, s, d),
        0real <= d <= 1real,
    ensures
        near(sigmoid_of(y), logistic(f(-s)), 2real * d + 2real / 10000000real),
        between(sigmoid_of(y), 0real, 1real),
        0real < logistic(f(-s)) < 1real,
{
    law_sigmoid_is_near_the_logistic_function(f, y);
    law_sigmoid_is_between_zero_and_one(y);
    lemma_logistic_moves(f, y.value(), s, d);
}

/// The computed hyperbolic tangent of a number within `d` of `s` is within `8 * d + 2e-7` of the
/// hyperbolic tangent of `s`.
pub proof fn law_tanh_follows_its_argument(f: spec_fn(real) -> real, y: F32, s: real, d: real)
    requires
        is_exponential(f),
        near(y, s, d),
        0real <= d <= 1real / 2real,
    ensures
        near(tanh_of(y), hyperbolic(f(2real * s)), 8real * d + 2real / 10000000real),
        between(tanh_of(y), -1real, 1real),
        -1real < hyperbolic(f(2real * s)) < 1real,
{
    law_tanh_is_near_the_hyperbolic_tangent(f, y);
    law_tanh_is_between_minus_one_and_one(y);
    let (a, b) = (-(2real * y.value()), -(2real * s));
    lemma_logistic_moves(f, a, b, 2real * d);
    assert(-a == 2real * y.value() && -b == 2real * s);
}

// ------------------------------------------------------------------ the predicted SNR

/// The predicted SNR of a frame is 50 times the logistic function of the frame's own row of the
/// embedding times the weights, plus the bias, less 15.
pub proof fn law_predicted_snr_weighs_its_own_frame(
    f: spec_fn(real) -> real,
    b: BankView,
    feat_erb: Seq<F32>,
    feat_spec: Seq<F32>,
    t: nat,
    ti: int,
    p: real,
    q: real,
    m: real,
)
    requires
        is_exponential(f),
        0 <= ti < t,
        ({
            let e = encode_of(b, feat_erb, feat_spec, t);
            e.emb.len() >= t * 128 && bounded(e.emb, p)
        }),
        b.w.tensor("enc/onnx::MatMul_365"@).len() == 128,
        bounded(b.w.tensor("enc/onnx::MatMul_365"@), q),
        b.w.tensor("enc/lsnr_fc.0.bias"@).len() >= 1,
        between(b.w.tensor("enc/lsnr_fc.0.bias"@)[0], -m, m),
        p * q <= m,
        moderate(m),
        m <= 500real,
    ensures
        ({
            let e = encode_of(b, feat_erb, feat_spec, t);
            let w = b.w.tensor("enc/onnx::MatMul_365"@);
            let c = b.w.tensor("enc/lsnr_fc.0.bias"@)[0].value();
            let s = sum(128, |k: int| e.emb[ti * 128 + k].value() * w[k].value()) + c;
            &&& e.lsnr.len() == t
            &&& near(
                e.lsnr[ti],
                50real * logistic(f(-s)) - 15real,
                100real * slack(136, m) + 2real / 100000real,
            )
        }),
{
    let e = encode_of(b, feat_erb, feat_spec, t);
    let w = b.w.tensor("enc/onnx::MatMul_365"@);
    let c = b.w.tensor("enc/lsnr_fc.0.bias"@)[0];
    lemma_row_fits(ti, t as int, 128);
    let row = row_of(e.emb, ti, 128);
    assert forall|i: int| 0 <= i < row.len() implies between(#[trigger] row[i], -p, p) by {
        assert(row[i] == e.emb[ti * 128 + i]);
    }
    let (g, h) = (
        |k: int| row[k].value() * w[k].value(),
        |k: int| e.emb[ti * 128 + k].value() * w[k].value(),
    );
    assert forall|k: int| 0 <= k < 128 implies #[trigger] g(k) == h(k) by {
        assert(row[k] == e.emb[ti * 128 + k]);
    }
    lemma_sum_eq(128, g, h);
    let dot = dot_of(row, w);
    crate::kernels::lemma_dot_tracks(row, w, p, q, m);
    lemma_tracks_start(c, m);
    lemma_tracks_sum(dot, sum(128, g), 135, c, c.value(), 0, m);
    let y = dot.add_spec(c);
    let s = sum(128, h) + c.value();
    let d = slack(136, m);
    assert(d == 20672real * m / 16777216real);
    law_sigmoid_follows_its_argument(f, y, s, d);
    let v = sigmoid_of(y);
    let (span, floor) = (bits(LSNR_SPAN), bits(LSNR_FLOOR));
    vstd::arithmetic::power2::lemma2_to64();
    lemma_bits(span, 18, 262144);
    lemma_bits(floor, 20, 1048576);
    lemma_mul(v, span);
    lemma_close(v.mul_spec(span), v.value() * 50real, 51real);
    lemma_neg(floor);
    let a = v.mul_spec(span);
    lemma_add(a, floor.neg_spec());
    lemma_close(a.sub_spec(floor), a.value() - 15real, 36real);
    assert(e.lsnr[ti] == a.sub_spec(floor));
}

/// Equal rows of the embedding give equal predictions, wherever they stand, and nothing else of the
/// embedding counts.
pub proof fn law_equal_rows_give_equal_predictions(
    b: BankView,
    x1: Seq<F32>,
    y1: Seq<F32>,
    t1: nat,
    i1: int,
    x2: Seq<F32>,
    y2: Seq<F32>,
    t2: nat,
    i2: int,
)
    requires
        0 <= i1 < t1,
        0 <= i2 < t2,
        encode_of(b, x1, y1, t1).emb.subrange(i1 * 128, i1 * 128 + 128) == encode_of(
            b,
            x2,
            y2,
            t2,
        ).emb.subrange(i2 * 128, i2 * 128 + 128),
    ensures
        encode_of(b, x1, y1, t1).lsnr[i1] == encode_of(b, x2, y2, t2).lsnr[i2],
{
    let (e1, e2) = (encode_of(b, x1, y1, t1).emb, encode_of(b, x2, y2, t2).emb);
    assert(row_of(e1, i1, 128) == e1.subrange(i1 * 128, i1 * 128 + 128));
    assert(row_of(e2, i2, 128) == e2.subrange(i2 * 128, i2 * 128 + 128));
}

// ------------------------------------------------------------------ the recurrent unit

/// How far an update or reset gate may be off, for sums of three numbers of at most `m`.
pub open spec fn gate_slack(m: real) -> real {
    2real * slack(2, m) + 2real / 10000000real
}

/// How far the sum under the new gate may be off.
pub open spec fn new_slack(m: real) -> real {
    3real * m * gate_slack(m) + 40real * m / 16777216real
}

/// Three numbers added up, under the logistic function.
proof fn lemma_gate(f: spec_fn(real) -> real, x: F32, y: F32, z: F32, m: real)
    requires
        is_exponential(f),
        between(x, -m, m),
        between(y, -m, m),
        between(z, -m, m),
        moderate(m),
        m <= 100real,
    ensures
        ({
            let g = sigmoid_of(x.add_spec(y).add_spec(z));
            let s = logistic(f(-(x.value() + y.value() + z.value())));
            near(g, s, gate_slack(m)) && between(g, 0real, 1real) && 0real < s < 1real
        }),
{
    lemma_tracks_start(x, m);
    lemma_tracks_start(y, m);
    lemma_tracks_start(z, m);
    lemma_tracks_sum(x, x.value(), 0, y, y.value(), 0, m);
    lemma_tracks_sum(x.add_spec(y), x.value() + y.value(), 1, z, z.value(), 0, m);
    assert(slack(2, m) == 36real * m / 16777216real);
    law_sigmoid_follows_its_argument(
        f,
        x.add_spec(y).add_spec(z),
        x.value() + y.value() + z.value(),
        slack(2, m),
    );
}

/// The reset gate times a sum of two numbers, plus a number, under the hyperbolic tangent.
proof fn lemma_new(
    f: spec_fn(real) -> real,
    x: F32,
    r: F32,
    rr: real,
    y: F32,
    z: F32,
    m: real,
)
    requires
        is_exponential(f),
        between(x, -m, m),
        between(y, -m, m),
        between(z, -m, m),
        near(r, rr, gate_slack(m)),
        between(r, 0real, 1real),
        0real < rr < 1real,
        moderate(m),
        m <= 100real,
    ensures
        ({
            let g = tanh_of(x.add_spec(r.mul_spec(y.add_spec(z))));
            let s = hyperbolic(f(2real * (x.value() + rr * (y.value() + z.value()))));
            near(g, s, 8real * new_slack(m) + 2real / 10000000real) && between(g, -1real, 1real)
                && -1real < s < 1real
        }),
{
    lemma_tracks_start(y, m);
    lemma_tracks_start(z, m);
    lemma_tracks_sum(y, y.value(), 0, z, z.value(), 0, m);
    let q = y.add_spec(z);
    let (rv, qv, e) = (r.value(), q.value(), gate_slack(m));
    let qq = y.value() + z.value();
    assert(slack(1, m) == 17real * m / 16777216real);
    assert(slack(2, m) == 36real * m / 16777216real);
    assert(-(3real * m) <= qv <= 3real * m);
    // the product
    let p = r.mul_spec(q);
    lemma_mul(r, q);
    lemma_product(rv, qv, 1real, 3real * m);
    lemma_close(p, rv * qv, 3real * m);
    let (a, b) = (rv - rr, qv - qq);
    lemma_product(qv, a, 3real * m, e);
    lemma_product(rr, b, 1real, slack(1, m));
    assert(rv * qv == rr * qq + qv * a + rr * b) by (nonlinear_arith)
        requires
            a == rv - rr,
            b == qv - qq,
    ;
    // the sum
    let s = x.add_spec(p);
    lemma_add(x, p);
    lemma_close(s, x.value() + p.value(), 5real * m);
    let d = new_slack(m);
    assert(3real * m * e <= 300real * e) by (nonlinear_arith)
        requires
            0real <= m <= 100real,
            e >= 0real,
    ;
    assert(near(s, x.value() + rr * qq, d));
    law_tanh_follows_its_argument(f, s, x.value() + rr * qq, d);
}

/// `(1 - z) * n + z * h`.
proof fn lemma_gated(z: F32, zz: real, n: F32, nn: real, h: F32, e: real, d: real)
    requires
        near(z, zz, e),
        near(n, nn, d),
        between(z, 0real, 1real),
        between(n, -1real, 1real),
        between(h, -1real, 1real),
        0real < zz < 1real,
        -1real < nn < 1real,
    ensures
        near(
            bits(ONE).sub_spec(z).mul_add_spec(n, z.mul_spec(h)),
            (1real - zz) * nn + zz * h.value(),
            2real * e + d + 1real / 1000000real,
        ),
{
    lemma_units();
    let one = bits(ONE);
    let c = one.sub_spec(z);
    lemma_neg(z);
    lemma_add(one, z.neg_spec());
    lemma_close(c, 1real - z.value(), 1real);
    let p = z.mul_spec(h);
    lemma_mul(z, h);
    let (zv, hv, cv, nv) = (z.value(), h.value(), c.value(), n.value());
    lemma_product(zv, hv, 1real, 1real);
    lemma_close(p, zv * hv, 1real);
    lemma_product(cv, nv, 11real / 10real, 1real);
    lemma_mul_add(c, n, p);
    lemma_close(c.mul_add_spec(n, p), cv * nv + p.value(), 3real);
    let (a, b, g) = (cv - (1real - zz), nv - nn, zv - zz);
    let ea = e + 1real / 16777216real;
    lemma_product(nv, a, 1real, ea);
    lemma_product(1real - zz, b, 1real, d);
    lemma_product(hv, g, 1real, e);
    let w = 1real - zz;
    assert(cv * nv == w * nn + nv * a + w * b) by (nonlinear_arith)
        requires
            a == cv - w,
            b == nv - nn,
    ;
    assert(zv * hv == zz * hv + hv * g) by (nonlinear_arith)
        requires
            g == zv - zz,
    ;
}

/// The gates: with the update gate `z` and the reset gate `r`, both the logistic function of the sum of
/// the input, the recurrent and the bias term of their third, and `n` the hyperbolic tangent of the
/// input term plus `r` times the recurrent and bias terms of the last third, the new state of unit `k`
/// is `(1 - z) * n + z * h`.
pub proof fn law_gates_blend_the_state(
    f: spec_fn(real) -> real,
    xw: Seq<F32>,
    hr: Seq<F32>,
    rb: Seq<F32>,
    h: Seq<F32>,
    hs: nat,
    k: int,
    m: real,
)
    requires
        is_exponential(f),
        0 <= k < hs,
        xw.len() >= 3 * hs,
        hr.len() >= 3 * hs,
        rb.len() >= 3 * hs,
        h.len() >= hs,
        bounded(xw, m),
        bounded(hr, m),
        bounded(rb, m),
        bounded(h, 1real),
        moderate(m),
        m <= 100real,
    ensures
        ({
            let s = |i: int| xw[i].value() + hr[i].value() + rb[i].value();
            let z = logistic(f(-s(k)));
            let r = logistic(f(-s(hs + k)));
            let n = hyperbolic(
                f(
                    2real * (xw[2 * hs + k].value() + r * (hr[2 * hs + k].value() + rb[2 * hs
                        + k].value())),
                ),
            );
            &&& gates_of(xw, hr, rb, h, hs).len() == hs
            &&& near(
                gates_of(xw, hr, rb, h, hs)[k],
                (1real - z) * n + z * h[k].value(),
                2real * gate_slack(m) + 8real * new_slack(m) + 2real / 1000000real,
            )
        }),
{
    let (j, l) = (hs + k, 2 * hs + k);
    assert(between(xw[k], -m, m) && between(hr[k], -m, m) && between(rb[k], -m, m));
    assert(between(xw[j], -m, m) && between(hr[j], -m, m) && between(rb[j], -m, m));
    assert(between(xw[l], -m, m) && between(hr[l], -m, m) && between(rb[l], -m, m));
    assert(between(h[k], -1real, 1real));
    lemma_gate(f, xw[k], hr[k], rb[k], m);
    lemma_gate(f, xw[j], hr[j], rb[j], m);
    let z = sigmoid_of(xw[k].add_spec(hr[k]).add_spec(rb[k]));
    let r = sigmoid_of(xw[j].add_spec(hr[j]).add_spec(rb[j]));
    let zz = logistic(f(-(xw[k].value() + hr[k].value() + rb[k].value())));
    let rr = logistic(f(-(xw[j].value() + hr[j].value() + rb[j].value())));
    lemma_new(f, xw[l], r, rr, hr[l], rb[l], m);
    let n = tanh_of(xw[l].add_spec(r.mul_spec(hr[l].add_spec(rb[l]))));
    let nn = hyperbolic(f(2real * (xw[l].value() + rr * (hr[l].value() + rb[l].value()))));
    lemma_gated(
        z,
        zz,
        n,
        nn,
        h[k],
        gate_slack(m),
        8real * new_slack(m) + 2real / 10000000real,
    );
    assert(gates_of(xw, hr, rb, h, hs)[k] == gate_at(xw, hr, rb, h, hs as int, k));
}

/// The state before frame `ti`, as the outputs of the recurrent unit show it: the output of the frame
/// before, and zeros before the first one.
pub open spec fn state_before(y: Seq<F32>, hs: nat, ti: int) -> Seq<F32> {
    if ti == 0 {
        zeros(hs)
    } else {
        y.subrange((ti - 1) * hs, ti * hs)
    }
}

/// Every frame of the recurrent unit is gated out of its own input row, times the input weights, and of
/// the output of the frame before, times the recurrent matrix: nothing else is kept between frames.
pub proof fn law_gru_carries_its_output(
    x: Seq<F32>,
    t: nat,
    i: nat,
    w: Seq<F32>,
    m: Seq<F32>,
    b: Seq<F32>,
    hs: nat,
    ti: int,
)
    requires
        0 <= ti < t,
        t * i <= x.len(),
        hs > 0,
        hs % 8 == 0,
        3 * hs * hs <= m.len(),
        6 * hs <= b.len(),
    ensures
        ({
            let y = gru_of(x, t, i as int, w, pack_of(m, 3 * hs as int, hs as int), b, hs);
            let h = state_before(y, hs, ti);
            &&& y.len() == t * hs
            &&& y.subrange(ti * hs, (ti + 1) * hs) == gates_of(
                matvec_of(
                    w,
                    3 * hs,
                    i as int,
                    x.subrange(ti * i, (ti + 1) * i),
                    Some(b.subrange(0, 3 * hs as int)),
                ),
                matvec_of(m, 3 * hs, hs as int, h, None),
                b.subrange(3 * hs as int, b.len() as int),
                h,
                hs,
            )
        }),
{
    let r = pack_of(m, 3 * hs as int, hs as int);
    let bw = b.take(3 * hs as int);
    let rb = b.skip(3 * hs as int);
    let xw = gemm_of(x, t, i as int, w, 3 * hs, bw);
    let y = gru_of(x, t, i as int, w, r, b, hs);
    lemma_gru_len(x, t, i as int, w, r, b, hs);
    let g = gru_states(xw, r, rb, hs);
    lemma_row_of_rows(t, hs as int, g, ti);
    law_gemm_rows_are_matvecs(x, t, i as int, w, 3 * hs, bw, ti);
    let h = state_before(y, hs, ti);
    if ti > 0 {
        lemma_row_of_rows(t, hs as int, g, ti - 1);
        assert(row_of(y, ti - 1, hs as int) == y.subrange((ti - 1) * hs, ti * hs));
    }
    assert(h == gru_state(xw, r, rb, hs, ti as nat));
    law_packed_matvec_is_matvec(m, 3 * hs as int, hs as int, h);
    assert(row_of(y, ti, hs as int) == y.subrange(ti * hs, (ti + 1) * hs));
    assert(row_of(x, ti, i as int) == x.subrange(ti * i, (ti + 1) * i));
    assert(bw == b.subrange(0, 3 * hs as int));
    assert(rb == b.subrange(3 * hs as int, b.len() as int));
}

// ------------------------------------------------------------------ beyond the numbers

/// Past its largest and its least argument the exponential stays as it is there, and of what is not a
/// number it is not one.
pub proof fn law_exponentials_are_cut_off(x: F32)
    ensures
        x.is_nan_spec() ==> exp_of(x).is_nan_spec(),
        bits(EXP_HI).lt_spec(x) ==> exp_of(x) == exp_of(bits(EXP_HI)),
        x.lt_spec(bits(EXP_LO)) ==> exp_of(x) == exp_of(bits(EXP_LO)),
{
    reveal(exp_of);
    if x.is_nan_spec() {
        reveal(F32::add_spec);
        reveal(F32::mul_spec);
        reveal(F32::mul_add_spec);
        let n = exp_octaves(x);
        assert(n.is_nan_spec());
        let r = exp_reduced(x, n);
        assert(r.is_nan_spec());
        assert(exp_poly(r).is_nan_spec());
    }
}

/// 512 and -512 are past the ends of the exponential.
proof fn lemma_past_the_ends()
    ensures
        ({
            let c = bits(0x4400_0000);
            &&& c.value() == 512real
            &&& bits(EXP_HI).lt_spec(c.add_spec(c))
            &&& F32::zero_spec().sub_spec(c).lt_spec(bits(EXP_LO))
        }),
{
    vstd::arithmetic::power2::lemma2_to64();
    let c = bits(0x4400_0000);
    let m = c.neg_spec();
    lemma_bits(c, 14, 16384);
    lemma_bits(bits(EXP_HI), 17, 131072);
    lemma_bits(bits(EXP_LO), 17, 131072);
    lemma_neg(c);
    lemma_zero();
    lemma_add(F32::zero_spec(), m);
    lemma_within(F32::zero_spec().sub_spec(c), -512real, m, m);
    lemma_order(bits(EXP_LO), F32::zero_spec().sub_spec(c));
    lemma_add(c, c);
    lemma_close(c.add_spec(c), 1024real, 1024real);
    lemma_order(c.add_spec(c), bits(EXP_HI));
}

/// The logistic function and the hyperbolic tangent of what is not a number are not numbers, and those of
/// an infinity are those of 512 with its sign, which is zero for the logistic function of the one below.
pub proof fn law_activations_beyond_the_numbers(x: F32)
    ensures
        x.is_nan_spec() ==> sigmoid_of(x).is_nan_spec() && tanh_of(x).is_nan_spec(),
        x.is_inf_spec() && x.is_neg_spec() ==> sigmoid_of(x).value() == 0real && tanh_of(x) == tanh_of(
            bits(0x4400_0000).neg_spec(),
        ),
        x.is_inf_spec() && !x.is_neg_spec() ==> sigmoid_of(x) == sigmoid_of(bits(0x4400_0000)) && tanh_of(x)
            == tanh_of(bits(0x4400_0000)),
        bits(0x4400_0000).value() == 512real,
{
    if x.is_nan_spec() {
        lemma_activations_of_no_number(x);
    } else if x.is_inf_spec() {
        lemma_activations_of_infinities(x);
    }
    lemma_past_the_ends();
}

proof fn lemma_activations_of_no_number(x: F32)
    requires
        x.is_nan_spec(),
    ensures
        sigmoid_of(x).is_nan_spec(),
        tanh_of(x).is_nan_spec(),
{
    reveal(sigmoid_of);
    reveal(tanh_of);
    let size = x.abs_spec();
    let (n, d) = (F32::zero_spec().sub_spec(x), size.add_spec(size));
    lemma_neg(x);
    law_no_number_comes_of_none(x.neg_spec(), F32::zero_spec(), x);
    law_no_number_comes_of_none(size, size, x);
    law_exponentials_are_cut_off(n);
    law_exponentials_are_cut_off(d);
    let (one, two) = (bits(ONE), bits(TWO));
    law_no_number_comes_of_none(exp_of(n), one, x);
    law_no_number_comes_of_none(one.add_spec(exp_of(n)), one, x);
    law_no_number_comes_of_none(exp_of(d), one, x);
    let e = exp_of(d).add_spec(one);
    law_no_number_comes_of_none(e, two, x);
    law_no_number_comes_of_none(two.div_spec(e), one, x);
}

proof fn lemma_activations_of_infinities(x: F32)
    requires
        x.is_inf_spec(),
    ensures
        x.is_neg_spec() ==> sigmoid_of(x).value() == 0real && tanh_of(x) == tanh_of(
            bits(0x4400_0000).neg_spec(),
        ),
        !x.is_neg_spec() ==> sigmoid_of(x) == sigmoid_of(bits(0x4400_0000)) && tanh_of(x) == tanh_of(
            bits(0x4400_0000),
        ),
{
    reveal(sigmoid_of);
    reveal(tanh_of);
    lemma_past_the_ends();
    lemma_zero();
    let (zero, c) = (F32::zero_spec(), bits(0x4400_0000));
    let m = c.neg_spec();
    let size = x.abs_spec();
    let (n, d) = (zero.sub_spec(x), size.add_spec(size));
    assert(!x.is_neg_spec() ==> n.lt_spec(bits(EXP_LO))) by {
        law_sums_with_an_infinity(x.neg_spec(), zero);
    }
    assert(bits(EXP_HI).lt_spec(d)) by {
        law_sums_with_an_infinity(size, size);
    }
    law_exponentials_are_cut_off(n);
    law_exponentials_are_cut_off(d);
    law_exponentials_are_cut_off(zero.sub_spec(c));
    law_exponentials_are_cut_off(c.add_spec(c));
    assert(c.abs_spec() == c && m.abs_spec() == c);
}

} // verus!
