//! The network is causal: the first frames of its outputs depend on the first frames of its
//! inputs alone.
//!
//! Two signals of different lengths are compared throughout, so that cutting a signal short is
//! one of the changes that earlier frames do not see.
use vstd::arithmetic::div_mod::*;
use vstd::arithmetic::mul::*;
use vstd::prelude::*;

use crate::bank::{bank_gru_of, gl_fits, gl_of, BankView};
use crate::decoders::{
    df_dec_of, df_dec_sized, erb_dec_of, erb_dec_sized, erb_start_of, skipped_of, widened_of,
};
use crate::dsp::{
    erb_feat_of, erb_inv_of, erb_rows, erb_state_after, expanded_bands, expanded_rows, filtered,
    lemma_erb_inv_len, level, magnitude, spec_feat_of, unit_im_rows, unit_re_rows,
    unit_state_after, Complex, DspView,
};
use crate::encoder::{
    c0_of, c1_of, e0_of, e1_of, e2_of, e3_of, emb_of, encode_of, encoder_sized, joined_of,
    EncOutView,
};
use crate::float::F32;
use crate::hush::{encoded, enhanced_of, limited_of, merged_of, model_sized, HushView};
use crate::layers::{
    added, block_of, channels_at, channels_first_of, frames_first_of, frames_of, gl_width,
    lemma_channels_first_len, lemma_frames_first_len, mixed_of, plane_rows, planes_of,
};
use crate::nn::{
    causal_taps, conv1x3_of, conv1x3_planes, conv1x3_row, conv1x3_rows, conv3x3_causal_of,
    conv3x3_planes, conv3x3_row, conv3x3_rows, convtranspose_dw_of, dw_conv13_of, dw_planes,
    dw_rows, gemm_of, gemm_rows, grouped_linear_of, groups_fit, gru_of, gru_state, gru_states,
    law_convtranspose_doubles_frequency, lemma_conv1x3_len, lemma_conv1x3_row_len,
    lemma_conv3x3_len, lemma_conv3x3_row_len, lemma_dw_len, lemma_even_groups_fit, lemma_group,
    lemma_grouped_linear_len, lemma_pointwise_len, lemma_pointwise_plane_len, linear_groups,
    linear_rows, pointwise_of, pointwise_plane, pointwise_planes, relu_seq, strided, tap,
    transposed_planes, transposed_rows,
};
use crate::simd::{sigmoid_seq, tanh_seq};
use crate::rows::{
    lemma_place, lemma_row_fits, lemma_row_of_rows, lemma_rows_eq, lemma_rows_len,
    lemma_rows_prefix, row_of, rows,
};

verus! {

/// Two maps `(C, T, F)` and `(C, U, F)` with the same first `n` frames.
pub open spec fn maps_agree(
    x: Seq<F32>,
    t: int,
    y: Seq<F32>,
    u: int,
    c: int,
    f: int,
    n: int,
) -> bool {
    &&& 0 <= n <= t
    &&& n <= u
    &&& 0 <= c
    &&& 0 <= f
    &&& c * t * f <= x.len()
    &&& c * u * f <= y.len()
    &&& forall|ch: int, ti: int|
        #![trigger row_of(x, ch * t + ti, f)]
        0 <= ch < c && 0 <= ti < n ==> row_of(x, ch * t + ti, f) == row_of(y, ch * u + ti, f)
}

/// Two sequences with the same first `k` places.
pub open spec fn starts_agree<A>(x: Seq<A>, y: Seq<A>, k: int) -> bool {
    0 <= k <= x.len() && k <= y.len() && x.take(k) == y.take(k)
}

proof fn lemma_same_row(x: Seq<F32>, t: int, y: Seq<F32>, u: int, c: int, f: int, n: int, ch: int, ti: int)
    requires
        maps_agree(x, t, y, u, c, f, n),
        0 <= ch < c,
        0 <= ti < n,
    ensures
        row_of(x, ch * t + ti, f) == row_of(y, ch * u + ti, f),
{
    let _ = row_of(x, ch * t + ti, f);
}

/// Row `b` of plane `a` of an array of planes.
pub proof fn lemma_nested_row<A>(
    n: nat,
    m: int,
    f: int,
    planes: spec_fn(int) -> Seq<A>,
    a: int,
    b: int,
)
    requires
        0 <= a < n,
        0 <= b < m,
        0 <= f,
        forall|i: int| 0 <= i < n ==> (#[trigger] planes(i)).len() == m * f,
    ensures
        row_of(rows(n, planes), a * m + b, f) == row_of(planes(a), b, f),
        rows(n, planes).len() == n * (m * f),
{
    lemma_mul_nonnegative(m, f);
    lemma_row_of_rows(n, m * f, planes, a);
    let x = rows(n, planes);
    lemma_row_fits(b, m, f);
    lemma_row_fits(a, n as int, m * f);
    assert(a * (m * f) + b * f == (a * m + b) * f) by {
        lemma_mul_is_associative(a, m, f);
        lemma_mul_is_distributive_add_other_way(f, a * m, b);
    }
    assert(a * (m * f) + (b + 1) * f == (a * m + b + 1) * f) by {
        lemma_mul_is_associative(a, m, f);
        lemma_mul_is_distributive_add_other_way(f, a * m, b + 1);
    }
    assert(row_of(x, a * m + b, f) =~= row_of(row_of(x, a, m * f), b, f));
}

/// The rectifier works row by row.
proof fn lemma_relu_row(x: Seq<F32>, r: int, f: int)
    requires
        0 <= r * f <= (r + 1) * f <= x.len(),
    ensures
        row_of(relu_seq(x), r, f) == relu_seq(row_of(x, r, f)),
{
    assert(row_of(relu_seq(x), r, f) =~= relu_seq(row_of(x, r, f)));
}

/// The rectifier keeps maps alike.
pub proof fn lemma_relu_agrees(x: Seq<F32>, t: int, y: Seq<F32>, u: int, c: int, f: int, n: int)
    requires
        maps_agree(x, t, y, u, c, f, n),
    ensures
        maps_agree(relu_seq(x), t, relu_seq(y), u, c, f, n),
{
    assert forall|ch: int, ti: int|
        #![trigger row_of(relu_seq(x), ch * t + ti, f)]
        0 <= ch < c && 0 <= ti < n implies row_of(relu_seq(x), ch * t + ti, f) == row_of(
        relu_seq(y),
        ch * u + ti,
        f,
    ) by {
        lemma_same_row(x, t, y, u, c, f, n, ch, ti);
        lemma_place(ch, ti, c, t);
        lemma_place(ch, ti, c, u);
        lemma_row_fits(ch * t + ti, c * t, f);
        lemma_row_fits(ch * u + ti, c * u, f);
        lemma_relu_row(x, ch * t + ti, f);
        lemma_relu_row(y, ch * u + ti, f);
    }
}

// ------------------------------------------------------------------ the causal convolution

proof fn lemma_causal_taps_agree(
    acc: Seq<F32>,
    x: Seq<F32>,
    t: int,
    y: Seq<F32>,
    u: int,
    f: int,
    c: int,
    ti: int,
    w: Seq<F32>,
    k: nat,
    cin: int,
    n: int,
)
    requires
        maps_agree(x, t, y, u, cin, f, n),
        0 <= c < cin,
        0 <= ti < n,
        k <= 3,
    ensures
        causal_taps(acc, x, t, f, c, ti, w, k) == causal_taps(acc, y, u, f, c, ti, w, k),
    decreases k,
{
    if k > 0 {
        lemma_causal_taps_agree(acc, x, t, y, u, f, c, ti, w, (k - 1) as nat, cin, n);
        let tt = ti + (k - 1) - 2;
        if tt >= 0 {
            lemma_same_row(x, t, y, u, cin, f, n, c, tt);
        }
    }
}

proof fn lemma_conv3x3_row_agrees(
    x: Seq<F32>,
    t: int,
    y: Seq<F32>,
    u: int,
    f: nat,
    w: Seq<F32>,
    b: Option<Seq<F32>>,
    cg: int,
    c0: int,
    o: int,
    ti: int,
    k: nat,
    cin: int,
    n: int,
)
    requires
        maps_agree(x, t, y, u, cin, f as int, n),
        0 <= c0,
        c0 + k <= cin,
        0 <= ti < n,
    ensures
        conv3x3_row(x, t, f, w, b, cg, c0, o, ti, k) == conv3x3_row(
            y,
            u,
            f,
            w,
            b,
            cg,
            c0,
            o,
            ti,
            k,
        ),
    decreases k,
{
    if k > 0 {
        lemma_conv3x3_row_agrees(x, t, y, u, f, w, b, cg, c0, o, ti, (k - 1) as nat, cin, n);
        lemma_causal_taps_agree(
            conv3x3_row(x, t, f, w, b, cg, c0, o, ti, (k - 1) as nat),
            x,
            t,
            y,
            u,
            f as int,
            c0 + (k - 1),
            ti,
            row_of(w, o * cg + (k - 1), 9),
            3,
            cin,
            n,
        );
    }
}

proof fn lemma_conv3x3_planes_len(
    x: Seq<F32>,
    t: nat,
    f: nat,
    w: Seq<F32>,
    b: Option<Seq<F32>>,
    cg: nat,
    og: int,
)
    ensures
        forall|o: int|
            #![trigger conv3x3_planes(x, t, f, w, b, cg, og)(o)]
            conv3x3_planes(x, t, f, w, b, cg, og)(o).len() == t * f,
        forall|c0: int, o: int, ti: int|
            #![trigger conv3x3_rows(x, t as int, f, w, b, cg, c0, o)(ti)]
            conv3x3_rows(x, t as int, f, w, b, cg, c0, o)(ti).len() == f,
{
    assert forall|c0: int, o: int, ti: int|
        #![trigger conv3x3_rows(x, t as int, f, w, b, cg, c0, o)(ti)]
        conv3x3_rows(x, t as int, f, w, b, cg, c0, o)(ti).len() == f by {
        lemma_conv3x3_row_len(x, t as int, f, w, b, cg as int, c0, o, ti, cg);
    }
    assert forall|o: int|
        #![trigger conv3x3_planes(x, t, f, w, b, cg, og)(o)]
        conv3x3_planes(x, t, f, w, b, cg, og)(o).len() == t * f by {
        lemma_rows_len(t, f as int, conv3x3_rows(x, t as int, f, w, b, cg, o / og * cg, o));
    }
}

proof fn lemma_conv3x3_row_is(
    x: Seq<F32>,
    cin: nat,
    t: nat,
    f: nat,
    w: Seq<F32>,
    b: Option<Seq<F32>>,
    cout: nat,
    groups: nat,
    o: int,
    ti: int,
)
    requires
        0 <= o < cout,
        0 <= ti < t,
    ensures
        row_of(conv3x3_causal_of(x, cin, t, f, w, b, cout, groups), o * t + ti, f as int)
            == conv3x3_row(
            x,
            t as int,
            f,
            w,
            b,
            (cin / groups) as int,
            o / ((cout / groups) as int) * (cin / groups),
            o,
            ti,
            cin / groups,
        ),
{
    let cg = cin / groups;
    let og = (cout / groups) as int;
    let planes = conv3x3_planes(x, t, f, w, b, cg, og);
    lemma_conv3x3_planes_len(x, t, f, w, b, cg, og);
    assert(t as int * f as int == t * f);
    lemma_nested_row(cout, t as int, f as int, planes, o, ti);
    lemma_row_of_rows(
        t,
        f as int,
        conv3x3_rows(x, t as int, f, w, b, cg, o / og * cg, o),
        ti,
    );
}

/// The 3x3 convolution is causal: output frame `ti` depends on the input frames up to `ti` alone.
pub proof fn law_conv3x3_is_causal(
    x: Seq<F32>,
    t: nat,
    y: Seq<F32>,
    u: nat,
    cin: nat,
    f: nat,
    w: Seq<F32>,
    b: Option<Seq<F32>>,
    cout: nat,
    groups: nat,
    n: int,
)
    requires
        maps_agree(x, t as int, y, u as int, cin as int, f as int, n),
        groups_fit(cin as int, cout as int, groups as int),
    ensures
        maps_agree(
            conv3x3_causal_of(x, cin, t, f, w, b, cout, groups),
            t as int,
            conv3x3_causal_of(y, cin, u, f, w, b, cout, groups),
            u as int,
            cout as int,
            f as int,
            n,
        ),
{
    let p = conv3x3_causal_of(x, cin, t, f, w, b, cout, groups);
    let q = conv3x3_causal_of(y, cin, u, f, w, b, cout, groups);
    lemma_conv3x3_len(x, cin, t, f, w, b, cout, groups);
    lemma_conv3x3_len(y, cin, u, f, w, b, cout, groups);
    assert forall|o: int, ti: int|
        #![trigger row_of(p, o * t as int + ti, f as int)]
        0 <= o < cout && 0 <= ti < n implies row_of(p, o * t as int + ti, f as int) == row_of(
        q,
        o * u as int + ti,
        f as int,
    ) by {
        lemma_group(cin as int, cout as int, groups as int, o);
        lemma_conv3x3_row_is(x, cin, t, f, w, b, cout, groups, o, ti);
        lemma_conv3x3_row_is(y, cin, u, f, w, b, cout, groups, o, ti);
        lemma_conv3x3_row_agrees(
            x,
            t as int,
            y,
            u as int,
            f,
            w,
            b,
            (cin / groups) as int,
            o / ((cout / groups) as int) * (cin / groups),
            o,
            ti,
            cin / groups,
            cin as int,
            n,
        );
    }
}

// ------------------------------------------------------------------ frame by frame

/// Frame `ti` of plane `c` of a map, seen as a row of plane `c`.
proof fn lemma_row_in_plane(x: Seq<F32>, c: int, t: int, f: int, ti: int, cin: int)
    requires
        0 <= c < cin,
        0 <= ti < t,
        0 <= f,
        cin * t * f <= x.len(),
    ensures
        row_of(row_of(x, c, t * f), ti, f) == row_of(x, c * t + ti, f),
        row_of(x, c, t * f).len() == t * f,
        0 <= ti * f <= (ti + 1) * f <= t * f,
{
    lemma_mul_is_associative(cin, t, f);
    lemma_mul_nonnegative(t, f);
    lemma_row_fits(c, cin, t * f);
    lemma_row_fits(ti, t, f);
    assert(c * (t * f) + ti * f == (c * t + ti) * f) by {
        lemma_mul_is_associative(c, t, f);
        lemma_mul_is_distributive_add_other_way(f, c * t, ti);
    }
    assert(c * (t * f) + (ti + 1) * f == (c * t + ti + 1) * f) by {
        lemma_mul_is_associative(c, t, f);
        lemma_mul_is_distributive_add_other_way(f, c * t, ti + 1);
    }
    assert(row_of(row_of(x, c, t * f), ti, f) =~= row_of(x, c * t + ti, f));
}

proof fn lemma_pointwise_row_agrees(
    x: Seq<F32>,
    t: nat,
    y: Seq<F32>,
    u: nat,
    cin: int,
    f: nat,
    w: Seq<F32>,
    b: Option<Seq<F32>>,
    o: int,
    k: nat,
    ti: int,
    n: int,
)
    requires
        maps_agree(x, t as int, y, u as int, cin, f as int, n),
        k <= cin,
        0 <= ti < n,
    ensures
        row_of(pointwise_plane(x, cin, t * f, w, b, o, k), ti, f as int) == row_of(
            pointwise_plane(y, cin, u * f, w, b, o, k),
            ti,
            f as int,
        ),
    decreases k,
{
    let a = pointwise_plane(x, cin, t * f, w, b, o, k);
    let d = pointwise_plane(y, cin, u * f, w, b, o, k);
    lemma_pointwise_plane_len(x, cin, t * f, w, b, o, k);
    lemma_pointwise_plane_len(y, cin, u * f, w, b, o, k);
    lemma_row_fits(ti, t as int, f as int);
    lemma_row_fits(ti, u as int, f as int);
    if k == 0 {
        assert(row_of(a, ti, f as int) =~= row_of(d, ti, f as int));
    } else {
        let a1 = pointwise_plane(x, cin, t * f, w, b, o, (k - 1) as nat);
        let d1 = pointwise_plane(y, cin, u * f, w, b, o, (k - 1) as nat);
        lemma_pointwise_plane_len(x, cin, t * f, w, b, o, (k - 1) as nat);
        lemma_pointwise_plane_len(y, cin, u * f, w, b, o, (k - 1) as nat);
        lemma_pointwise_row_agrees(x, t, y, u, cin, f, w, b, o, (k - 1) as nat, ti, n);
        lemma_row_in_plane(x, k - 1, t as int, f as int, ti, cin);
        lemma_row_in_plane(y, k - 1, u as int, f as int, ti, cin);
        lemma_same_row(x, t as int, y, u as int, cin, f as int, n, k - 1, ti);
        let s = w[o * cin + (k - 1)];
        let xr = row_of(x, k - 1, (t * f) as int);
        let yr = row_of(y, k - 1, (u * f) as int);
        assert(row_of(a, ti, f as int) =~= tap(row_of(a1, ti, f as int), s, row_of(xr, ti, f as int)));
        assert(row_of(d, ti, f as int) =~= tap(row_of(d1, ti, f as int), s, row_of(yr, ti, f as int)));
    }
}

/// A 1x1 convolution works frame by frame.
pub proof fn law_pointwise_is_frame_local(
    x: Seq<F32>,
    t: nat,
    y: Seq<F32>,
    u: nat,
    cin: nat,
    f: nat,
    w: Seq<F32>,
    b: Option<Seq<F32>>,
    cout: nat,
    n: int,
)
    requires
        maps_agree(x, t as int, y, u as int, cin as int, f as int, n),
    ensures
        maps_agree(
            pointwise_of(x, cin, t * f, w, b, cout),
            t as int,
            pointwise_of(y, cin, u * f, w, b, cout),
            u as int,
            cout as int,
            f as int,
            n,
        ),
{
    let p = pointwise_of(x, cin, t * f, w, b, cout);
    let q = pointwise_of(y, cin, u * f, w, b, cout);
    lemma_pointwise_len(x, cin, t * f, w, b, cout);
    lemma_pointwise_len(y, cin, u * f, w, b, cout);
    lemma_mul_is_associative(cout as int, t as int, f as int);
    lemma_mul_is_associative(cout as int, u as int, f as int);
    assert forall|o: int, ti: int|
        #![trigger row_of(p, o * t as int + ti, f as int)]
        0 <= o < cout && 0 <= ti < n implies row_of(p, o * t as int + ti, f as int) == row_of(
        q,
        o * u as int + ti,
        f as int,
    ) by {
        lemma_nested_row(
            cout,
            t as int,
            f as int,
            pointwise_planes(x, cin, t * f, w, b),
            o,
            ti,
        );
        lemma_nested_row(
            cout,
            u as int,
            f as int,
            pointwise_planes(y, cin, u * f, w, b),
            o,
            ti,
        );
        lemma_pointwise_row_agrees(x, t, y, u, cin as int, f, w, b, o, cin, ti, n);
    }
}

proof fn lemma_dw_row_is(
    x: Seq<F32>,
    c: nat,
    t: nat,
    f: int,
    w: Seq<F32>,
    stride: int,
    ch: int,
    ti: int,
)
    requires
        0 <= ch < c,
        0 <= ti < t,
        0 < f,
        0 < stride,
    ensures
        row_of(dw_conv13_of(x, c, t, f, w, stride), ch * t + ti, strided(f, stride)) == dw_rows(
            x,
            t as int,
            f,
            w,
            stride,
            ch,
        )(ti),
{
    lemma_dw_len(x, c, t, f, w, stride);
    let fo = strided(f, stride);
    let planes = dw_planes(x, t, f, w, stride);
    assert forall|i: int| 0 <= i < c implies (#[trigger] planes(i)).len() == t * fo by {
        lemma_rows_len(t, fo, dw_rows(x, t as int, f, w, stride, i));
    }
    lemma_nested_row(c, t as int, fo, planes, ch, ti);
    lemma_row_of_rows(t, fo, dw_rows(x, t as int, f, w, stride, ch), ti);
}

/// A depthwise convolution over frequency works frame by frame.
pub proof fn law_dw_conv13_is_frame_local(
    x: Seq<F32>,
    t: nat,
    y: Seq<F32>,
    u: nat,
    c: nat,
    f: int,
    w: Seq<F32>,
    stride: int,
    n: int,
)
    requires
        maps_agree(x, t as int, y, u as int, c as int, f, n),
        0 < f,
        0 < stride,
    ensures
        maps_agree(
            dw_conv13_of(x, c, t, f, w, stride),
            t as int,
            dw_conv13_of(y, c, u, f, w, stride),
            u as int,
            c as int,
            strided(f, stride),
            n,
        ),
{
    lemma_dw_len(x, c, t, f, w, stride);
    lemma_dw_len(y, c, u, f, w, stride);
    let p = dw_conv13_of(x, c, t, f, w, stride);
    let q = dw_conv13_of(y, c, u, f, w, stride);
    let fo = strided(f, stride);
    assert forall|ch: int, ti: int|
        #![trigger row_of(p, ch * t as int + ti, fo)]
        0 <= ch < c && 0 <= ti < n implies row_of(p, ch * t as int + ti, fo) == row_of(
        q,
        ch * u as int + ti,
        fo,
    ) by {
        lemma_same_row(x, t as int, y, u as int, c as int, f, n, ch, ti);
        lemma_dw_row_is(x, c, t, f, w, stride, ch, ti);
        lemma_dw_row_is(y, c, u, f, w, stride, ch, ti);
        assert(dw_rows(x, t as int, f, w, stride, ch)(ti) =~= dw_rows(
            y,
            u as int,
            f,
            w,
            stride,
            ch,
        )(ti));
    }
}

proof fn lemma_transposed_row_is(
    x: Seq<F32>,
    c: nat,
    t: nat,
    f: int,
    w: Seq<F32>,
    ch: int,
    ti: int,
)
    requires
        0 <= ch < c,
        0 <= ti < t,
        0 <= f,
    ensures
        row_of(convtranspose_dw_of(x, c, t, f, w), ch * t + ti, 2 * f) == transposed_rows(
            x,
            t as int,
            f,
            w,
            ch,
        )(ti),
{
    let planes = transposed_planes(x, t, f, w);
    assert forall|i: int| 0 <= i < c implies (#[trigger] planes(i)).len() == t * (2 * f) by {
        lemma_rows_len(t, 2 * f, transposed_rows(x, t as int, f, w, i));
    }
    lemma_nested_row(c, t as int, 2 * f, planes, ch, ti);
    lemma_row_of_rows(t, 2 * f, transposed_rows(x, t as int, f, w, ch), ti);
}

/// The transposed convolution over frequency works frame by frame.
pub proof fn law_convtranspose_is_frame_local(
    x: Seq<F32>,
    t: nat,
    y: Seq<F32>,
    u: nat,
    c: nat,
    f: int,
    w: Seq<F32>,
    n: int,
)
    requires
        maps_agree(x, t as int, y, u as int, c as int, f, n),
    ensures
        maps_agree(
            convtranspose_dw_of(x, c, t, f, w),
            t as int,
            convtranspose_dw_of(y, c, u, f, w),
            u as int,
            c as int,
            2 * f,
            n,
        ),
{
    law_convtranspose_doubles_frequency(x, c, t, f, w);
    law_convtranspose_doubles_frequency(y, c, u, f, w);
    let p = convtranspose_dw_of(x, c, t, f, w);
    let q = convtranspose_dw_of(y, c, u, f, w);
    assert forall|ch: int, ti: int|
        #![trigger row_of(p, ch * t as int + ti, 2 * f)]
        0 <= ch < c && 0 <= ti < n implies row_of(p, ch * t as int + ti, 2 * f) == row_of(
        q,
        ch * u as int + ti,
        2 * f,
    ) by {
        lemma_same_row(x, t as int, y, u as int, c as int, f, n, ch, ti);
        lemma_transposed_row_is(x, c, t, f, w, ch, ti);
        lemma_transposed_row_is(y, c, u, f, w, ch, ti);
        assert(transposed_rows(x, t as int, f, w, ch)(ti) =~= transposed_rows(
            y,
            u as int,
            f,
            w,
            ch,
        )(ti));
    }
}

proof fn lemma_conv1x3_row_agrees(
    x: Seq<F32>,
    t: int,
    y: Seq<F32>,
    u: int,
    cin: int,
    f: nat,
    w: Seq<F32>,
    b: Seq<F32>,
    o: int,
    ti: int,
    k: nat,
    n: int,
)
    requires
        maps_agree(x, t, y, u, cin, f as int, n),
        k <= cin,
        0 <= ti < n,
    ensures
        conv1x3_row(x, cin, t, f, w, b, o, ti, k) == conv1x3_row(y, cin, u, f, w, b, o, ti, k),
    decreases k,
{
    if k > 0 {
        lemma_conv1x3_row_agrees(x, t, y, u, cin, f, w, b, o, ti, (k - 1) as nat, n);
        lemma_same_row(x, t, y, u, cin, f as int, n, k - 1, ti);
    }
}

proof fn lemma_conv1x3_row_is(
    x: Seq<F32>,
    cin: nat,
    t: nat,
    f: nat,
    w: Seq<F32>,
    b: Seq<F32>,
    cout: nat,
    o: int,
    ti: int,
)
    requires
        0 <= o < cout,
        0 <= ti < t,
    ensures
        row_of(conv1x3_of(x, cin, t, f, w, b, cout), o * t + ti, f as int) == conv1x3_row(
            x,
            cin as int,
            t as int,
            f,
            w,
            b,
            o,
            ti,
            cin,
        ),
{
    let planes = conv1x3_planes(x, cin, t, f, w, b);
    assert forall|i: int| 0 <= i < cout implies (#[trigger] planes(i)).len() == t * f by {
        lemma_conv1x3_rows_len(x, cin, t, f, w, b, i);
        lemma_rows_len(t, f as int, conv1x3_rows(x, cin, t as int, f, w, b, i));
    }
    lemma_conv1x3_rows_len(x, cin, t, f, w, b, o);
    lemma_nested_row(cout, t as int, f as int, planes, o, ti);
    lemma_row_of_rows(t, f as int, conv1x3_rows(x, cin, t as int, f, w, b, o), ti);
}

proof fn lemma_conv1x3_rows_len(
    x: Seq<F32>,
    cin: nat,
    t: nat,
    f: nat,
    w: Seq<F32>,
    b: Seq<F32>,
    o: int,
)
    ensures
        forall|ti: int| (#[trigger] conv1x3_rows(x, cin, t as int, f, w, b, o)(ti)).len() == f,
{
    assert forall|ti: int| (#[trigger] conv1x3_rows(x, cin, t as int, f, w, b, o)(ti)).len()
        == f by {
        lemma_conv1x3_row_len(x, cin as int, t as int, f, w, b, o, ti, cin);
    }
}

/// The flat convolution works frame by frame.
pub proof fn law_conv1x3_is_frame_local(
    x: Seq<F32>,
    t: nat,
    y: Seq<F32>,
    u: nat,
    cin: nat,
    f: nat,
    w: Seq<F32>,
    b: Seq<F32>,
    cout: nat,
    n: int,
)
    requires
        maps_agree(x, t as int, y, u as int, cin as int, f as int, n),
    ensures
        maps_agree(
            conv1x3_of(x, cin, t, f, w, b, cout),
            t as int,
            conv1x3_of(y, cin, u, f, w, b, cout),
            u as int,
            cout as int,
            f as int,
            n,
        ),
{
    lemma_conv1x3_len(x, cin, t, f, w, b, cout);
    lemma_conv1x3_len(y, cin, u, f, w, b, cout);
    let p = conv1x3_of(x, cin, t, f, w, b, cout);
    let q = conv1x3_of(y, cin, u, f, w, b, cout);
    assert forall|o: int, ti: int|
        #![trigger row_of(p, o * t as int + ti, f as int)]
        0 <= o < cout && 0 <= ti < n implies row_of(p, o * t as int + ti, f as int) == row_of(
        q,
        o * u as int + ti,
        f as int,
    ) by {
        lemma_conv1x3_row_is(x, cin, t, f, w, b, cout, o, ti);
        lemma_conv1x3_row_is(y, cin, u, f, w, b, cout, o, ti);
        lemma_conv1x3_row_agrees(
            x,
            t as int,
            y,
            u as int,
            cin as int,
            f,
            w,
            b,
            o,
            ti,
            cin,
            n,
        );
    }
}

// ------------------------------------------------------------------ linear layers and memory

proof fn lemma_starts_row<A>(x: Seq<A>, y: Seq<A>, k: int, r: int, f: int)
    requires
        starts_agree(x, y, k),
        0 <= r * f <= (r + 1) * f <= k,
    ensures
        row_of(x, r, f) == row_of(y, r, f),
{
    assert(row_of(x, r, f) =~= row_of(x.take(k), r, f));
    assert(row_of(y, r, f) =~= row_of(y.take(k), r, f));
}

/// Equal first rows make equal starts.
pub proof fn lemma_rows_start<A>(
    t: nat,
    u: nat,
    f: int,
    a: spec_fn(int) -> Seq<A>,
    b: spec_fn(int) -> Seq<A>,
    n: nat,
)
    requires
        n <= t,
        n <= u,
        0 <= f,
        forall|i: int| 0 <= i < t ==> (#[trigger] a(i)).len() == f,
        forall|i: int| 0 <= i < u ==> (#[trigger] b(i)).len() == f,
        forall|i: int| 0 <= i < n ==> #[trigger] a(i) == b(i),
    ensures
        starts_agree(rows(t, a), rows(u, b), n * f),
{
    lemma_rows_prefix(n, t, f, a);
    lemma_rows_prefix(n, u, f, b);
    lemma_rows_eq(n, a, b);
}

/// A grouped linear layer works frame by frame.
pub proof fn law_grouped_linear_is_frame_local(
    x: Seq<F32>,
    t: nat,
    y: Seq<F32>,
    u: nat,
    g: nat,
    i: nat,
    h: nat,
    w: Seq<F32>,
    n: nat,
)
    requires
        n <= t,
        n <= u,
        starts_agree(x, y, n * g * i as int),
    ensures
        starts_agree(
            grouped_linear_of(x, t, g, i, h, w),
            grouped_linear_of(y, u, g, i, h, w),
            n * (g * h) as int,
        ),
{
    lemma_grouped_linear_len(x, t, g, i, h, w);
    lemma_grouped_linear_len(y, u, g, i, h, w);
    let a = linear_rows(x, g, i, h, w);
    let b = linear_rows(y, g, i, h, w);
    assert forall|ti: int| 0 <= ti < n implies #[trigger] a(ti) == b(ti) by {
        let p = linear_groups(x, g as int, i, h, w, ti);
        let q = linear_groups(y, g as int, i, h, w, ti);
        assert forall|gi: int| 0 <= gi < g implies #[trigger] p(gi) == q(gi) by {
            lemma_place(ti, gi, n as int, g as int);
            lemma_row_fits(ti * g + gi, (n * g) as int, i as int);
            lemma_starts_row(x, y, (n * g * i) as int, ti * g + gi, i as int);
        }
        lemma_rows_eq(g, p, q);
    }
    lemma_rows_start(t, u, (g * h) as int, a, b, n);
}

proof fn lemma_gru_state_agrees(
    xw: Seq<F32>,
    yw: Seq<F32>,
    r: Seq<F32>,
    rb: Seq<F32>,
    hs: nat,
    k: nat,
    n: nat,
)
    requires
        starts_agree(xw, yw, n * (3 * hs) as int),
        k <= n,
    ensures
        gru_state(xw, r, rb, hs, k) == gru_state(yw, r, rb, hs, k),
    decreases k,
{
    if k > 0 {
        lemma_gru_state_agrees(xw, yw, r, rb, hs, (k - 1) as nat, n);
        lemma_row_fits(k - 1, n as int, 3 * hs as int);
        lemma_starts_row(xw, yw, (n * (3 * hs)) as int, k - 1, 3 * hs as int);
    }
}

/// The recurrent unit is causal: its first outputs depend on its first inputs alone.
pub proof fn law_gru_is_causal(
    x: Seq<F32>,
    t: nat,
    y: Seq<F32>,
    u: nat,
    i: nat,
    w: Seq<F32>,
    r: Seq<F32>,
    b: Seq<F32>,
    hs: nat,
    n: nat,
)
    requires
        n <= t,
        n <= u,
        starts_agree(x, y, n * i as int),
    ensures
        starts_agree(
            gru_of(x, t, i as int, w, r, b, hs),
            gru_of(y, u, i as int, w, r, b, hs),
            n * hs as int,
        ),
{
    let bw = b.take(3 * hs as int);
    let rb = b.skip(3 * hs as int);
    let xw = gemm_of(x, t, i as int, w, 3 * hs, bw);
    let yw = gemm_of(y, u, i as int, w, 3 * hs, bw);
    let a = gemm_rows(x, i as int, w, 3 * hs, bw);
    let c = gemm_rows(y, i as int, w, 3 * hs, bw);
    assert forall|ti: int| 0 <= ti < n implies #[trigger] a(ti) == c(ti) by {
        lemma_row_fits(ti, n as int, i as int);
        lemma_starts_row(x, y, (n * i) as int, ti, i as int);
    }
    lemma_rows_start(t, u, 3 * hs as int, a, c, n);
    let p = gru_states(xw, r, rb, hs);
    let q = gru_states(yw, r, rb, hs);
    assert forall|ti: int| 0 <= ti < n implies #[trigger] p(ti) == q(ti) by {
        lemma_gru_state_agrees(xw, yw, r, rb, hs, (ti + 1) as nat, n);
    }
    lemma_rows_start(t, u, hs as int, p, q, n);
}

// ------------------------------------------------------------------ starts and maps

/// A shorter start.
pub proof fn lemma_shorter_start<A>(x: Seq<A>, y: Seq<A>, k: int, j: int)
    requires
        starts_agree(x, y, k),
        0 <= j <= k,
    ensures
        starts_agree(x, y, j),
{
    assert(x.take(j) =~= x.take(k).take(j));
    assert(y.take(j) =~= y.take(k).take(j));
}

proof fn lemma_start_at<A>(x: Seq<A>, y: Seq<A>, k: int, i: int)
    requires
        starts_agree(x, y, k),
        0 <= i < k,
    ensures
        x[i] == y[i],
{
    assert(x.take(k)[i] == y.take(k)[i]);
}

/// One channel's map as a start.
pub proof fn lemma_map_start(x: Seq<F32>, t: int, y: Seq<F32>, u: int, f: int, n: int)
    requires
        maps_agree(x, t, y, u, 1, f, n),
    ensures
        starts_agree(x, y, n * f),
{
    lemma_mul_inequality(n, t, f);
    lemma_mul_inequality(n, u, f);
    lemma_mul_nonnegative(n, f);
    assert forall|i: int| 0 <= i < n * f implies #[trigger] x.take(n * f)[i] == y.take(n * f)[i] by {
        let ti = i / f;
        if f == 0 {
            lemma_mul_basics(n);
        }
        lemma_fundamental_div_mod(i, f);
        lemma_mod_bound(i, f);
        lemma_div_pos_is_pos(i, f);
        lemma_mul_is_commutative(f, ti);
        assert(ti < n) by {
            lemma_row_number(i, n, f);
        }
        lemma_same_row(x, t, y, u, 1, f, n, 0, ti);
        lemma_row_fits(ti, n, f);
        assert(row_of(x, 0 * t + ti, f)[i % f] == x[i]);
        assert(row_of(y, 0 * u + ti, f)[i % f] == y[i]);
    }
    assert(x.take(n * f) =~= y.take(n * f));
}

proof fn lemma_row_number(i: int, n: int, f: int)
    requires
        0 < f,
        0 <= i < n * f,
    ensures
        i / f < n,
{
    lemma_fundamental_div_mod(i, f);
    lemma_mod_bound(i, f);
    let q = i / f;
    assert(q < n) by (nonlinear_arith)
        requires
            f > 0,
            f * q <= i,
            i < n * f,
    ;
}

/// A start as one channel's map.
pub proof fn lemma_start_map(x: Seq<F32>, t: int, y: Seq<F32>, u: int, f: int, n: int)
    requires
        starts_agree(x, y, n * f),
        0 <= n <= t,
        n <= u,
        0 <= f,
        t * f <= x.len(),
        u * f <= y.len(),
    ensures
        maps_agree(x, t, y, u, 1, f, n),
{
    assert forall|ch: int, ti: int|
        #![trigger row_of(x, ch * t + ti, f)]
        0 <= ch < 1 && 0 <= ti < n implies row_of(x, ch * t + ti, f) == row_of(
        y,
        ch * u + ti,
        f,
    ) by {
        assert(ch == 0);
        assert(0 * t == 0 && 0 * u == 0);
        lemma_row_fits(ti, n, f);
        lemma_starts_row(x, y, n * f, ti, f);
    }
}

/// The rectifier keeps starts alike.
pub proof fn lemma_relu_start(x: Seq<F32>, y: Seq<F32>, k: int)
    requires
        starts_agree(x, y, k),
    ensures
        starts_agree(relu_seq(x), relu_seq(y), k),
{
    assert(relu_seq(x).take(k) =~= relu_seq(x.take(k)));
    assert(relu_seq(y).take(k) =~= relu_seq(y.take(k)));
}

/// Sums keep starts alike.
pub proof fn lemma_added_start(a: Seq<F32>, c: Seq<F32>, b: Seq<F32>, d: Seq<F32>, k: int)
    requires
        starts_agree(a, b, k),
        starts_agree(c, d, k),
    ensures
        starts_agree(added(a, c), added(b, d), k),
{
    assert forall|i: int| 0 <= i < k implies #[trigger] added(a, c).take(k)[i] == added(b, d).take(
        k,
    )[i] by {
        lemma_start_at(a, b, k, i);
        lemma_start_at(c, d, k, i);
    }
    assert(added(a, c).take(k) =~= added(b, d).take(k));
}

/// Sums keep maps alike.
pub proof fn lemma_added_agrees(
    a: Seq<F32>,
    b: Seq<F32>,
    t: int,
    p: Seq<F32>,
    q: Seq<F32>,
    u: int,
    c: int,
    f: int,
    n: int,
)
    requires
        maps_agree(a, t, p, u, c, f, n),
        maps_agree(b, t, q, u, c, f, n),
    ensures
        maps_agree(added(a, b), t, added(p, q), u, c, f, n),
{
    assert forall|ch: int, ti: int|
        #![trigger row_of(added(a, b), ch * t + ti, f)]
        0 <= ch < c && 0 <= ti < n implies row_of(added(a, b), ch * t + ti, f) == row_of(
        added(p, q),
        ch * u + ti,
        f,
    ) by {
        lemma_same_row(a, t, p, u, c, f, n, ch, ti);
        lemma_same_row(b, t, q, u, c, f, n, ch, ti);
        lemma_place(ch, ti, c, t);
        lemma_place(ch, ti, c, u);
        lemma_row_fits(ch * t + ti, c * t, f);
        lemma_row_fits(ch * u + ti, c * u, f);
        let r = ch * t + ti;
        let s = ch * u + ti;
        assert(row_of(added(a, b), r, f) =~= added(row_of(a, r, f), row_of(b, r, f)));
        assert(row_of(added(p, q), s, f) =~= added(row_of(p, s, f), row_of(q, s, f)));
    }
}

/// Maps that agree give arrays that start alike, frame by frame.
pub proof fn lemma_frames_first_agrees(
    x: Seq<F32>,
    t: nat,
    y: Seq<F32>,
    u: nat,
    c: nat,
    f: nat,
    n: nat,
)
    requires
        maps_agree(x, t as int, y, u as int, c as int, f as int, n as int),
    ensures
        starts_agree(
            frames_first_of(x, c, t, f),
            frames_first_of(y, c, u, f),
            n * (f * c) as int,
        ),
{
    let a = frames_of(x, c, t as int, f);
    let b = frames_of(y, c, u as int, f);
    lemma_frames_first_len(x, c, t, f);
    lemma_frames_first_len(y, c, u, f);
    assert forall|ti: int| 0 <= ti < n implies #[trigger] a(ti) == b(ti) by {
        let p = channels_at(x, c, t as int, f as int, ti);
        let q = channels_at(y, c, u as int, f as int, ti);
        assert forall|fi: int| 0 <= fi < f implies #[trigger] p(fi) == q(fi) by {
            assert forall|ch: int| 0 <= ch < c implies #[trigger] p(fi)[ch] == q(fi)[ch] by {
                lemma_same_row(x, t as int, y, u as int, c as int, f as int, n as int, ch, ti);
                lemma_place(ch, ti, c as int, t as int);
                lemma_place(ch, ti, c as int, u as int);
                lemma_row_fits(ch * t + ti, (c * t) as int, f as int);
                lemma_row_fits(ch * u + ti, (c * u) as int, f as int);
                assert(row_of(x, ch * t + ti, f as int)[fi] == x[(ch * t + ti) * f + fi]);
                assert(row_of(y, ch * u + ti, f as int)[fi] == y[(ch * u + ti) * f + fi]);
            }
            assert(p(fi) =~= q(fi));
        }
        lemma_rows_eq(f, p, q);
    }
    lemma_rows_start(t, u, (f * c) as int, a, b, n);
}

proof fn lemma_plane_row_is(x: Seq<F32>, c: nat, t: nat, f: nat, ch: int, ti: int)
    requires
        0 <= ch < c,
        0 <= ti < t,
    ensures
        row_of(channels_first_of(x, c, t, f), ch * t + ti, f as int) == plane_rows(
            x,
            c as int,
            f,
            ch,
        )(ti),
{
    lemma_channels_first_len(x, c, t, f);
    lemma_nested_row(c, t as int, f as int, planes_of(x, c as int, t, f), ch, ti);
    lemma_row_of_rows(t, f as int, plane_rows(x, c as int, f, ch), ti);
}

/// Arrays that start alike, frame by frame, give maps that agree.
pub proof fn lemma_channels_first_agrees(
    x: Seq<F32>,
    t: nat,
    y: Seq<F32>,
    u: nat,
    c: nat,
    f: nat,
    n: nat,
)
    requires
        n <= t,
        n <= u,
        starts_agree(x, y, n * (f * c) as int),
    ensures
        maps_agree(
            channels_first_of(x, c, t, f),
            t as int,
            channels_first_of(y, c, u, f),
            u as int,
            c as int,
            f as int,
            n as int,
        ),
{
    lemma_channels_first_len(x, c, t, f);
    lemma_channels_first_len(y, c, u, f);
    let p = channels_first_of(x, c, t, f);
    let q = channels_first_of(y, c, u, f);
    assert forall|ch: int, ti: int|
        #![trigger row_of(p, ch * t as int + ti, f as int)]
        0 <= ch < c && 0 <= ti < n implies row_of(p, ch * t as int + ti, f as int) == row_of(
        q,
        ch * u as int + ti,
        f as int,
    ) by {
        lemma_plane_row_is(x, c, t, f, ch, ti);
        lemma_plane_row_is(y, c, u, f, ch, ti);
        let a = plane_rows(x, c as int, f, ch)(ti);
        let b = plane_rows(y, c as int, f, ch)(ti);
        assert forall|fi: int| 0 <= fi < f implies #[trigger] a[fi] == b[fi] by {
            lemma_place(fi, ch, f as int, c as int);
            lemma_place(ti, fi * c + ch, n as int, (f * c) as int);
            lemma_start_at(
                x,
                y,
                (n * (f * c)) as int,
                ti * (f * c) + (fi * c + ch),
            );
        }
        assert(a =~= b);
    }
}

// ------------------------------------------------------------------ layers

/// A 1x1 layer works frame by frame.
pub proof fn lemma_mixed_agrees(
    b: BankView,
    x: Seq<F32>,
    t: nat,
    y: Seq<F32>,
    u: nat,
    f: nat,
    pw: Seq<char>,
    pb: Seq<char>,
    cout: nat,
    n: int,
)
    requires
        maps_agree(x, t as int, y, u as int, 16, f as int, n),
    ensures
        maps_agree(
            mixed_of(b, x, t * f, pw, pb, cout),
            t as int,
            mixed_of(b, y, u * f, pw, pb, cout),
            u as int,
            cout as int,
            f as int,
            n,
        ),
{
    let w = b.w.tensor(pw);
    let bias = Some(b.w.tensor(pb));
    law_pointwise_is_frame_local(x, t, y, u, 16, f, w, bias, cout, n);
    lemma_relu_agrees(
        pointwise_of(x, 16, t * f, w, bias, cout),
        t as int,
        pointwise_of(y, 16, u * f, w, bias, cout),
        u as int,
        cout as int,
        f as int,
        n,
    );
}

/// A depthwise block works frame by frame.
pub proof fn lemma_block_agrees(
    b: BankView,
    x: Seq<F32>,
    t: nat,
    y: Seq<F32>,
    u: nat,
    f: int,
    dw: Seq<char>,
    pw: Seq<char>,
    pb: Seq<char>,
    stride: int,
    n: int,
)
    requires
        maps_agree(x, t as int, y, u as int, 16, f, n),
        0 < f,
        0 < stride,
    ensures
        maps_agree(
            block_of(b, x, t, f, dw, pw, pb, stride),
            t as int,
            block_of(b, y, u, f, dw, pw, pb, stride),
            u as int,
            16,
            strided(f, stride),
            n,
        ),
{
    let w = b.w.tensor(dw);
    lemma_dw_len(x, 16, t, f, w, stride);
    law_dw_conv13_is_frame_local(x, t, y, u, 16, f, w, stride, n);
    lemma_mixed_agrees(
        b,
        dw_conv13_of(x, 16, t, f, w, stride),
        t,
        dw_conv13_of(y, 16, u, f, w, stride),
        u,
        strided(f, stride) as nat,
        pw,
        pb,
        16,
        n,
    );
}

/// A widening block works frame by frame.
pub proof fn lemma_widened_agrees(
    b: BankView,
    x: Seq<F32>,
    t: nat,
    y: Seq<F32>,
    u: nat,
    f: int,
    dw: Seq<char>,
    pw: Seq<char>,
    pb: Seq<char>,
    n: int,
)
    requires
        maps_agree(x, t as int, y, u as int, 16, f, n),
    ensures
        maps_agree(
            widened_of(b, x, t, f, dw, pw, pb),
            t as int,
            widened_of(b, y, u, f, dw, pw, pb),
            u as int,
            16,
            2 * f,
            n,
        ),
{
    let w = b.w.tensor(dw);
    law_convtranspose_is_frame_local(x, t, y, u, 16, f, w, n);
    lemma_mixed_agrees(
        b,
        convtranspose_dw_of(x, 16, t, f, w),
        t,
        convtranspose_dw_of(y, 16, u, f, w),
        u,
        (2 * f) as nat,
        pw,
        pb,
        16,
        n,
    );
}

/// A skip connection works frame by frame.
pub proof fn lemma_skipped_agrees(
    b: BankView,
    x: Seq<F32>,
    e: Seq<F32>,
    t: nat,
    y: Seq<F32>,
    g: Seq<F32>,
    u: nat,
    f: nat,
    pw: Seq<char>,
    pb: Seq<char>,
    n: int,
)
    requires
        maps_agree(x, t as int, y, u as int, 16, f as int, n),
        maps_agree(e, t as int, g, u as int, 16, f as int, n),
    ensures
        maps_agree(
            skipped_of(b, x, e, t, f, pw, pb),
            t as int,
            skipped_of(b, y, g, u, f, pw, pb),
            u as int,
            16,
            f as int,
            n,
        ),
{
    lemma_mixed_agrees(b, e, t, g, u, f, pw, pb, 16, n);
    lemma_added_agrees(
        x,
        mixed_of(b, e, t * f, pw, pb, 16),
        t as int,
        y,
        mixed_of(b, g, u * f, pw, pb, 16),
        u as int,
        16,
        f as int,
        n,
    );
}

/// A linear layer that reads rows of width at most `width` works frame by frame.
pub proof fn lemma_gl_agrees(
    b: BankView,
    x: Seq<F32>,
    t: nat,
    y: Seq<F32>,
    u: nat,
    name: Seq<char>,
    width: int,
    n: nat,
)
    requires
        n <= t,
        n <= u,
        starts_agree(x, y, n * width),
        b.w.tensors[name].shape.len() >= 3,
        b.w.tensors[name].shape[0] * b.w.tensors[name].shape[1] <= width,
    ensures
        starts_agree(
            gl_of(b.w, x, t, name),
            gl_of(b.w, y, u, name),
            n * gl_width(b, name),
        ),
{
    let s = b.w.tensors[name].shape;
    let (g, i, h) = (s[0] as nat, s[1] as nat, s[2] as nat);
    lemma_mul_is_associative(n as int, g as int, i as int);
    lemma_mul_inequality((g * i) as int, width, n as int);
    lemma_mul_is_commutative((g * i) as int, n as int);
    lemma_mul_is_commutative(width, n as int);
    lemma_mul_nonnegative(n as int, (g * i) as int);
    lemma_shorter_start(x, y, n * width, (n * g * i) as int);
    law_grouped_linear_is_frame_local(x, t, y, u, g, i, h, b.w.tensor(name), n);
}

// ------------------------------------------------------------------ stages

/// Two encoder outputs with the same first `n` frames, the embedding in rows of `width`.
pub open spec fn outputs_agree(
    p: EncOutView,
    t: int,
    q: EncOutView,
    u: int,
    width: int,
    n: int,
) -> bool {
    &&& maps_agree(p.e0, t, q.e0, u, 16, 32, n)
    &&& maps_agree(p.e1, t, q.e1, u, 16, 16, n)
    &&& maps_agree(p.e2, t, q.e2, u, 16, 8, n)
    &&& maps_agree(p.e3, t, q.e3, u, 16, 8, n)
    &&& maps_agree(p.c0, t, q.c0, u, 16, 64, n)
    &&& starts_agree(p.emb, q.emb, n * width)
    &&& starts_agree(p.lsnr, q.lsnr, n)
}

/// A recurrent unit of the model is causal.
proof fn lemma_bank_gru_agrees(
    b: BankView,
    x: Seq<F32>,
    t: nat,
    y: Seq<F32>,
    u: nat,
    prefix: Seq<char>,
    ids: (Seq<char>, Seq<char>, Seq<char>),
    n: nat,
)
    requires
        n <= t,
        n <= u,
        starts_agree(x, y, n as int * 256),
    ensures
        starts_agree(
            bank_gru_of(b, x, t, 256, prefix, ids),
            bank_gru_of(b, y, u, 256, prefix, ids),
            n as int * 256,
        ),
{
    law_gru_is_causal(
        x,
        t,
        y,
        u,
        256,
        b.w.tensor(crate::bank::qualified_of(prefix, ids.0)),
        b.packed[crate::bank::qualified_of(prefix, ids.1)],
        b.w.tensor(crate::bank::qualified_of(prefix, ids.2)),
        256,
        n,
    );
}

proof fn lemma_band_path_agrees(b: BankView, x: Seq<F32>, t: nat, y: Seq<F32>, u: nat, n: int)
    requires
        maps_agree(x, t as int, y, u as int, 1, 32, n),
    ensures
        ({
            let (p0, q0) = (e0_of(b, x, t), e0_of(b, y, u));
            let (p1, q1) = (e1_of(b, p0, t), e1_of(b, q0, u));
            let (p2, q2) = (e2_of(b, p1, t), e2_of(b, q1, u));
            let (p3, q3) = (e3_of(b, p2, t), e3_of(b, q2, u));
            &&& maps_agree(p0, t as int, q0, u as int, 16, 32, n)
            &&& maps_agree(p1, t as int, q1, u as int, 16, 16, n)
            &&& maps_agree(p2, t as int, q2, u as int, 16, 8, n)
            &&& maps_agree(p3, t as int, q3, u as int, 16, 8, n)
        }),
{
    let w = b.w.tensor("enc/onnx::Conv_310"@);
    let bias = Some(b.w.tensor("enc/onnx::Conv_311"@));
    lemma_even_groups_fit(1, 16, 1);
    law_conv3x3_is_causal(x, t, y, u, 1, 32, w, bias, 16, 1, n);
    lemma_relu_agrees(
        conv3x3_causal_of(x, 1, t, 32, w, bias, 16, 1),
        t as int,
        conv3x3_causal_of(y, 1, u, 32, w, bias, 16, 1),
        u as int,
        16,
        32,
        n,
    );
    let (p0, q0) = (e0_of(b, x, t), e0_of(b, y, u));
    assert(strided(32, 2) == 16);
    assert(strided(16, 2) == 8);
    assert(strided(8, 1) == 8);
    lemma_block_agrees(
        b,
        p0,
        t,
        q0,
        u,
        32,
        "enc/erb_conv1.0.weight"@,
        "enc/onnx::Conv_313"@,
        "enc/onnx::Conv_314"@,
        2,
        n,
    );
    let (p1, q1) = (e1_of(b, p0, t), e1_of(b, q0, u));
    lemma_block_agrees(
        b,
        p1,
        t,
        q1,
        u,
        16,
        "enc/erb_conv2.0.weight"@,
        "enc/onnx::Conv_316"@,
        "enc/onnx::Conv_317"@,
        2,
        n,
    );
    let (p2, q2) = (e2_of(b, p1, t), e2_of(b, q1, u));
    lemma_block_agrees(
        b,
        p2,
        t,
        q2,
        u,
        8,
        "enc/erb_conv3.0.weight"@,
        "enc/onnx::Conv_319"@,
        "enc/onnx::Conv_320"@,
        1,
        n,
    );
}

proof fn lemma_spectrum_path_agrees(
    b: BankView,
    x: Seq<F32>,
    t: nat,
    y: Seq<F32>,
    u: nat,
    n: int,
)
    requires
        maps_agree(x, t as int, y, u as int, 2, 64, n),
    ensures
        ({
            let (p, q) = (c0_of(b, x, t), c0_of(b, y, u));
            &&& maps_agree(p, t as int, q, u as int, 16, 64, n)
            &&& maps_agree(c1_of(b, p, t), t as int, c1_of(b, q, u), u as int, 16, 32, n)
        }),
{
    let w = b.w.tensor("enc/df_conv0.1.weight"@);
    lemma_even_groups_fit(2, 16, 2);
    law_conv3x3_is_causal(x, t, y, u, 2, 64, w, None, 16, 2, n);
    lemma_mixed_agrees(
        b,
        conv3x3_causal_of(x, 2, t, 64, w, None, 16, 2),
        t,
        conv3x3_causal_of(y, 2, u, 64, w, None, 16, 2),
        u,
        64,
        "enc/onnx::Conv_322"@,
        "enc/onnx::Conv_323"@,
        16,
        n,
    );
    assert(strided(64, 2) == 32);
    lemma_block_agrees(
        b,
        c0_of(b, x, t),
        t,
        c0_of(b, y, u),
        u,
        64,
        "enc/df_conv1.0.weight"@,
        "enc/onnx::Conv_325"@,
        "enc/onnx::Conv_326"@,
        2,
        n,
    );
}

proof fn lemma_emb_agrees(
    b: BankView,
    p3: Seq<F32>,
    p1: Seq<F32>,
    t: nat,
    q3: Seq<F32>,
    q1: Seq<F32>,
    u: nat,
    n: nat,
)
    requires
        maps_agree(p3, t as int, q3, u as int, 16, 8, n as int),
        maps_agree(p1, t as int, q1, u as int, 16, 32, n as int),
        encoder_sized(b, t as int),
        gl_width(b, "enc/df_fc_emb.0.weight"@) == 128,
    ensures
        starts_agree(
            emb_of(b, joined_of(b, p3, p1, t), t),
            emb_of(b, joined_of(b, q3, q1, u), u),
            n * gl_width(b, "enc/emb_gru.linear_out.0.weight"@),
        ),
{
    lemma_frames_first_agrees(p1, t, q1, u, 16, 32, n);
    let (pc, qc) = (frames_first_of(p1, 16, t, 32), frames_first_of(q1, 16, u, 32));
    lemma_gl_agrees(b, pc, t, qc, u, "enc/df_fc_emb.0.weight"@, 512, n);
    let (pg, qg) = (
        gl_of(b.w, pc, t, "enc/df_fc_emb.0.weight"@),
        gl_of(b.w, qc, u, "enc/df_fc_emb.0.weight"@),
    );
    lemma_relu_start(pg, qg, n as int * 128);
    lemma_frames_first_agrees(p3, t, q3, u, 16, 8, n);
    let (pe, qe) = (frames_first_of(p3, 16, t, 8), frames_first_of(q3, 16, u, 8));
    lemma_added_start(relu_seq(pg), pe, relu_seq(qg), qe, n as int * 128);
    let (pj, qj) = (joined_of(b, p3, p1, t), joined_of(b, q3, q1, u));
    lemma_gl_agrees(b, pj, t, qj, u, "enc/emb_gru.linear_in.0.weight"@, 128, n);
    let (px, qx) = (
        gl_of(b.w, pj, t, "enc/emb_gru.linear_in.0.weight"@),
        gl_of(b.w, qj, u, "enc/emb_gru.linear_in.0.weight"@),
    );
    lemma_relu_start(px, qx, n as int * 256);
    let ids = ("onnx::GRU_360"@, "onnx::GRU_361"@, "onnx::GRU_362"@);
    lemma_bank_gru_agrees(b, relu_seq(px), t, relu_seq(qx), u, "enc"@, ids, n);
    let (py, qy) = (
        bank_gru_of(b, relu_seq(px), t, 256, "enc"@, ids),
        bank_gru_of(b, relu_seq(qx), u, 256, "enc"@, ids),
    );
    lemma_gl_agrees(b, py, t, qy, u, "enc/emb_gru.linear_out.0.weight"@, 256, n);
    lemma_relu_start(
        gl_of(b.w, py, t, "enc/emb_gru.linear_out.0.weight"@),
        gl_of(b.w, qy, u, "enc/emb_gru.linear_out.0.weight"@),
        n * gl_width(b, "enc/emb_gru.linear_out.0.weight"@),
    );
}

/// The encoder is causal: its first frames depend on the first frames of the features alone.
pub proof fn law_encoder_is_causal(
    b: BankView,
    erb1: Seq<F32>,
    spec1: Seq<F32>,
    t: nat,
    erb2: Seq<F32>,
    spec2: Seq<F32>,
    u: nat,
    n: nat,
)
    requires
        encoder_sized(b, t as int),
        gl_width(b, "enc/df_fc_emb.0.weight"@) == 128,
        maps_agree(erb1, t as int, erb2, u as int, 1, 32, n as int),
        maps_agree(spec1, t as int, spec2, u as int, 2, 64, n as int),
    ensures
        outputs_agree(
            encode_of(b, erb1, spec1, t),
            t as int,
            encode_of(b, erb2, spec2, u),
            u as int,
            gl_width(b, "enc/emb_gru.linear_out.0.weight"@),
            n as int,
        ),
{
    let p = encode_of(b, erb1, spec1, t);
    let q = encode_of(b, erb2, spec2, u);
    lemma_band_path_agrees(b, erb1, t, erb2, u, n as int);
    lemma_spectrum_path_agrees(b, spec1, t, spec2, u, n as int);
    lemma_emb_agrees(b, p.e3, c1_of(b, p.c0, t), t, q.e3, c1_of(b, q.c0, u), u, n);
    let width = gl_width(b, "enc/emb_gru.linear_out.0.weight"@);
    assert forall|ti: int| 0 <= ti < n implies #[trigger] p.lsnr.take(n as int)[ti]
        == q.lsnr.take(n as int)[ti] by {
        lemma_row_fits(ti, n as int, 128);
        lemma_mul_inequality(128, width, n as int);
        lemma_mul_is_commutative(width, n as int);
        lemma_starts_row(p.emb, q.emb, n * width, ti, 128);
    }
    assert(p.lsnr.take(n as int) =~= q.lsnr.take(n as int));
}

proof fn lemma_erb_start_agrees(
    b: BankView,
    p: Seq<F32>,
    t: nat,
    q: Seq<F32>,
    u: nat,
    width: int,
    n: nat,
)
    requires
        n <= t,
        n <= u,
        0 < t,
        starts_agree(p, q, n * width),
        erb_dec_sized(b, t as int, (t * width) as nat),
        0 <= width,
    ensures
        maps_agree(
            erb_start_of(b, p, t),
            t as int,
            erb_start_of(b, q, u),
            u as int,
            16,
            8,
            n as int,
        ),
{
    let lin = "erb_dec/emb_gru.linear_in.0.weight"@;
    let lout = "erb_dec/emb_gru.linear_out.0.weight"@;
    lemma_mul_nonnegative(t as int, width);
    lemma_reads_at_most(b, t as int, lin, width);
    lemma_gl_agrees(b, p, t, q, u, lin, width, n);
    let (px, qx) = (gl_of(b.w, p, t, lin), gl_of(b.w, q, u, lin));
    lemma_relu_start(px, qx, n as int * 256);
    let ids = ("onnx::GRU_291"@, "onnx::GRU_292"@, "onnx::GRU_293"@);
    lemma_bank_gru_agrees(b, relu_seq(px), t, relu_seq(qx), u, "erb_dec"@, ids, n);
    let (py, qy) = (
        bank_gru_of(b, relu_seq(px), t, 256, "erb_dec"@, ids),
        bank_gru_of(b, relu_seq(qx), u, 256, "erb_dec"@, ids),
    );
    lemma_gl_agrees(b, py, t, qy, u, lout, 256, n);
    let (pz, qz) = (gl_of(b.w, py, t, lout), gl_of(b.w, qy, u, lout));
    lemma_relu_start(pz, qz, n * gl_width(b, lout));
    lemma_mul_inequality(128, gl_width(b, lout), n as int);
    lemma_mul_is_commutative(gl_width(b, lout), n as int);
    lemma_shorter_start(relu_seq(pz), relu_seq(qz), n * gl_width(b, lout), n as int * 128);
    lemma_channels_first_agrees(relu_seq(pz), t, relu_seq(qz), u, 16, 8, n);
}

/// A weight that fits `t` rows of width `width` reads rows of at most that width.
proof fn lemma_reads_at_most(b: BankView, t: int, name: Seq<char>, width: int)
    requires
        0 < t,
        0 <= width,
        gl_fits(b.w, (t * width) as nat, t, name),
    ensures
        b.w.tensors[name].shape[0] * b.w.tensors[name].shape[1] <= width,
{
    let s = b.w.tensors[name].shape;
    let r = s[0] * s[1];
    lemma_mul_is_associative(t, s[0] as int, s[1] as int);
    assert(t * width >= 0) by (nonlinear_arith)
        requires
            t > 0,
            width >= 0,
    ;
    assert(r <= width) by (nonlinear_arith)
        requires
            t > 0,
            t * r <= t * width,
    ;
}

/// The band decoder is causal.
pub proof fn law_band_decoder_is_causal(
    b: BankView,
    p: EncOutView,
    t: nat,
    q: EncOutView,
    u: nat,
    width: int,
    n: nat,
)
    requires
        0 < t,
        0 <= width,
        outputs_agree(p, t as int, q, u as int, width, n as int),
        erb_dec_sized(b, t as int, (t * width) as nat),
    ensures
        starts_agree(erb_dec_of(b, p, t), erb_dec_of(b, q, u), n as int * 32),
{
    lemma_erb_start_agrees(b, p.emb, t, q.emb, u, width, n);
    let (px, qx) = (erb_start_of(b, p.emb, t), erb_start_of(b, q.emb, u));
    let ni = n as int;
    let (s3, b3) = ("erb_dec/onnx::Conv_247"@, "erb_dec/onnx::Conv_248"@);
    lemma_skipped_agrees(b, px, p.e3, t, qx, q.e3, u, 8, s3, b3, ni);
    let (px, qx) = (
        skipped_of(b, px, p.e3, t, 8, s3, b3),
        skipped_of(b, qx, q.e3, u, 8, s3, b3),
    );
    assert(strided(8, 1) == 8);
    let (dw, pw, pb) = (
        "erb_dec/convt3.0.weight"@,
        "erb_dec/onnx::Conv_250"@,
        "erb_dec/onnx::Conv_251"@,
    );
    lemma_block_agrees(b, px, t, qx, u, 8, dw, pw, pb, 1, ni);
    let (px, qx) = (block_of(b, px, t, 8, dw, pw, pb, 1), block_of(b, qx, u, 8, dw, pw, pb, 1));
    let (s2, b2) = ("erb_dec/onnx::Conv_253"@, "erb_dec/onnx::Conv_254"@);
    lemma_skipped_agrees(b, px, p.e2, t, qx, q.e2, u, 8, s2, b2, ni);
    let (px, qx) = (
        skipped_of(b, px, p.e2, t, 8, s2, b2),
        skipped_of(b, qx, q.e2, u, 8, s2, b2),
    );
    let (dw, pw, pb) = (
        "erb_dec/convt2.0.weight"@,
        "erb_dec/onnx::Conv_256"@,
        "erb_dec/onnx::Conv_257"@,
    );
    lemma_widened_agrees(b, px, t, qx, u, 8, dw, pw, pb, ni);
    let (px, qx) = (widened_of(b, px, t, 8, dw, pw, pb), widened_of(b, qx, u, 8, dw, pw, pb));
    let (s1, b1) = ("erb_dec/onnx::Conv_259"@, "erb_dec/onnx::Conv_260"@);
    lemma_skipped_agrees(b, px, p.e1, t, qx, q.e1, u, 16, s1, b1, ni);
    let (px, qx) = (
        skipped_of(b, px, p.e1, t, 16, s1, b1),
        skipped_of(b, qx, q.e1, u, 16, s1, b1),
    );
    let (dw, pw, pb) = (
        "erb_dec/convt1.0.weight"@,
        "erb_dec/onnx::Conv_262"@,
        "erb_dec/onnx::Conv_263"@,
    );
    lemma_widened_agrees(b, px, t, qx, u, 16, dw, pw, pb, ni);
    let (px, qx) = (widened_of(b, px, t, 16, dw, pw, pb), widened_of(b, qx, u, 16, dw, pw, pb));
    let (s0, b0) = ("erb_dec/onnx::Conv_265"@, "erb_dec/onnx::Conv_266"@);
    lemma_skipped_agrees(b, px, p.e0, t, qx, q.e0, u, 32, s0, b0, ni);
    let (px, qx) = (
        skipped_of(b, px, p.e0, t, 32, s0, b0),
        skipped_of(b, qx, q.e0, u, 32, s0, b0),
    );
    let (w, bias) = (
        b.w.tensor("erb_dec/onnx::Conv_268"@),
        b.w.tensor("erb_dec/onnx::Conv_269"@),
    );
    law_conv1x3_is_frame_local(px, t, qx, u, 16, 32, w, bias, 1, ni);
    let (pm, qm) = (
        conv1x3_of(px, 16, t, 32, w, bias, 1),
        conv1x3_of(qx, 16, u, 32, w, bias, 1),
    );
    lemma_map_start(pm, t as int, qm, u as int, 32, ni);
    assert(sigmoid_seq(pm).take(ni * 32) =~= sigmoid_seq(pm.take(ni * 32)));
    assert(sigmoid_seq(qm).take(ni * 32) =~= sigmoid_seq(qm.take(ni * 32)));
}

/// The deep-filter decoder is causal.
pub proof fn law_filter_decoder_is_causal(
    b: BankView,
    p: EncOutView,
    t: nat,
    q: EncOutView,
    u: nat,
    width: int,
    n: nat,
)
    requires
        0 < t,
        0 <= width,
        outputs_agree(p, t as int, q, u as int, width, n as int),
        df_dec_sized(b, t as int, (t * width) as nat),
    ensures
        starts_agree(df_dec_of(b, p, t), df_dec_of(b, q, u), n as int * 640),
{
    let lin = "df_dec/df_gru.linear_in.0.weight"@;
    let lout = "df_dec/df_out.0.weight"@;
    lemma_mul_nonnegative(t as int, width);
    lemma_reads_at_most(b, t as int, lin, width);
    lemma_gl_agrees(b, p.emb, t, q.emb, u, lin, width, n);
    let (px, qx) = (gl_of(b.w, p.emb, t, lin), gl_of(b.w, q.emb, u, lin));
    lemma_relu_start(px, qx, n as int * 256);
    let (px, qx) = (relu_seq(px), relu_seq(qx));
    let d = "df_dec"@;
    let one = ("onnx::GRU_337"@, "onnx::GRU_338"@, "onnx::GRU_339"@);
    let two = ("onnx::GRU_357"@, "onnx::GRU_358"@, "onnx::GRU_359"@);
    let three = ("onnx::GRU_377"@, "onnx::GRU_378"@, "onnx::GRU_379"@);
    lemma_bank_gru_agrees(b, px, t, qx, u, d, one, n);
    let (ph, qh) = (bank_gru_of(b, px, t, 256, d, one), bank_gru_of(b, qx, u, 256, d, one));
    lemma_bank_gru_agrees(b, ph, t, qh, u, d, two, n);
    let (ph, qh) = (bank_gru_of(b, ph, t, 256, d, two), bank_gru_of(b, qh, u, 256, d, two));
    lemma_bank_gru_agrees(b, ph, t, qh, u, d, three, n);
    let (ph, qh) = (bank_gru_of(b, ph, t, 256, d, three), bank_gru_of(b, qh, u, 256, d, three));
    lemma_gl_agrees(b, ph, t, qh, u, lout, 256, n);
    let (pg, qg) = (gl_of(b.w, ph, t, lout), gl_of(b.w, qh, u, lout));
    let k = n as int * 640;
    let w = gl_width(b, lout);
    lemma_mul_inequality(640, w, n as int);
    lemma_mul_is_commutative(w, n as int);
    assert(pg.take(k) =~= pg.take(n as int * w).take(k));
    assert(qg.take(k) =~= qg.take(n as int * w).take(k));
    assert(tanh_seq(pg).take(k) =~= tanh_seq(pg.take(k)));
    assert(tanh_seq(qg).take(k) =~= tanh_seq(qg.take(k)));
    let (pw, pb) = ("df_dec/onnx::Conv_314"@, "df_dec/onnx::Conv_315"@);
    lemma_mixed_agrees(b, p.c0, t, q.c0, u, 64, pw, pb, 10, n as int);
    let (pc, qc) = (
        mixed_of(b, p.c0, t * 64, pw, pb, 10),
        mixed_of(b, q.c0, u * 64, pw, pb, 10),
    );
    lemma_frames_first_agrees(pc, t, qc, u, 10, 64, n);
    lemma_added_start(
        tanh_seq(pg),
        frames_first_of(pc, 10, t, 64),
        tanh_seq(qg),
        frames_first_of(qc, 10, u, 64),
        k,
    );
}

// ------------------------------------------------------------------ features and merging

/// Two streams whose features move alike.
pub open spec fn means_agree(c: DspView, d: DspView) -> bool {
    c.alpha == d.alpha && c.erb_state == d.erb_state && c.unit_state == d.unit_state
}

proof fn lemma_erb_state_agrees(
    p: Seq<F32>,
    c: DspView,
    q: Seq<F32>,
    d: DspView,
    k: nat,
    n: nat,
)
    requires
        starts_agree(p, q, n as int * 32),
        means_agree(c, d),
        k <= n,
    ensures
        erb_state_after(p, c, k) == erb_state_after(q, d, k),
    decreases k,
{
    if k > 0 {
        lemma_erb_state_agrees(p, c, q, d, (k - 1) as nat, n);
        assert forall|b: int| 0 <= b < 32 implies #[trigger] level(p, k - 1, b) == level(
            q,
            k - 1,
            b,
        ) by {
            lemma_start_at(p, q, n as int * 32, (k - 1) * 32 + b);
        }
        assert(erb_state_after(p, c, k) =~= erb_state_after(q, d, k));
    }
}

/// The band features of the first frames depend on the first frames alone.
pub proof fn law_band_features_are_causal(
    p: Seq<F32>,
    c: DspView,
    t: nat,
    q: Seq<F32>,
    d: DspView,
    u: nat,
    n: nat,
)
    requires
        n <= t,
        n <= u,
        starts_agree(p, q, n as int * 32),
        means_agree(c, d),
    ensures
        starts_agree(erb_feat_of(p, c, t), erb_feat_of(q, d, u), n as int * 32),
{
    let (a, b) = (erb_rows(p, c), erb_rows(q, d));
    assert forall|ti: int| 0 <= ti < n implies #[trigger] a(ti) == b(ti) by {
        lemma_erb_state_agrees(p, c, q, d, (ti + 1) as nat, n);
        assert forall|k: int| 0 <= k < 32 implies #[trigger] a(ti)[k] == b(ti)[k] by {
            lemma_start_at(p, q, n as int * 32, ti * 32 + k);
        }
        assert(a(ti) =~= b(ti));
    }
    lemma_rows_start(t, u, 32, a, b, n);
}

proof fn lemma_unit_state_agrees(
    p: Seq<Complex>,
    c: DspView,
    q: Seq<Complex>,
    d: DspView,
    k: nat,
    n: nat,
)
    requires
        starts_agree(p, q, n as int * 161),
        means_agree(c, d),
        k <= n,
    ensures
        unit_state_after(p, c, k) == unit_state_after(q, d, k),
    decreases k,
{
    if k > 0 {
        lemma_unit_state_agrees(p, c, q, d, (k - 1) as nat, n);
        assert forall|f: int| 0 <= f < 64 implies #[trigger] magnitude(p, k - 1, f) == magnitude(
            q,
            k - 1,
            f,
        ) by {
            lemma_start_at(p, q, n as int * 161, (k - 1) * 161 + f);
        }
        assert(unit_state_after(p, c, k) =~= unit_state_after(q, d, k));
    }
}

/// The spectrum features of the first frames depend on the first frames alone.
pub proof fn law_spectrum_features_are_causal(
    p: Seq<Complex>,
    c: DspView,
    t: nat,
    q: Seq<Complex>,
    d: DspView,
    u: nat,
    n: nat,
)
    requires
        n <= t,
        n <= u,
        starts_agree(p, q, n as int * 161),
        means_agree(c, d),
    ensures
        maps_agree(
            spec_feat_of(p, c, t),
            t as int,
            spec_feat_of(q, d, u),
            u as int,
            2,
            64,
            n as int,
        ),
{
    let (x, y) = (spec_feat_of(p, c, t), spec_feat_of(q, d, u));
    let (ar, ai) = (unit_re_rows(p, c), unit_im_rows(p, c));
    let (br, bi) = (unit_re_rows(q, d), unit_im_rows(q, d));
    lemma_rows_len(t, 64, ar);
    lemma_rows_len(t, 64, ai);
    lemma_rows_len(u, 64, br);
    lemma_rows_len(u, 64, bi);
    assert forall|ch: int, ti: int|
        #![trigger row_of(x, ch * t as int + ti, 64)]
        0 <= ch < 2 && 0 <= ti < n implies row_of(x, ch * t as int + ti, 64) == row_of(
        y,
        ch * u as int + ti,
        64,
    ) by {
        lemma_unit_state_agrees(p, c, q, d, (ti + 1) as nat, n);
        assert forall|f: int| 0 <= f < 64 implies #[trigger] p[ti * 161 + f] == q[ti * 161 + f] by {
            lemma_start_at(p, q, n as int * 161, ti * 161 + f);
        }
        assert(ar(ti) =~= br(ti));
        assert(ai(ti) =~= bi(ti));
        lemma_row_of_rows(t, 64, ar, ti);
        lemma_row_of_rows(t, 64, ai, ti);
        lemma_row_of_rows(u, 64, br, ti);
        lemma_row_of_rows(u, 64, bi, ti);
        if ch == 0 {
            assert(0 * t == 0 && 0 * u == 0);
            assert(row_of(x, ti, 64) =~= row_of(rows(t, ar), ti, 64));
            assert(row_of(y, ti, 64) =~= row_of(rows(u, br), ti, 64));
        } else {
            assert(ch == 1);
            assert(1 * t == t && 1 * u == u);
            assert(row_of(x, t + ti, 64) =~= row_of(rows(t, ai), ti, 64));
            assert(row_of(y, u + ti, 64) =~= row_of(rows(u, bi), ti, 64));
        }
    }
}

proof fn lemma_expanded_agrees(p: Seq<F32>, t: nat, q: Seq<F32>, u: nat, n: nat)
    requires
        n <= t,
        n <= u,
        starts_agree(p, q, n as int * 32),
    ensures
        starts_agree(erb_inv_of(p, t), erb_inv_of(q, u), n as int * 161),
{
    let (a, b) = (expanded_rows(p), expanded_rows(q));
    lemma_erb_inv_len(p, t);
    lemma_erb_inv_len(q, u);
    assert forall|ti: int| 0 <= ti < n implies #[trigger] a(ti) == b(ti) by {
        let (x, y) = (expanded_bands(p, ti), expanded_bands(q, ti));
        assert forall|k: int| 0 <= k < 32 implies #[trigger] x(k) == y(k) by {
            lemma_start_at(p, q, n as int * 32, ti * 32 + k);
        }
        lemma_rows_eq(32, x, y);
    }
    lemma_rows_start(t, u, 161, a, b, n);
}

proof fn lemma_filtered_agrees(
    p: Seq<Complex>,
    x: Seq<F32>,
    q: Seq<Complex>,
    y: Seq<F32>,
    ti: int,
    f: int,
    k: nat,
    n: nat,
)
    requires
        starts_agree(p, q, n as int * 161),
        starts_agree(x, y, n as int * 640),
        0 <= ti < n,
        0 <= f < 64,
        k <= 5,
    ensures
        filtered(p, x, ti, f, k) == filtered(q, y, ti, f, k),
    decreases k,
{
    if k > 0 {
        lemma_filtered_agrees(p, x, q, y, ti, f, (k - 1) as nat, n);
        let tt = ti + (k - 1) - 4;
        if tt >= 0 {
            lemma_start_at(p, q, n as int * 161, tt * 161 + f);
            lemma_start_at(x, y, n as int * 640, (ti * 64 + f) * 10 + (k - 1) * 2);
            lemma_start_at(x, y, n as int * 640, (ti * 64 + f) * 10 + (k - 1) * 2 + 1);
        }
    }
}

/// Masking and deep filtering are causal.
pub proof fn law_merging_is_causal(
    p: Seq<Complex>,
    m1: Seq<F32>,
    c1: Seq<F32>,
    t: nat,
    q: Seq<Complex>,
    m2: Seq<F32>,
    c2: Seq<F32>,
    u: nat,
    n: nat,
)
    requires
        n <= t,
        n <= u,
        starts_agree(p, q, n as int * 161),
        starts_agree(m1, m2, n as int * 32),
        starts_agree(c1, c2, n as int * 640),
    ensures
        starts_agree(merged_of(p, m1, c1, t), merged_of(q, m2, c2, u), n as int * 161),
{
    lemma_expanded_agrees(m1, t, m2, u, n);
    let k = n as int * 161;
    let (x, y) = (merged_of(p, m1, c1, t), merged_of(q, m2, c2, u));
    assert forall|i: int| 0 <= i < k implies #[trigger] x.take(k)[i] == y.take(k)[i] by {
        lemma_start_at(p, q, k, i);
        lemma_start_at(erb_inv_of(m1, t), erb_inv_of(m2, u), k, i);
        if i % 161 < 64 {
            lemma_filtered_agrees(p, c1, q, c2, i / 161, i % 161, 5, n);
        }
    }
    assert(x.take(k) =~= y.take(k));
}

/// Enhancing spectra is causal: the first frames of the result depend on the first frames of the
/// spectra and of their levels alone. The embedding's first layer has the width that the model was
/// made with.
pub proof fn law_enhancing_spectra_is_causal(
    h: HushView,
    c: DspView,
    p: Seq<Complex>,
    l1: Seq<F32>,
    t: nat,
    d: DspView,
    q: Seq<Complex>,
    l2: Seq<F32>,
    u: nat,
    lim: Option<F32>,
    n: nat,
)
    requires
        n <= t,
        n <= u,
        model_sized(h, t as int),
        gl_width(h.enc, "enc/df_fc_emb.0.weight"@) == 128,
        means_agree(c, d),
        starts_agree(p, q, n as int * 161),
        starts_agree(l1, l2, n as int * 32),
    ensures
        starts_agree(
            enhanced_of(h, c, p, l1, t, lim),
            enhanced_of(h, d, q, l2, u, lim),
            n as int * 161,
        ),
        starts_agree(encoded(h.enc, c, p, l1, t).lsnr, encoded(h.enc, d, q, l2, u).lsnr, n as int),
{
    law_band_features_are_causal(l1, c, t, l2, d, u, n);
    law_spectrum_features_are_causal(p, c, t, q, d, u, n);
    let (f1, f2) = (erb_feat_of(l1, c, t), erb_feat_of(l2, d, u));
    lemma_rows_len(t, 32, erb_rows(l1, c));
    lemma_rows_len(u, 32, erb_rows(l2, d));
    lemma_start_map(f1, t as int, f2, u as int, 32, n as int);
    law_encoder_is_causal(
        h.enc,
        f1,
        spec_feat_of(p, c, t),
        t,
        f2,
        spec_feat_of(q, d, u),
        u,
        n,
    );
    let (e1, e2) = (encoded(h.enc, c, p, l1, t), encoded(h.enc, d, q, l2, u));
    let width = gl_width(h.enc, "enc/emb_gru.linear_out.0.weight"@);
    law_band_decoder_is_causal(h.dec, e1, t, e2, u, width, n);
    law_filter_decoder_is_causal(h.dec, e1, t, e2, u, width, n);
    let (m1, m2) = (erb_dec_of(h.dec, e1, t), erb_dec_of(h.dec, e2, u));
    let (c1, c2) = (df_dec_of(h.dec, e1, t), df_dec_of(h.dec, e2, u));
    law_merging_is_causal(p, m1, c1, t, q, m2, c2, u, n);
    let k = n as int * 161;
    let (x, y) = (merged_of(p, m1, c1, t), merged_of(q, m2, c2, u));
    match lim {
        None => {},
        Some(l) => {
            let (a, b) = (limited_of(p, x, lim), limited_of(q, y, lim));
            assert forall|i: int| 0 <= i < k implies #[trigger] a.take(k)[i] == b.take(k)[i] by {
                lemma_start_at(p, q, k, i);
                lemma_start_at(x, y, k, i);
            }
            assert(a.take(k) =~= b.take(k));
        },
    }
}

} // verus!
