//! The gradient of the image loss is the loss's slope.
use vstd::prelude::*;

use crate::exact;
use crate::image_loss;
use crate::image_loss::{ChannelWeights, PartialSource, Scene, Stats};
use crate::loss_sums;
use crate::num::Geometric;
use crate::projection;
use crate::scalar;
use crate::slope;
use crate::stencil;
use crate::sum_slope;

verus! {

/// The weights of the blur, as numbers.
pub open spec fn tap_value<S: Geometric>(value: spec_fn(S) -> real) -> spec_fn(int) -> real {
    |i: int| value(stencil::tap(i))
}

proof fn lemma_bell_rests<S: Geometric>(
    value: spec_fn(S) -> real,
    slope: spec_fn(S) -> real,
    n: int,
)
    requires
        slope::is_slope(value, slope),
    ensures
        slope(stencil::bell_sum(n)) == 0 as real,
        slope(stencil::bell(n)) == 0 as real,
    decreases n,
{
    slope::lemma_constants(value, slope);
    if n > 0 {
        lemma_bell_rests(value, slope, n - 1);
    }
}

/// The weights of the blur are constants.
proof fn lemma_taps_rest<S: Geometric>(value: spec_fn(S) -> real, slope: spec_fn(S) -> real)
    requires
        slope::is_slope(value, slope),
    ensures
        forall|i: int| slope(#[trigger] stencil::tap(i)) == 0 as real,
{
    assert forall|i: int| slope(#[trigger] stencil::tap(i)) == 0 as real by {
        reveal(stencil::tap);
        lemma_bell_rests(value, slope, i);
        lemma_bell_rests(value, slope, 11);
    }
}

proof fn lemma_pairs<S: Geometric>(
    value: spec_fn(S) -> real,
    slope: spec_fn(S) -> real,
    f: spec_fn(int) -> S,
    at: int,
    d: int,
)
    requires
        slope::is_slope(value, slope),
        0 <= d,
    ensures
        value(stencil::blur_pairs(f, at, d)) == sum_slope::rpairs(
            tap_value(value),
            |i: int| value(f(i)),
            at,
            d,
        ),
        slope(stencil::blur_pairs(f, at, d)) == sum_slope::rpairs(
            tap_value(value),
            |i: int| slope(f(i)),
            at,
            d,
        ),
    decreases d,
{
    if d > 0 {
        lemma_pairs(value, slope, f, at, d - 1);
        slope::lemma_constants(value, slope);
        lemma_taps_rest(value, slope);
    }
}

/// A blur, in numbers and in slopes.
proof fn lemma_blur<S: Geometric>(
    value: spec_fn(S) -> real,
    slope: spec_fn(S) -> real,
    f: spec_fn(int) -> S,
    at: int,
)
    requires
        slope::is_slope(value, slope),
    ensures
        value(stencil::blur(f, at)) == sum_slope::rblur(
            tap_value(value),
            |i: int| value(f(i)),
            at,
        ),
        slope(stencil::blur(f, at)) == sum_slope::rblur(
            tap_value(value),
            |i: int| slope(f(i)),
            at,
        ),
{
    lemma_pairs(value, slope, f, at, 5);
    slope::lemma_constants(value, slope);
    lemma_taps_rest(value, slope);
}

/// The slope of a moment at a pixel.
spec fn moment_slope<S: Geometric>(
    slope: spec_fn(S) -> real,
    sc: Scene<S>,
    c: int,
    k: int,
) -> spec_fn(int, int) -> real {
    |y: int, x: int|
        slope(
            stencil::moment(k, image_loss::pred_at(sc, c, y, x), image_loss::gt_at(sc, c, y, x)),
        )
}

/// A statistic moves as the blur of its moments' slopes.
proof fn lemma_stat_slope<S: Geometric>(
    value: spec_fn(S) -> real,
    slope: spec_fn(S) -> real,
    sc: Scene<S>,
    c: int,
    k: int,
    y: int,
    x: int,
)
    requires
        slope::is_slope(value, slope),
    ensures
        slope(image_loss::stat(sc, c, k, y, x)) == sum_slope::plane_blur(
            tap_value(value),
            moment_slope(slope, sc, c, k),
        )(y, x),
{
    let t = tap_value(value);
    let plane = moment_slope(slope, sc, c, k);
    let columns = image_loss::column_stats(sc, c, k, x);
    lemma_blur(value, slope, columns, y);
    let (a, b) = (
        |i: int| slope(columns(i)),
        sum_slope::plane_column(sum_slope::row_blur(t, plane), x),
    );
    assert forall|i: int| #[trigger] a(i) == b(i) by {
        let row = image_loss::row_moments(sc, c, k, i);
        lemma_blur(value, slope, row, x);
        sum_slope::lemma_blur_eq(
            t,
            |j: int| slope(row(j)),
            sum_slope::plane_row(plane, i),
            x,
        );
    }
    sum_slope::lemma_blur_eq(t, a, b, y);
}

/// A weighted derivative of the similarity, in numbers.
spec fn partial_value<S: Geometric>(
    value: spec_fn(S) -> real,
    sc: Scene<S>,
    upstream: Seq<S>,
    weight: S,
    c: int,
    j: int,
) -> spec_fn(int, int) -> real {
    |y: int, x: int|
        value(
            image_loss::weighted_partial(
                sc,
                PartialSource::Recomputed,
                upstream,
                weight,
                c,
                j,
                y,
                x,
            ),
        )
}

/// What is spread back to a pixel is the blur of the weighted derivatives.
proof fn lemma_spread_value<S: Geometric>(
    value: spec_fn(S) -> real,
    slope: spec_fn(S) -> real,
    sc: Scene<S>,
    upstream: Seq<S>,
    weight: S,
    c: int,
    j: int,
    y: int,
    x: int,
)
    requires
        slope::is_slope(value, slope),
    ensures
        value(
            image_loss::spread_at(
                sc,
                PartialSource::Recomputed,
                upstream,
                weight,
                c,
                j,
                y,
                x,
            ),
        ) == sum_slope::plane_blur(
            tap_value(value),
            partial_value(value, sc, upstream, weight, c, j),
        )(y, x),
{
    let t = tap_value(value);
    let source = PartialSource::<S>::Recomputed;
    let plane = partial_value(value, sc, upstream, weight, c, j);
    let columns = image_loss::column_spreads(sc, source, upstream, weight, c, j, x);
    lemma_blur(value, slope, columns, y);
    let (a, b) = (
        |i: int| value(columns(i)),
        sum_slope::plane_column(sum_slope::row_blur(t, plane), x),
    );
    assert forall|i: int| #[trigger] a(i) == b(i) by {
        let row = image_loss::row_partials(sc, source, upstream, weight, c, j, i);
        lemma_blur(value, slope, row, x);
        sum_slope::lemma_blur_eq(
            t,
            |k: int| value(row(k)),
            sum_slope::plane_row(plane, i),
            x,
        );
    }
    sum_slope::lemma_blur_eq(t, a, b, y);
}

proof fn lemma_inverse_of_product(a: real, b: real)
    by (nonlinear_arith)
    requires
        a > 0 as real,
        b > 0 as real,
    ensures
        a * b > 0 as real,
        a * ((1 as real) / a) == 1 as real,
        b * ((1 as real) / b) == 1 as real,
        (a * b) * ((1 as real) / (a * b)) == 1 as real,
{
}

/// The inverse of a product times one factor is the inverse of the other.
proof fn lemma_cancel(a: real, ia: real, b: real, i: real)
    requires
        a * ia == 1 as real,
        (a * b) * i == 1 as real,
    ensures
        b * i == ia,
{
    let one = 1 as real;
    exact::lemma_regroup(a, b, i);
    exact::lemma_swap_first(ia, a, b * i);
    exact::lemma_regroup(a, ia, b * i);
    assert(one * (b * i) == b * i);
    assert(ia * one == ia);
}

/// The slope of the similarity: `p` and `q` are the means, `a`, `b`, `c` and `d`
/// the four factors, `i` the inverse of the divisor, `ia` and `ib` those of its
/// factors; `dp`, `ds` and `dx` are the slopes of the prediction's mean, of its
/// mean square and of the mean product.
proof fn lemma_similarity_slope(
    p: real,
    q: real,
    a: real,
    b: real,
    c: real,
    d: real,
    i: real,
    ia: real,
    ib: real,
    dp: real,
    ds: real,
    dx: real,
)
    requires
        a * ia == 1 as real,
        b * ib == 1 as real,
        (a * b) * i == 1 as real,
    ensures
        ({
            let two = 2 as real;
            let cd = (c * d) * i;
            let da = dp * p + p * dp;
            let db = ds - (dp * p + p * dp);
            let dc = (two * dp) * q;
            let dd = two * (dx - dp * q);
            ((dc * d + c * dd) - cd * (da * b + a * db)) * i == (((two * q) * i) * (d - c) - ((two
                * p) * cd) * (ia - ib)) * dp + (-(cd * ib)) * ds + ((two * c) * i) * dx
        }),
{
    let two = 2 as real;
    let cd = (c * d) * i;
    let da = dp * p + p * dp;
    let db = ds - da;
    let dc = (two * dp) * q;
    let dd = two * (dx - dp * q);
    lemma_cancel(a, ia, b, i);
    exact::lemma_commute(a, b);
    lemma_cancel(b, ib, a, i);
    // The factors of the divisor.
    let t = (two * p) * dp;
    assert(da == t) by {
        exact::lemma_commute(dp, p);
        exact::lemma_regroup(two, p, dp);
    }
    let bottom = da * b + a * db;
    assert((cd * bottom) * i == cd * (da * ia + db * ib)) by {
        exact::lemma_regroup(cd, bottom, i);
        exact::lemma_factor(da * b, a * db, i);
        exact::lemma_regroup(da, b, i);
        exact::lemma_commute(a, db);
        exact::lemma_regroup(db, a, i);
    }
    let k = (two * p) * cd;
    assert(cd * (da * ia + db * ib) == (k * (ia - ib)) * dp + (cd * ib) * ds) by {
        exact::lemma_factor_difference(ds, t, ib);
        exact::lemma_commute(t, ia);
        exact::lemma_commute(t, ib);
        exact::lemma_factor_difference(ia, ib, t);
        assert(da * ia + db * ib == (ia - ib) * t + ds * ib);
        exact::lemma_in_front(cd, (ia - ib) * t, ds * ib);
        exact::lemma_commute(ds, ib);
        exact::lemma_regroup(cd, ib, ds);
        exact::lemma_swap_first(cd, ia - ib, t);
        exact::lemma_regroup(two * p, dp, cd);
        exact::lemma_swap_first(cd, two * p, dp);
        exact::lemma_regroup(two * p, cd, dp);
        exact::lemma_regroup(k, ia - ib, dp);
        exact::lemma_swap_first(ia - ib, k, dp);
    }
    // The factors of the numerator.
    let top = dc * d + c * dd;
    let u = (two * q) * dp;
    assert(dc == u) by {
        exact::lemma_swap_last(two, dp, q);
    }
    assert(c * dd == (two * c) * dx - u * c) by {
        exact::lemma_swap_first(c, two, dx - dp * q);
        exact::lemma_in_front(c, dx, dp * q);
        exact::lemma_regroup(two, c, dx);
        exact::lemma_commute(dp, q);
        exact::lemma_regroup(two, q, dp);
        exact::lemma_commute(c, q * dp);
        exact::lemma_regroup(two, q * dp, c);
    }
    exact::lemma_in_front(u, d, c);
    assert(top == u * (d - c) + (two * c) * dx);
    exact::lemma_factor(u * (d - c), (two * c) * dx, i);
    exact::lemma_swap_last(two * c, dx, i);
    assert((u * (d - c)) * i == (((two * q) * i) * (d - c)) * dp) by {
        exact::lemma_swap_last(u, d - c, i);
        exact::lemma_swap_last(two * q, dp, i);
        exact::lemma_swap_last((two * q) * i, dp, d - c);
    }
    exact::lemma_factor_difference(top, cd * bottom, i);
    exact::lemma_factor_difference(((two * q) * i) * (d - c), k * (ia - ib), dp);
    exact::lemma_opposite(cd * ib, ds);
}

/// The statistics of a pixel where the similarity is smooth: the prediction
/// varies, and the similarity lies within the unit.
pub open spec fn smooth_stats<S: Geometric>(value: spec_fn(S) -> real, s: Stats<S>) -> bool {
    let t = image_loss::terms_of(s);
    let ratio = scalar::quotient(
        scalar::product(t.c_top, t.d_top),
        scalar::product(t.a, t.b),
    );
    &&& value(s.m1) > value(s.m0) * value(s.m0)
    &&& -(1 as real) < value(ratio) < 1 as real
}

/// The stabilizers are above zero.
pub open spec fn stabilized<S: Geometric>(value: spec_fn(S) -> real) -> bool {
    &&& value(scalar::literal("0.01")) > 0 as real
    &&& value(scalar::literal("0.03")) > 0 as real
}

proof fn lemma_square_above(x: real)
    by (nonlinear_arith)
    ensures
        x * x >= 0 as real,
        x > 0 as real ==> x * x > 0 as real,
{
}

/// The four factors of the similarity and their slopes.
proof fn lemma_terms<S: Geometric>(
    value: spec_fn(S) -> real,
    slope: spec_fn(S) -> real,
    s: Stats<S>,
)
    requires
        slope::is_slope(value, slope),
        slope::follows_branches(value, slope),
        stabilized(value),
        slope(s.m2) == 0 as real,
        slope(s.m3) == 0 as real,
        value(s.m1) > value(s.m0) * value(s.m0),
    ensures
        ({
            let t = image_loss::terms_of(s);
            let two = 2 as real;
            let (p, q) = (value(s.m0), value(s.m2));
            let (dp, ds, dx) = (slope(s.m0), slope(s.m1), slope(s.m4));
            &&& value(t.a) > 0 as real
            &&& value(t.b) > 0 as real
            &&& slope(t.a) == dp * p + p * dp
            &&& slope(t.b) == ds - (dp * p + p * dp)
            &&& slope(t.c_top) == (two * dp) * q
            &&& slope(t.d_top) == two * (dx - dp * q)
            &&& value(t.mu1) == p
            &&& value(t.mu2) == q
        }),
{
    reveal(scalar::c1);
    reveal(scalar::c2);
    slope::lemma_constants(value, slope);
    lemma_square_above(value(s.m0));
    lemma_square_above(value(s.m2));
    lemma_square_above(value(scalar::literal("0.01")));
    lemma_square_above(value(scalar::literal("0.03")));
}

/// The similarity moves by its derivatives.
proof fn lemma_ssim_slope<S: Geometric>(
    value: spec_fn(S) -> real,
    slope: spec_fn(S) -> real,
    s: Stats<S>,
)
    requires
        slope::is_slope(value, slope),
        slope::follows_branches(value, slope),
        stabilized(value),
        slope(s.m2) == 0 as real,
        slope(s.m3) == 0 as real,
        smooth_stats(value, s),
    ensures
        ({
            let t = image_loss::terms_of(s);
            let d = image_loss::partials_of(t);
            slope(image_loss::ssim(t)) == value(d.dmu1) * slope(s.m0) + value(d.dsigma1) * slope(
                s.m1,
            ) + value(d.dsigma12) * slope(s.m4)
        }),
{
    slope::lemma_constants(value, slope);
    lemma_terms(value, slope, s);
    let t = image_loss::terms_of(s);
    let (one, two) = (1 as real, 2 as real);
    let (a, b) = (value(t.a), value(t.b));
    let (c, d) = (value(t.c_top), value(t.d_top));
    lemma_inverse_of_product(a, b);
    let i = one / (a * b);
    let (ia, ib) = (one / a, one / b);
    let (dp, ds, dx) = (slope(s.m0), slope(s.m1), slope(s.m4));
    lemma_similarity_slope(value(s.m0), value(s.m2), a, b, c, d, i, ia, ib, dp, ds, dx);
    projection::lemma_quotient(c * d, a * b);
    let top = slope(scalar::product(t.c_top, t.d_top));
    let bottom = slope(scalar::product(t.a, t.b));
    projection::lemma_quotient(top - ((c * d) / (a * b)) * bottom, a * b);
    let cd = (c * d) * i;
    projection::lemma_quotient(-cd, b);
    exact::lemma_opposite(cd, ib);
    let ratio = scalar::quotient(scalar::product(t.c_top, t.d_top), scalar::product(t.a, t.b));
    assert(value(ratio) == cd);
    assert(slope(ratio) == (top - cd * bottom) * i);
}

/// The configuration of a scene stands still.
pub open spec fn scene_rests<S: Geometric>(slope: spec_fn(S) -> real, sc: Scene<S>) -> bool {
    &&& slope(sc.cfg.l1_weight) == 0 as real
    &&& slope(sc.cfg.ssim_weight) == 0 as real
    &&& slope(sc.cfg.alpha_weight) == 0 as real
    &&& sc.cfg.composite_bg matches Some(bg) ==> slope(bg.r) == 0 as real && slope(bg.g)
        == 0 as real && slope(bg.b) == 0 as real
}

/// What a channel of a pixel is compared with.
pub open spec fn target_at<S: Geometric>(sc: Scene<S>, c: int, y: int, x: int) -> S {
    if c == 3 {
        image_loss::alpha_at(sc, y, x)
    } else {
        image_loss::gt_at(sc, c, y, x)
    }
}

/// Every pixel of a channel differs from its target, and the similarity is
/// smooth at each where it counts.
pub open spec fn is_smooth<S: Geometric>(
    value: spec_fn(S) -> real,
    sc: Scene<S>,
    l1_only: bool,
    c: int,
) -> bool {
    forall|y: int, x: int|
        #![trigger image_loss::pred_at(sc, c, y, x)]
        image_loss::inside(sc.h, sc.w, y, x) ==> {
            &&& value(image_loss::pred_at(sc, c, y, x)) != value(target_at(sc, c, y, x))
            &&& c != 3 && !l1_only ==> smooth_stats(value, image_loss::stats_at(sc, c, y, x))
        }
}

/// The ground truth stands still.
proof fn lemma_truth_rests<S: Geometric>(
    value: spec_fn(S) -> real,
    slope: spec_fn(S) -> real,
    sc: Scene<S>,
    c: int,
    y: int,
    x: int,
)
    requires
        slope::is_slope(value, slope),
        scene_rests(slope, sc),
    ensures
        slope(image_loss::gt_at(sc, c, y, x)) == 0 as real,
        slope(image_loss::alpha_at(sc, y, x)) == 0 as real,
{
    reveal(scalar::from_byte);
    slope::lemma_constants(value, slope);
}

/// The sign of a difference, as a number.
proof fn lemma_sign<S: Geometric>(
    value: spec_fn(S) -> real,
    slope: spec_fn(S) -> real,
    p: S,
    g: S,
)
    requires
        slope::is_slope(value, slope),
        slope::follows_branches(value, slope),
        slope(g) == 0 as real,
        value(p) != value(g),
    ensures
        ({
            let diff = scalar::difference(p, g);
            slope(scalar::magnitude(diff)) == value(image_loss::sign(diff)) * slope(p)
        }),
{
    let diff = scalar::difference(p, g);
    let one = 1 as real;
    assert(one * slope(p) == slope(p));
    exact::lemma_opposite(one, slope(p));
}

/// The chain of a pixel: what its loss is multiplied by in the whole, in
/// numbers.
spec fn gain<S: Geometric>(
    value: spec_fn(S) -> real,
    sc: Scene<S>,
    upstream: Seq<S>,
    weight: S,
    c: int,
    y: int,
    x: int,
) -> real {
    value(
        scalar::product(
            upstream[c * image_loss::tile_count(sc.h, sc.w) + image_loss::tile_of(sc.w, y, x)],
            weight,
        ),
    )
}

/// Masking moves from the loss to the chain.
proof fn lemma_masked<S: Geometric>(
    value: spec_fn(S) -> real,
    slope: spec_fn(S) -> real,
    sc: Scene<S>,
    upstream: Seq<S>,
    weight: S,
    c: int,
    y: int,
    x: int,
    raw: S,
)
    requires
        slope::is_slope(value, slope),
        scene_rests(slope, sc),
        image_loss::inside(sc.h, sc.w, y, x),
    ensures
        gain(value, sc, upstream, weight, c, y, x) * slope(
            image_loss::masked(sc.cfg.mask, raw, image_loss::alpha_at(sc, y, x)),
        ) == value(image_loss::chain_at(sc, upstream, weight, c, y, x)) * slope(raw),
{
    slope::lemma_constants(value, slope);
    lemma_truth_rests(value, slope, sc, c, y, x);
    let u = gain(value, sc, upstream, weight, c, y, x);
    let alpha = value(image_loss::alpha_at(sc, y, x));
    exact::lemma_regroup(u, alpha, slope(raw));
    exact::lemma_commute(slope(raw), alpha);
}

/// Outside of the image nothing reaches a pixel.
proof fn lemma_chain_outside<S: Geometric>(
    value: spec_fn(S) -> real,
    sc: Scene<S>,
    upstream: Seq<S>,
    weight: S,
    c: int,
    y: int,
    x: int,
)
    requires
        exact::is_exact(value),
        !image_loss::inside(sc.h, sc.w, y, x),
    ensures
        value(image_loss::chain_at(sc, upstream, weight, c, y, x)) == 0 as real,
{
    exact::products_with_zero_and_one(value);
}

/// The slope of a pixel's loss, times its gain, where the similarity does not
/// count.
proof fn lemma_direct_pixel<S: Geometric>(
    value: spec_fn(S) -> real,
    slope: spec_fn(S) -> real,
    sc: Scene<S>,
    upstream: Seq<S>,
    weights: ChannelWeights<S>,
    l1_only: bool,
    c: int,
    y: int,
    x: int,
)
    requires
        slope::is_slope(value, slope),
        slope::follows_branches(value, slope),
        scene_rests(slope, sc),
        is_smooth(value, sc, l1_only, c),
        image_loss::inside(sc.h, sc.w, y, x),
        c == 3 || l1_only,
    ensures
        ({
            let weight = if c == 3 {
                weights.alpha
            } else {
                weights.rgb
            };
            gain(value, sc, upstream, weight, c, y, x) * slope(
                image_loss::loss_at(sc, l1_only, c, y, x),
            ) == value(
                image_loss::gradient_with(
                    sc,
                    PartialSource::Recomputed,
                    upstream,
                    weights,
                    true,
                    l1_only,
                    c,
                    y,
                    x,
                ),
            ) * slope(image_loss::pred_at(sc, c, y, x))
        }),
{
    slope::lemma_constants(value, slope);
    lemma_truth_rests(value, slope, sc, c, y, x);
    let weight = if c == 3 {
        weights.alpha
    } else {
        weights.rgb
    };
    let p = image_loss::pred_at(sc, c, y, x);
    let g = target_at(sc, c, y, x);
    lemma_sign(value, slope, p, g);
    let diff = scalar::difference(p, g);
    let sign = value(image_loss::sign(diff));
    let chain = value(image_loss::chain_at(sc, upstream, weight, c, y, x));
    let dp = slope(p);
    if c == 3 {
        lemma_masked(
            value,
            slope,
            sc,
            upstream,
            weight,
            c,
            y,
            x,
            scalar::magnitude(diff),
        );
        exact::lemma_regroup(chain, sign, dp);
        exact::lemma_commute(chain, sign);
    } else {
        let l1 = value(sc.cfg.l1_weight);
        lemma_masked(
            value,
            slope,
            sc,
            upstream,
            weight,
            c,
            y,
            x,
            scalar::product(sc.cfg.l1_weight, scalar::magnitude(diff)),
        );
        exact::lemma_regroup(l1, sign, dp);
        exact::lemma_regroup(chain, l1 * sign, dp);
        exact::lemma_commute(chain, l1 * sign);
    }
}

/// A statistic of the ground truth stands still.
proof fn lemma_truth_stats_rest<S: Geometric>(
    value: spec_fn(S) -> real,
    slope: spec_fn(S) -> real,
    sc: Scene<S>,
    c: int,
    k: int,
    y: int,
    x: int,
)
    requires
        slope::is_slope(value, slope),
        scene_rests(slope, sc),
        k == 2 || k == 3,
    ensures
        slope(image_loss::stat(sc, c, k, y, x)) == 0 as real,
{
    slope::lemma_constants(value, slope);
    lemma_stat_slope(value, slope, sc, c, k, y, x);
    let t = tap_value(value);
    let plane = moment_slope(slope, sc, c, k);
    let column = sum_slope::plane_column(sum_slope::row_blur(t, plane), x);
    assert forall|i: int| #[trigger] column(i) == 0 as real by {
        let row = sum_slope::plane_row(plane, i);
        assert forall|j: int| #[trigger] row(j) == 0 as real by {
            lemma_truth_rests(value, slope, sc, c, i, j);
        }
        sum_slope::lemma_blur_zero(t, row, x);
    }
    sum_slope::lemma_blur_zero(t, column, y);
}

/// A weighted derivative times the slope of its statistic.
spec fn similarity_part<S: Geometric>(
    value: spec_fn(S) -> real,
    slope: spec_fn(S) -> real,
    sc: Scene<S>,
    upstream: Seq<S>,
    weight: S,
    c: int,
    j: int,
    k: int,
) -> spec_fn(int, int) -> real {
    |y: int, x: int|
        partial_value(value, sc, upstream, weight, c, j)(y, x) * sum_slope::plane_blur(
            tap_value(value),
            moment_slope(slope, sc, c, k),
        )(y, x)
}

proof fn lemma_similar_pixel_terms(
    chain: real,
    l1: real,
    sign: real,
    dp: real,
    sw: real,
    d: (real, real, real),
    b: (real, real, real),
)
    ensures
        chain * (l1 * (sign * dp) + sw * (d.0 * b.0 + d.1 * b.1 + d.2 * b.2)) == ((l1 * sign)
            * chain) * dp + sw * ((d.0 * chain) * b.0 + (d.1 * chain) * b.1 + (d.2 * chain) * b.2),
{
    let sum = d.0 * b.0 + d.1 * b.1 + d.2 * b.2;
    exact::lemma_in_front(chain, l1 * (sign * dp), sw * sum);
    exact::lemma_regroup(l1, sign, dp);
    exact::lemma_regroup(chain, l1 * sign, dp);
    exact::lemma_commute(chain, l1 * sign);
    exact::lemma_swap_first(chain, sw, sum);
    exact::lemma_in_front_of_three(chain, d.0, b.0, d.1, b.1, d.2, b.2);
    exact::lemma_commute(chain, d.0);
    exact::lemma_commute(chain, d.1);
    exact::lemma_commute(chain, d.2);
}

/// The slope of a pixel's loss, times its gain, where the similarity counts.
proof fn lemma_similar_pixel<S: Geometric>(
    value: spec_fn(S) -> real,
    slope: spec_fn(S) -> real,
    sc: Scene<S>,
    upstream: Seq<S>,
    weight: S,
    c: int,
    y: int,
    x: int,
)
    requires
        slope::is_slope(value, slope),
        slope::follows_branches(value, slope),
        stabilized(value),
        scene_rests(slope, sc),
        is_smooth(value, sc, false, c),
        image_loss::inside(sc.h, sc.w, y, x),
        c != 3,
    ensures
        gain(value, sc, upstream, weight, c, y, x) * slope(
            image_loss::loss_at(sc, false, c, y, x),
        ) == value(
            scalar::product(
                scalar::product(
                    sc.cfg.l1_weight,
                    image_loss::sign(
                        scalar::difference(
                            image_loss::pred_at(sc, c, y, x),
                            image_loss::gt_at(sc, c, y, x),
                        ),
                    ),
                ),
                image_loss::chain_at(sc, upstream, weight, c, y, x),
            ),
        ) * slope(image_loss::pred_at(sc, c, y, x)) + value(sc.cfg.ssim_weight) * (similarity_part(
            value,
            slope,
            sc,
            upstream,
            weight,
            c,
            0,
            0,
        )(y, x) + similarity_part(value, slope, sc, upstream, weight, c, 1, 1)(y, x)
            + similarity_part(value, slope, sc, upstream, weight, c, 2, 4)(y, x)),
{
    slope::lemma_constants(value, slope);
    lemma_truth_rests(value, slope, sc, c, y, x);
    lemma_truth_stats_rest(value, slope, sc, c, 2, y, x);
    lemma_truth_stats_rest(value, slope, sc, c, 3, y, x);
    let stats = image_loss::stats_at(sc, c, y, x);
    let terms = image_loss::terms_of(stats);
    let (p, g) = (image_loss::pred_at(sc, c, y, x), image_loss::gt_at(sc, c, y, x));
    lemma_ssim_slope(value, slope, stats);
    lemma_sign(value, slope, p, g);
    lemma_masked(
        value,
        slope,
        sc,
        upstream,
        weight,
        c,
        y,
        x,
        image_loss::combined(sc.cfg, p, g, terms),
    );
    lemma_stat_slope(value, slope, sc, c, 0, y, x);
    lemma_stat_slope(value, slope, sc, c, 1, y, x);
    lemma_stat_slope(value, slope, sc, c, 4, y, x);
    let d = image_loss::partials_of(terms);
    let sign = value(image_loss::sign(scalar::difference(p, g)));
    lemma_similar_pixel_terms(
        value(image_loss::chain_at(sc, upstream, weight, c, y, x)),
        value(sc.cfg.l1_weight),
        sign,
        slope(p),
        value(sc.cfg.ssim_weight),
        (value(d.dmu1), value(d.dsigma1), value(d.dsigma12)),
        (slope(stats.m0), slope(stats.m1), slope(stats.m4)),
    );
}

/// What is spread back to a pixel times the slope of its moment.
spec fn spread_part<S: Geometric>(
    value: spec_fn(S) -> real,
    slope: spec_fn(S) -> real,
    sc: Scene<S>,
    upstream: Seq<S>,
    weight: S,
    c: int,
    j: int,
    k: int,
) -> spec_fn(int, int) -> real {
    |y: int, x: int|
        sum_slope::plane_blur(tap_value(value), partial_value(value, sc, upstream, weight, c, j))(
            y,
            x,
        ) * moment_slope(slope, sc, c, k)(y, x)
}

/// Over the image, the weighted derivatives times the slopes of the statistics
/// add up to what is spread back times the slopes of the moments.
proof fn lemma_spread_back<S: Geometric>(
    value: spec_fn(S) -> real,
    slope: spec_fn(S) -> real,
    sc: Scene<S>,
    upstream: Seq<S>,
    weight: S,
    c: int,
    j: int,
    k: int,
)
    requires
        slope::is_slope(value, slope),
        scene_rests(slope, sc),
        0 <= sc.h,
        0 <= sc.w,
        k == 0 || k == 1 || k == 4,
    ensures
        sum_slope::rsum2(
            similarity_part(value, slope, sc, upstream, weight, c, j, k),
            sc.h,
            sc.w,
        ) == sum_slope::rsum2(
            spread_part(value, slope, sc, upstream, weight, c, j, k),
            sc.h,
            sc.w,
        ),
{
    let t = tap_value(value);
    let f = partial_value(value, sc, upstream, weight, c, j);
    let g = moment_slope(slope, sc, c, k);
    slope::lemma_constants(value, slope);
    assert forall|y: int, x: int| !(0 <= y < sc.h && 0 <= x < sc.w) implies #[trigger] f(y, x)
        == 0 as real by {
        lemma_chain_outside(value, sc, upstream, weight, c, y, x);
        exact::products_with_zero_and_one(value);
    }
    assert forall|y: int, x: int| !(0 <= y < sc.h && 0 <= x < sc.w) implies #[trigger] g(y, x)
        == 0 as real by {
        lemma_truth_rests(value, slope, sc, c, y, x);
        assert(image_loss::pred_at(sc, c, y, x) == scalar::zero::<S>());
        exact::lemma_times_zero(0 as real, value(image_loss::gt_at(sc, c, y, x)));
    }
    sum_slope::lemma_plane_adjoint(t, f, g, sc.h, sc.w);
    sum_slope::lemma_rsum2_eq(
        similarity_part(value, slope, sc, upstream, weight, c, j, k),
        |y: int, x: int| f(y, x) * sum_slope::plane_blur(t, g)(y, x),
        sc.h,
        sc.w,
    );
    sum_slope::lemma_rsum2_eq(
        spread_part(value, slope, sc, upstream, weight, c, j, k),
        |y: int, x: int| sum_slope::plane_blur(t, f)(y, x) * g(y, x),
        sc.h,
        sc.w,
    );
}

proof fn lemma_gathered(
    sw: real,
    s: (real, real, real),
    p: real,
    g: real,
    direct: real,
    dp: real,
)
    ensures
        (sw * (s.0 + ((2 as real) * p) * s.1 + g * s.2) + direct) * dp == direct * dp + sw * (s.0
            * dp + s.1 * (dp * p + p * dp) + s.2 * (dp * g)),
{
    let two = 2 as real;
    let sum = s.0 + (two * p) * s.1 + g * s.2;
    exact::lemma_factor(sw * sum, direct, dp);
    exact::lemma_regroup(sw, sum, dp);
    exact::lemma_factor(s.0, (two * p) * s.1, dp);
    exact::lemma_factor(s.0 + (two * p) * s.1, g * s.2, dp);
    assert(((two * p) * s.1) * dp == s.1 * (dp * p + p * dp)) by {
        exact::lemma_commute(two * p, s.1);
        exact::lemma_regroup(s.1, two * p, dp);
        exact::lemma_regroup(two, p, dp);
        exact::lemma_commute(dp, p);
    }
    assert((g * s.2) * dp == s.2 * (dp * g)) by {
        exact::lemma_commute(g, s.2);
        exact::lemma_regroup(s.2, g, dp);
        exact::lemma_commute(g, dp);
    }
}

/// The gradient of a pixel times its slope, where the similarity counts.
proof fn lemma_gradient_pixel<S: Geometric>(
    value: spec_fn(S) -> real,
    slope: spec_fn(S) -> real,
    sc: Scene<S>,
    upstream: Seq<S>,
    weights: ChannelWeights<S>,
    matching: bool,
    c: int,
    y: int,
    x: int,
)
    requires
        slope::is_slope(value, slope),
        slope::follows_branches(value, slope),
        scene_rests(slope, sc),
        c != 3,
    ensures
        ({
            let p = image_loss::pred_at(sc, c, y, x);
            let g = image_loss::gt_at(sc, c, y, x);
            let part = |j: int, k: int|
                spread_part(value, slope, sc, upstream, weights.rgb, c, j, k)(y, x);
            value(
                image_loss::gradient_with(
                    sc,
                    PartialSource::Recomputed,
                    upstream,
                    weights,
                    matching,
                    false,
                    c,
                    y,
                    x,
                ),
            ) * slope(p) == value(
                scalar::product(
                    scalar::product(
                        sc.cfg.l1_weight,
                        image_loss::sign(scalar::difference(p, g)),
                    ),
                    image_loss::chain_at(sc, upstream, weights.rgb, c, y, x),
                ),
            ) * slope(p) + value(sc.cfg.ssim_weight) * (part(0, 0) + part(1, 1) + part(2, 4))
        }),
{
    slope::lemma_constants(value, slope);
    lemma_truth_rests(value, slope, sc, c, y, x);
    let p = image_loss::pred_at(sc, c, y, x);
    let g = image_loss::gt_at(sc, c, y, x);
    let weight = weights.rgb;
    lemma_spread_value(value, slope, sc, upstream, weight, c, 0, y, x);
    lemma_spread_value(value, slope, sc, upstream, weight, c, 1, y, x);
    lemma_spread_value(value, slope, sc, upstream, weight, c, 2, y, x);
    let spread = |j: int|
        value(
            image_loss::spread_at(
                sc,
                PartialSource::Recomputed,
                upstream,
                weight,
                c,
                j,
                y,
                x,
            ),
        );
    let direct = value(
        scalar::product(
            scalar::product(sc.cfg.l1_weight, image_loss::sign(scalar::difference(p, g))),
            image_loss::chain_at(sc, upstream, weight, c, y, x),
        ),
    );
    lemma_gathered(
        value(sc.cfg.ssim_weight),
        (spread(0), spread(1), spread(2)),
        value(p),
        value(g),
        direct,
        slope(p),
    );
}

/// The losses of a channel, each times its gain, in slopes.
pub open spec fn loss_slopes<S: Geometric>(
    value: spec_fn(S) -> real,
    slope: spec_fn(S) -> real,
    sc: Scene<S>,
    upstream: Seq<S>,
    weights: ChannelWeights<S>,
    l1_only: bool,
    c: int,
) -> spec_fn(int, int) -> real {
    |y: int, x: int|
        value(
            scalar::product(
                upstream[c * image_loss::tile_count(sc.h, sc.w) + image_loss::tile_of(sc.w, y, x)],
                if c == 3 {
                    weights.alpha
                } else {
                    weights.rgb
                },
            ),
        ) * slope(image_loss::loss_at(sc, l1_only, c, y, x))
}

/// The gradients of a channel, each times the slope of its pixel.
pub open spec fn gradient_slopes<S: Geometric>(
    value: spec_fn(S) -> real,
    slope: spec_fn(S) -> real,
    sc: Scene<S>,
    upstream: Seq<S>,
    weights: ChannelWeights<S>,
    l1_only: bool,
    c: int,
) -> spec_fn(int, int) -> real {
    |y: int, x: int|
        value(
            image_loss::gradient_with(
                sc,
                PartialSource::Recomputed,
                upstream,
                weights,
                true,
                l1_only,
                c,
                y,
                x,
            ),
        ) * slope(image_loss::pred_at(sc, c, y, x))
}

/// The gradient of the image loss is its slope, pixel by pixel: however the
/// prediction moves, the losses of a channel, each times what reaches its pixel,
/// move by the gradients of the channel times the slopes of its pixels. This is
/// where no pixel equals its target and the similarity is not held.
pub proof fn pixel_gradients_are_the_slope<S: Geometric>(
    value: spec_fn(S) -> real,
    slope: spec_fn(S) -> real,
    sc: Scene<S>,
    upstream: Seq<S>,
    weights: ChannelWeights<S>,
    l1_only: bool,
    c: int,
)
    requires
        slope::is_slope(value, slope),
        slope::follows_branches(value, slope),
        stabilized(value),
        scene_rests(slope, sc),
        is_smooth(value, sc, l1_only, c),
        0 <= sc.h,
        0 <= sc.w,
    ensures
        sum_slope::rsum2(
            loss_slopes(value, slope, sc, upstream, weights, l1_only, c),
            sc.h,
            sc.w,
        ) == sum_slope::rsum2(
            gradient_slopes(value, slope, sc, upstream, weights, l1_only, c),
            sc.h,
            sc.w,
        ),
{
    let (h, w) = (sc.h, sc.w);
    let left = loss_slopes(value, slope, sc, upstream, weights, l1_only, c);
    let right = gradient_slopes(value, slope, sc, upstream, weights, l1_only, c);
    if c == 3 || l1_only {
        assert forall|y: int, x: int| 0 <= y < h && 0 <= x < w implies #[trigger] left(y, x)
            == right(y, x) by {
            lemma_direct_pixel(value, slope, sc, upstream, weights, l1_only, c, y, x);
        }
        sum_slope::lemma_rsum2_eq(left, right, h, w);
    } else {
        let weight = weights.rgb;
        let sw = value(sc.cfg.ssim_weight);
        let direct = |y: int, x: int|
            value(
                scalar::product(
                    scalar::product(
                        sc.cfg.l1_weight,
                        image_loss::sign(
                            scalar::difference(
                                image_loss::pred_at(sc, c, y, x),
                                image_loss::gt_at(sc, c, y, x),
                            ),
                        ),
                    ),
                    image_loss::chain_at(sc, upstream, weight, c, y, x),
                ),
            ) * slope(image_loss::pred_at(sc, c, y, x));
        let (a0, a1, a2) = (
            similarity_part(value, slope, sc, upstream, weight, c, 0, 0),
            similarity_part(value, slope, sc, upstream, weight, c, 1, 1),
            similarity_part(value, slope, sc, upstream, weight, c, 2, 4),
        );
        let (b0, b1, b2) = (
            spread_part(value, slope, sc, upstream, weight, c, 0, 0),
            spread_part(value, slope, sc, upstream, weight, c, 1, 1),
            spread_part(value, slope, sc, upstream, weight, c, 2, 4),
        );
        lemma_spread_back(value, slope, sc, upstream, weight, c, 0, 0);
        lemma_spread_back(value, slope, sc, upstream, weight, c, 1, 1);
        lemma_spread_back(value, slope, sc, upstream, weight, c, 2, 4);
        assert forall|y: int, x: int| 0 <= y < h && 0 <= x < w implies #[trigger] left(y, x)
            == direct(y, x) + sw * (a0(y, x) + a1(y, x) + a2(y, x)) by {
            lemma_similar_pixel(value, slope, sc, upstream, weight, c, y, x);
        }
        assert forall|y: int, x: int| 0 <= y < h && 0 <= x < w implies #[trigger] right(y, x)
            == direct(y, x) + sw * (b0(y, x) + b1(y, x) + b2(y, x)) by {
            lemma_gradient_pixel(value, slope, sc, upstream, weights, true, c, y, x);
        }
        lemma_three_parts(left, direct, sw, a0, a1, a2, h, w);
        lemma_three_parts(right, direct, sw, b0, b1, b2, h, w);
    }
}

proof fn lemma_three_parts(
    f: spec_fn(int, int) -> real,
    d: spec_fn(int, int) -> real,
    k: real,
    a: spec_fn(int, int) -> real,
    b: spec_fn(int, int) -> real,
    c: spec_fn(int, int) -> real,
    h: int,
    w: int,
)
    requires
        forall|y: int, x: int|
            0 <= y < h && 0 <= x < w ==> #[trigger] f(y, x) == d(y, x) + k * (a(y, x) + b(y, x) + c(
                y,
                x,
            )),
    ensures
        sum_slope::rsum2(f, h, w) == sum_slope::rsum2(d, h, w) + k * (sum_slope::rsum2(a, h, w)
            + sum_slope::rsum2(b, h, w) + sum_slope::rsum2(c, h, w)),
{
    let ab = |y: int, x: int| a(y, x) + b(y, x);
    let abc = |y: int, x: int| ab(y, x) + c(y, x);
    let scaled = |y: int, x: int| k * abc(y, x);
    sum_slope::lemma_rsum2_add(a, b, ab, h, w);
    sum_slope::lemma_rsum2_add(ab, c, abc, h, w);
    sum_slope::lemma_rsum2_scaled(abc, k, scaled, h, w);
    sum_slope::lemma_rsum2_add(d, scaled, f, h, w);
}

/// A sum by halves moves as the sum of its values' slopes.
proof fn lemma_tree_slope<S: Geometric>(
    value: spec_fn(S) -> real,
    slope: spec_fn(S) -> real,
    values: Seq<S>,
)
    requires
        slope::is_slope(value, slope),
        loss_sums::halves(values.len()),
    ensures
        slope(image_loss::tree_sum(values)) == sum_slope::rsum(
            |i: int| slope(values[i]),
            values.len() as int,
        ),
    decreases values.len(),
{
    let f = |i: int| slope(values[i]);
    if values.len() > 1 {
        let n = (values.len() / 2) as int;
        let half = image_loss::halved(values);
        lemma_tree_slope(value, slope, half);
        let g = |i: int| f(n + i);
        sum_slope::lemma_rsum_append(f, n, n);
        let both = |i: int| slope(half[i]);
        assert forall|i: int| 0 <= i < n implies #[trigger] both(i) == f(i) + g(i) by {}
        sum_slope::lemma_rsum_add(f, g, both, n);
    } else {
        assert(sum_slope::rsum(f, 1) == sum_slope::rsum(f, 0) + f(0));
    }
}

/// The slopes of a channel's losses, each times its gain, nothing outside of the
/// image.
spec fn padded_slopes<S: Geometric>(
    value: spec_fn(S) -> real,
    slope: spec_fn(S) -> real,
    sc: Scene<S>,
    upstream: Seq<S>,
    weights: ChannelWeights<S>,
    l1_only: bool,
    c: int,
) -> spec_fn(int, int) -> real {
    |y: int, x: int|
        if image_loss::inside(sc.h, sc.w, y, x) {
            loss_slopes(value, slope, sc, upstream, weights, l1_only, c)(y, x)
        } else {
            0 as real
        }
}

/// The tiles of a plane, each times what reaches it, in slopes.
pub open spec fn tile_slopes<S: Geometric>(
    value: spec_fn(S) -> real,
    slope: spec_fn(S) -> real,
    sc: Scene<S>,
    upstream: Seq<S>,
    l1_only: bool,
    c: int,
) -> spec_fn(int) -> real {
    |t: int|
        value(upstream[c * image_loss::tile_count(sc.h, sc.w) + t]) * slope(
            image_loss::tile_partial(sc, l1_only, c, t),
        )
}

/// A tile's weighted sum moves as the losses of its pixels.
proof fn lemma_tile_slope<S: Geometric>(
    value: spec_fn(S) -> real,
    slope: spec_fn(S) -> real,
    sc: Scene<S>,
    upstream: Seq<S>,
    l1_only: bool,
    c: int,
    t: int,
)
    requires
        slope::is_slope(value, slope),
        scene_rests(slope, sc),
        0 < sc.w,
        0 <= t,
    ensures
        ({
            let across = image_loss::tiles_across(sc.w);
            let weights = image_loss::weights_of(sc.cfg, sc.h, sc.w);
            let f = padded_slopes(value, slope, sc, upstream, weights, l1_only, c);
            tile_slopes(value, slope, sc, upstream, l1_only, c)(t) == sum_slope::rsum(
                |i: int| f((t / across) * 16 + i / 16, (t % across) * 16 + i % 16),
                256,
            )
        }),
{
    slope::lemma_constants(value, slope);
    let across = image_loss::tiles_across(sc.w);
    let weights = image_loss::weights_of(sc.cfg, sc.h, sc.w);
    let weight = if c == 3 {
        weights.alpha
    } else {
        weights.rgb
    };
    assert(slope(weight) == 0 as real);
    let losses = image_loss::tile_losses(sc, l1_only, c, t);
    reveal_with_fuel(loss_sums::halves, 9);
    lemma_tree_slope(value, slope, losses);
    let u = value(upstream[c * image_loss::tile_count(sc.h, sc.w) + t]);
    let v = value(weight);
    let f = padded_slopes(value, slope, sc, upstream, weights, l1_only, c);
    let (ty, tx) = ((t / across) * 16, (t % across) * 16);
    let g = |i: int| f(ty + i / 16, tx + i % 16);
    let s = |i: int| slope(losses[i]);
    assert forall|i: int| 0 <= i < 256 implies #[trigger] g(i) == (u * v) * s(i) by {
        let (y, x) = (ty + i / 16, tx + i % 16);
        if image_loss::inside(sc.h, sc.w, y, x) {
            assert(y / 16 == t / across && x / 16 == t % across);
            vstd::arithmetic::div_mod::lemma_fundamental_div_mod(t, across);
            vstd::arithmetic::mul::lemma_mul_is_commutative(across, t / across);
            assert(image_loss::tile_of(sc.w, y, x) == t);
        } else {
            exact::lemma_times_zero(u * v, 0 as real);
        }
    }
    sum_slope::lemma_rsum_scaled(s, u * v, g, 256);
    let sum = sum_slope::rsum(s, 256);
    exact::lemma_regroup(u, v, sum);
    exact::lemma_commute(v, sum);
    sum_slope::lemma_rsum_eq(
        g,
        |i: int| f((t / across) * 16 + i / 16, (t % across) * 16 + i % 16),
        256,
    );
}

/// The gradient of the image loss is its slope: however the prediction moves,
/// the sums that the forward pass leaves for the tiles of a plane, each times
/// what reaches it, move by the gradients of the plane's channel times the
/// slopes of its pixels. It holds where no pixel equals its target and the
/// similarity is not held.
pub proof fn image_gradient_is_the_slope<S: Geometric>(
    value: spec_fn(S) -> real,
    slope: spec_fn(S) -> real,
    sc: Scene<S>,
    upstream: Seq<S>,
    l1_only: bool,
    c: int,
)
    requires
        slope::is_slope(value, slope),
        slope::follows_branches(value, slope),
        stabilized(value),
        scene_rests(slope, sc),
        is_smooth(value, sc, l1_only, c),
        0 < sc.h,
        0 < sc.w,
        0 <= c < image_loss::plane_count(sc.cfg, sc.cn),
    ensures
        sum_slope::rsum(
            tile_slopes(value, slope, sc, upstream, l1_only, c),
            image_loss::tile_count(sc.h, sc.w),
        ) == sum_slope::rsum2(
            |y: int, x: int|
                value(
                    image_loss::gradient_at(
                        sc,
                        PartialSource::Recomputed,
                        upstream,
                        l1_only,
                        c,
                        y,
                        x,
                    ),
                ) * slope(image_loss::pred_at(sc, c, y, x)),
            sc.h,
            sc.w,
        ),
{
    let weights = image_loss::weights_of(sc.cfg, sc.h, sc.w);
    let (across, down) = (image_loss::tiles_across(sc.w), image_loss::tiles_across(sc.h));
    let f = padded_slopes(value, slope, sc, upstream, weights, l1_only, c);
    let tiles = tile_slopes(value, slope, sc, upstream, l1_only, c);
    let by_pixel = |t: int|
        sum_slope::rsum(
            |i: int| f((t / across) * 16 + i / 16, (t % across) * 16 + i % 16),
            256,
        );
    let n = image_loss::tile_count(sc.h, sc.w);
    vstd::arithmetic::mul::lemma_mul_is_commutative(across, down);
    assert forall|t: int| 0 <= t < n implies #[trigger] tiles(t) == by_pixel(t) by {
        lemma_tile_slope(value, slope, sc, upstream, l1_only, c, t);
    }
    sum_slope::lemma_rsum_eq(tiles, by_pixel, n);
    assert(sum_slope::plane_within(f, sc.h, sc.w));
    sum_slope::lemma_tiles(f, down, across, sc.h, sc.w);
    sum_slope::lemma_rsum2_eq(
        f,
        loss_slopes(value, slope, sc, upstream, weights, l1_only, c),
        sc.h,
        sc.w,
    );
    pixel_gradients_are_the_slope(value, slope, sc, upstream, weights, l1_only, c);
    sum_slope::lemma_rsum2_eq(
        gradient_slopes(value, slope, sc, upstream, weights, l1_only, c),
        |y: int, x: int|
            value(
                image_loss::gradient_at(
                    sc,
                    PartialSource::Recomputed,
                    upstream,
                    l1_only,
                    c,
                    y,
                    x,
                ),
            ) * slope(image_loss::pred_at(sc, c, y, x)),
        sc.h,
        sc.w,
    );
}

/// The gradient by a pixel is the partial derivative: where that pixel alone
/// moves, at speed one, the weighed sums of the tiles move by its gradient.
pub proof fn pixel_gradient_is_the_derivative<S: Geometric>(
    value: spec_fn(S) -> real,
    slope: spec_fn(S) -> real,
    sc: Scene<S>,
    upstream: Seq<S>,
    l1_only: bool,
    c: int,
    y: int,
    x: int,
)
    requires
        slope::is_slope(value, slope),
        slope::follows_branches(value, slope),
        stabilized(value),
        scene_rests(slope, sc),
        is_smooth(value, sc, l1_only, c),
        0 < sc.h,
        0 < sc.w,
        0 <= c < image_loss::plane_count(sc.cfg, sc.cn),
        image_loss::inside(sc.h, sc.w, y, x),
        slope(image_loss::pred_at(sc, c, y, x)) == 1 as real,
        forall|b: int, a: int|
            image_loss::inside(sc.h, sc.w, b, a) && !(b == y && a == x) ==> slope(
                #[trigger] image_loss::pred_at(sc, c, b, a),
            ) == 0 as real,
    ensures
        sum_slope::rsum(
            tile_slopes(value, slope, sc, upstream, l1_only, c),
            image_loss::tile_count(sc.h, sc.w),
        ) == value(
            image_loss::gradient_at(sc, PartialSource::Recomputed, upstream, l1_only, c, y, x),
        ),
{
    image_gradient_is_the_slope(value, slope, sc, upstream, l1_only, c);
    let gradient = |b: int, a: int|
        value(
            image_loss::gradient_at(sc, PartialSource::Recomputed, upstream, l1_only, c, b, a),
        );
    let f = |b: int, a: int| gradient(b, a) * slope(image_loss::pred_at(sc, c, b, a));
    assert forall|b: int, a: int| 0 <= b < sc.h && 0 <= a < sc.w && !(b == y && a == x) implies
        #[trigger] f(b, a) == 0 as real by {
        exact::lemma_times_zero(gradient(b, a), slope(image_loss::pred_at(sc, c, b, a)));
    }
    sum_slope::lemma_rsum2_single(f, y, x, sc.h, sc.w);
    sum_slope::lemma_rsum2_eq(
        f,
        |b: int, a: int|
            value(
                image_loss::gradient_at(
                    sc,
                    PartialSource::Recomputed,
                    upstream,
                    l1_only,
                    c,
                    b,
                    a,
                ),
            ) * slope(image_loss::pred_at(sc, c, b, a)),
        sc.h,
        sc.w,
    );
    assert(gradient(y, x) * (1 as real) == gradient(y, x));
}

} // verus!
