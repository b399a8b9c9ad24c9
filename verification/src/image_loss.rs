//! What the image loss is at a pixel: the samples it reads, the blurred
//! statistics, the similarity and its derivatives, and the upstream gradient.
//!
//! Everything here is stated in image coordinates. The kernels work on tiles;
//! that their tiles do not show in their results is part of their contracts.
use vstd::prelude::*;

use crate::scalar;
use crate::scalar::{
    eval_less, eval_magnitude, eval_minus, eval_negated, eval_one, eval_over,
    eval_plus, eval_times, eval_two, eval_zero, eval_c1, eval_c2, eval_larger, eval_within_unit,
    Scalar,
};
use crate::stencil;

verus! {

/// Side of the square tiles that the loss kernel reduces.
pub const TILE_SIZE: usize = 16;

/// A colour.
#[derive(Clone, Copy)]
pub struct Rgb<S> {
    pub r: S,
    pub g: S,
    pub b: S,
}

/// Image-loss configuration.
#[derive(Clone, Copy)]
pub struct ImageLossConfig<S> {
    pub l1_weight: S,
    pub ssim_weight: S,
    /// The colour behind the transparent part of the ground truth, where the
    /// prediction is to be compared against the composite.
    pub composite_bg: Option<Rgb<S>>,
    /// Whether each pixel's loss is multiplied by the ground truth's alpha.
    pub mask: bool,
    /// The weight of the alpha-match term of a four-channel prediction.
    pub alpha_weight: S,
}

/// A prediction of `h * w` pixels of `cn` channels each, and the packed ground
/// truth it is compared with.
pub struct Scene<S> {
    pub pred: Seq<S>,
    pub gt: Seq<u32>,
    pub h: int,
    pub w: int,
    pub cn: int,
    pub cfg: ImageLossConfig<S>,
}

pub open spec fn inside(h: int, w: int, y: int, x: int) -> bool {
    0 <= y < h && 0 <= x < w
}

/// One of the four bytes of a packed pixel, red first.
pub open spec fn byte_of(pixel: u32, k: u32) -> u32 {
    (pixel >> ((k * 8) as u32)) & 0xff
}

pub(crate) fn unpack_byte(pixel: u32, k: u32) -> (r: u32)
    requires
        k < 4,
    ensures
        r == byte_of(pixel, k),
        r < 256,
{
    let shift: u32 = k * 8;
    let r: u32 = (pixel >> shift) & 0xff;
    assert(r < 256) by (bit_vector)
        requires
            r == (pixel >> shift) & 0xff,
    ;
    r
}

/// The index of a pixel's channel.
pub open spec fn pixel_slot(w: int, cn: int, y: int, x: int, c: int) -> int {
    (y * w + x) * cn + c
}

/// The prediction at a pixel, zero outside of the image.
pub open spec fn pred_at<S: Scalar>(sc: Scene<S>, c: int, y: int, x: int) -> S {
    if inside(sc.h, sc.w, y, x) {
        sc.pred[pixel_slot(sc.w, sc.cn, y, x, c)]
    } else {
        scalar::zero()
    }
}

/// A byte of the ground truth at a pixel, zero outside of the image.
pub open spec fn gt_byte_at<S: Scalar>(sc: Scene<S>, k: int, y: int, x: int) -> S {
    if inside(sc.h, sc.w, y, x) {
        scalar::from_byte(byte_of(sc.gt[y * sc.w + x], k as u32))
    } else {
        scalar::zero()
    }
}

pub open spec fn alpha_at<S: Scalar>(sc: Scene<S>, y: int, x: int) -> S {
    gt_byte_at(sc, 3, y, x)
}

pub open spec fn background<S>(bg: Rgb<S>, c: int) -> S {
    if c == 0 {
        bg.r
    } else if c == 1 {
        bg.g
    } else {
        bg.b
    }
}

/// The colour that a prediction is compared with: the ground truth itself, or
/// what it looks like over the background.
pub open spec fn effective<S: Scalar>(bg: Option<Rgb<S>>, c: int, color: S, alpha: S) -> S {
    match bg {
        None => color,
        Some(bg) => scalar::sum(
            color,
            scalar::product(scalar::difference(scalar::one(), alpha), background(bg, c)),
        ),
    }
}

pub open spec fn gt_at<S: Scalar>(sc: Scene<S>, c: int, y: int, x: int) -> S {
    effective(sc.cfg.composite_bg, c, gt_byte_at(sc, c, y, x), alpha_at(sc, y, x))
}

/// Composites a ground-truth colour.
pub(crate) fn composite<S: Scalar>(bg: Option<Rgb<S>>, c: u32, color: S, alpha: S) -> (r: S)
    ensures
        scalar::deterministic::<S>() ==> r == effective(bg, c as int, color, alpha),
{
    match bg {
        None => color,
        Some(bg) => {
            let behind: S = if c == 0 {
                bg.r
            } else if c == 1 {
                bg.g
            } else {
                bg.b
            };
            eval_plus(color, eval_times(eval_minus(eval_one(), alpha), behind))
        },
    }
}

/// The `k`th moment of the samples of a row, as a function of the column.
pub open spec fn row_moments<S: Scalar>(sc: Scene<S>, c: int, k: int, y: int) -> spec_fn(int) -> S {
    |x: int| stencil::moment(k, pred_at(sc, c, y, x), gt_at(sc, c, y, x))
}

pub open spec fn row_stat<S: Scalar>(sc: Scene<S>, c: int, k: int, y: int, x: int) -> S {
    stencil::blur(row_moments(sc, c, k, y), x)
}

pub open spec fn column_stats<S: Scalar>(sc: Scene<S>, c: int, k: int, x: int) -> spec_fn(int) -> S {
    |y: int| row_stat(sc, c, k, y, x)
}

/// The blurred `k`th moment at a pixel.
pub open spec fn stat<S: Scalar>(sc: Scene<S>, c: int, k: int, y: int, x: int) -> S {
    stencil::blur(column_stats(sc, c, k, x), y)
}

/// The blurred moments: of the prediction, its square, the ground truth, its
/// square, and their product.
#[derive(Clone, Copy)]
pub struct Stats<S> {
    pub m0: S,
    pub m1: S,
    pub m2: S,
    pub m3: S,
    pub m4: S,
}

pub open spec fn stats_at<S: Scalar>(sc: Scene<S>, c: int, y: int, x: int) -> Stats<S> {
    Stats {
        m0: stat(sc, c, 0, y, x),
        m1: stat(sc, c, 1, y, x),
        m2: stat(sc, c, 2, y, x),
        m3: stat(sc, c, 3, y, x),
        m4: stat(sc, c, 4, y, x),
    }
}

/// The factors of the structural similarity.
#[derive(Clone, Copy)]
pub struct SsimTerms<S> {
    pub mu1: S,
    pub mu2: S,
    pub a: S,
    pub b: S,
    pub c_top: S,
    pub d_top: S,
}

/// The variance of a sample, which rounding is kept from making negative.
pub open spec fn variance<S: Scalar>(square: S, mean: S) -> S {
    scalar::larger(scalar::zero(), scalar::difference(square, scalar::product(mean, mean)))
}

pub open spec fn terms_of<S: Scalar>(s: Stats<S>) -> SsimTerms<S> {
    let covariance = scalar::difference(s.m4, scalar::product(s.m0, s.m2));
    SsimTerms {
        mu1: s.m0,
        mu2: s.m2,
        a: scalar::sum(
            scalar::sum(scalar::product(s.m0, s.m0), scalar::product(s.m2, s.m2)),
            scalar::c1(),
        ),
        b: scalar::sum(scalar::sum(variance(s.m1, s.m0), variance(s.m3, s.m2)), scalar::c2()),
        c_top: scalar::sum(
            scalar::product(scalar::product(scalar::two(), s.m0), s.m2),
            scalar::c1(),
        ),
        d_top: scalar::sum(scalar::product(scalar::two(), covariance), scalar::c2()),
    }
}

pub(crate) fn ssim_terms<S: Scalar>(s: Stats<S>) -> (r: SsimTerms<S>)
    ensures
        scalar::deterministic::<S>() ==> r == terms_of(s),
{
    let mu1_sq: S = eval_times(s.m0, s.m0);
    let mu2_sq: S = eval_times(s.m2, s.m2);
    let sigma1_sq: S = eval_larger(eval_zero(), eval_minus(s.m1, mu1_sq));
    let sigma2_sq: S = eval_larger(eval_zero(), eval_minus(s.m3, mu2_sq));
    let sigma12: S = eval_minus(s.m4, eval_times(s.m0, s.m2));
    SsimTerms {
        mu1: s.m0,
        mu2: s.m2,
        a: eval_plus(eval_plus(mu1_sq, mu2_sq), eval_c1()),
        b: eval_plus(eval_plus(sigma1_sq, sigma2_sq), eval_c2()),
        c_top: eval_plus(eval_times(eval_times(eval_two(), s.m0), s.m2), eval_c1()),
        d_top: eval_plus(eval_times(eval_two(), sigma12), eval_c2()),
    }
}

/// The structural similarity.
pub open spec fn ssim<S: Scalar>(t: SsimTerms<S>) -> S {
    scalar::within_unit(
        scalar::quotient(scalar::product(t.c_top, t.d_top), scalar::product(t.a, t.b)),
    )
}

/// The derivatives of the similarity by the mean, the variance and the
/// covariance of the prediction.
#[derive(Clone, Copy)]
pub struct SsimPartials<S> {
    pub dmu1: S,
    pub dsigma1: S,
    pub dsigma12: S,
}

pub open spec fn partials_of<S: Scalar>(t: SsimTerms<S>) -> SsimPartials<S> {
    let one = scalar::one::<S>();
    let two = scalar::two::<S>();
    let inv_ab = scalar::quotient(one, scalar::product(t.a, t.b));
    let cd = scalar::product(scalar::product(t.c_top, t.d_top), inv_ab);
    if scalar::less(cd, scalar::negation(one)) || scalar::less(one, cd) {
        SsimPartials { dmu1: scalar::zero(), dsigma1: scalar::zero(), dsigma12: scalar::zero() }
    } else {
        SsimPartials {
            dmu1: scalar::difference(
                scalar::product(
                    scalar::product(scalar::product(two, t.mu2), inv_ab),
                    scalar::difference(t.d_top, t.c_top),
                ),
                scalar::product(
                    scalar::product(scalar::product(two, t.mu1), cd),
                    scalar::difference(scalar::quotient(one, t.a), scalar::quotient(one, t.b)),
                ),
            ),
            dsigma1: scalar::quotient(scalar::negation(cd), t.b),
            dsigma12: scalar::product(scalar::product(two, t.c_top), inv_ab),
        }
    }
}

pub(crate) fn ssim_partials<S: Scalar>(t: SsimTerms<S>) -> (r: SsimPartials<S>)
    ensures
        scalar::deterministic::<S>() ==> r == partials_of(t),
{
    let one: S = eval_one();
    let two: S = eval_two();
    let inv_ab: S = eval_over(one, eval_times(t.a, t.b));
    let cd: S = eval_times(eval_times(t.c_top, t.d_top), inv_ab);
    let clamped: bool = eval_less(cd, eval_negated(one)) || eval_less(one, cd);
    if clamped {
        SsimPartials { dmu1: eval_zero(), dsigma1: eval_zero(), dsigma12: eval_zero() }
    } else {
        SsimPartials {
            dmu1: eval_minus(
                eval_times(
                    eval_times(eval_times(two, t.mu2), inv_ab),
                    eval_minus(t.d_top, t.c_top),
                ),
                eval_times(
                    eval_times(eval_times(two, t.mu1), cd),
                    eval_minus(eval_over(one, t.a), eval_over(one, t.b)),
                ),
            ),
            dsigma1: eval_over(eval_negated(cd), t.b),
            dsigma12: eval_times(eval_times(two, t.c_top), inv_ab),
        }
    }
}

/// A value, multiplied by the alpha where the configuration masks.
pub open spec fn masked<S: Scalar>(mask: bool, value: S, alpha: S) -> S {
    if mask {
        scalar::product(value, alpha)
    } else {
        value
    }
}

pub(crate) fn apply_mask<S: Scalar>(mask: bool, value: S, alpha: S) -> (r: S)
    ensures
        scalar::deterministic::<S>() ==> r == masked(mask, value, alpha),
{
    if mask {
        eval_times(value, alpha)
    } else {
        value
    }
}

/// The weighted sum of the absolute difference and the similarity.
pub open spec fn combined<S: Scalar>(cfg: ImageLossConfig<S>, p: S, g: S, t: SsimTerms<S>) -> S {
    scalar::sum(
        scalar::product(cfg.l1_weight, scalar::magnitude(scalar::difference(p, g))),
        scalar::product(cfg.ssim_weight, ssim(t)),
    )
}

pub(crate) fn combine<S: Scalar>(cfg: &ImageLossConfig<S>, p: S, g: S, t: SsimTerms<S>) -> (r: S)
    ensures
        scalar::deterministic::<S>() ==> r == combined(*cfg, p, g, t),
{
    let raw: S = eval_over(eval_times(t.c_top, t.d_top), eval_times(t.a, t.b));
    let val: S = eval_within_unit(raw);
    let l1: S = eval_magnitude(eval_minus(p, g));
    eval_plus(eval_times(cfg.l1_weight, l1), eval_times(cfg.ssim_weight, val))
}

/// The loss of a channel at a pixel. The fourth channel holds the alpha match;
/// the colours skip the similarity where only the absolute difference counts.
pub open spec fn loss_at<S: Scalar>(sc: Scene<S>, l1_only: bool, c: int, y: int, x: int) -> S {
    let alpha = alpha_at(sc, y, x);
    let p = pred_at(sc, c, y, x);
    let value = if c == 3 {
        scalar::magnitude(scalar::difference(p, alpha))
    } else if l1_only {
        scalar::product(
            sc.cfg.l1_weight,
            scalar::magnitude(scalar::difference(p, gt_at(sc, c, y, x))),
        )
    } else {
        combined(sc.cfg, p, gt_at(sc, c, y, x), terms_of(stats_at(sc, c, y, x)))
    };
    masked(sc.cfg.mask, value, alpha)
}

/// Forward tiles across an image.
pub open spec fn tiles_across(n: int) -> int {
    (n + 15) / 16
}

/// Tiles that an image splits into.
pub open spec fn tile_count(h: int, w: int) -> int {
    tiles_across(w) * tiles_across(h)
}

/// The forward tile that holds a pixel.
pub open spec fn tile_of(w: int, y: int, x: int) -> int {
    (y / 16) * tiles_across(w) + x / 16
}

/// The gradient that reaches a pixel of a channel: that of its tile's partial
/// sum, times the weight that the forward pass gave the channel; zero outside
/// of the image.
pub open spec fn chain_at<S: Scalar>(
    sc: Scene<S>,
    upstream: Seq<S>,
    weight: S,
    c: int,
    y: int,
    x: int,
) -> S {
    let value = if inside(sc.h, sc.w, y, x) {
        scalar::product(upstream[c * tile_count(sc.h, sc.w) + tile_of(sc.w, y, x)], weight)
    } else {
        scalar::zero()
    };
    masked(sc.cfg.mask, value, alpha_at(sc, y, x))
}

/// Where the derivatives of the similarity come from.
pub enum PartialSource<S> {
    /// They are computed anew.
    Recomputed,
    /// The forward pass kept them, as nine planes: the three derivatives, each
    /// for the three colours.
    Saved(Seq<S>),
}

pub open spec fn saved_slot(h: int, w: int, partial: int, c: int, y: int, x: int) -> int {
    ((partial * 3 + c) * h + y) * w + x
}

pub open spec fn pick<S>(p: SsimPartials<S>, j: int) -> S {
    if j == 0 {
        p.dmu1
    } else if j == 1 {
        p.dsigma1
    } else {
        p.dsigma12
    }
}

pub open spec fn partial_at<S: Scalar>(
    sc: Scene<S>,
    source: PartialSource<S>,
    j: int,
    c: int,
    y: int,
    x: int,
) -> S {
    match source {
        PartialSource::Recomputed => pick(partials_of(terms_of(stats_at(sc, c, y, x))), j),
        PartialSource::Saved(saved) => if inside(sc.h, sc.w, y, x) {
            saved[saved_slot(sc.h, sc.w, j, c, y, x)]
        } else {
            scalar::zero()
        },
    }
}

/// A derivative, times the gradient that reaches its pixel.
pub open spec fn weighted_partial<S: Scalar>(
    sc: Scene<S>,
    source: PartialSource<S>,
    upstream: Seq<S>,
    weight: S,
    c: int,
    j: int,
    y: int,
    x: int,
) -> S {
    scalar::product(
        partial_at(sc, source, j, c, y, x),
        chain_at(sc, upstream, weight, c, y, x),
    )
}

pub open spec fn row_partials<S: Scalar>(
    sc: Scene<S>,
    source: PartialSource<S>,
    upstream: Seq<S>,
    weight: S,
    c: int,
    j: int,
    y: int,
) -> spec_fn(int) -> S {
    |x: int| weighted_partial(sc, source, upstream, weight, c, j, y, x)
}

pub open spec fn row_spread<S: Scalar>(
    sc: Scene<S>,
    source: PartialSource<S>,
    upstream: Seq<S>,
    weight: S,
    c: int,
    j: int,
    y: int,
    x: int,
) -> S {
    stencil::blur(row_partials(sc, source, upstream, weight, c, j, y), x)
}

pub open spec fn column_spreads<S: Scalar>(
    sc: Scene<S>,
    source: PartialSource<S>,
    upstream: Seq<S>,
    weight: S,
    c: int,
    j: int,
    x: int,
) -> spec_fn(int) -> S {
    |y: int| row_spread(sc, source, upstream, weight, c, j, y, x)
}

/// The weighted derivatives, blurred back to the pixels they came from.
pub open spec fn spread_at<S: Scalar>(
    sc: Scene<S>,
    source: PartialSource<S>,
    upstream: Seq<S>,
    weight: S,
    c: int,
    j: int,
    y: int,
    x: int,
) -> S {
    stencil::blur(column_spreads(sc, source, upstream, weight, c, j, x), y)
}

pub open spec fn sign<S: Scalar>(diff: S) -> S {
    if scalar::less(scalar::zero(), diff) {
        scalar::one()
    } else if scalar::less(diff, scalar::zero()) {
        scalar::negation(scalar::one())
    } else {
        scalar::zero()
    }
}

pub(crate) fn sign_of<S: Scalar>(diff: S) -> (r: S)
    ensures
        scalar::deterministic::<S>() ==> r == sign(diff),
{
    if eval_less(eval_zero(), diff) {
        eval_one()
    } else if eval_less(diff, eval_zero()) {
        eval_negated(eval_one())
    } else {
        eval_zero()
    }
}

/// What reaches a colour of a pixel through the similarity.
pub open spec fn through_ssim<S: Scalar>(s0: S, s1: S, s2: S, p: S, g: S) -> S {
    scalar::sum(
        scalar::sum(s0, scalar::product(scalar::product(scalar::two(), p), s1)),
        scalar::product(g, s2),
    )
}

/// The two weights that turn sums over a channel into its part of the loss:
/// those of the colours and of the alpha match.
pub struct ChannelWeights<S> {
    pub rgb: S,
    pub alpha: S,
}

pub open spec fn weights_of<S: Scalar>(cfg: ImageLossConfig<S>, h: int, w: int) -> ChannelWeights<
    S,
> {
    let pixels = scalar::from_count::<S>((h * w) as u32);
    ChannelWeights {
        rgb: scalar::quotient(scalar::one(), scalar::product(scalar::three(), pixels)),
        alpha: scalar::quotient(cfg.alpha_weight, pixels),
    }
}

/// Whether the alpha-match term runs.
pub open spec fn matches_alpha<S: Scalar>(cfg: ImageLossConfig<S>, cn: int) -> bool {
    scalar::less(scalar::zero(), cfg.alpha_weight) && cn == 4
}

/// Channel planes that the forward kernel runs.
pub open spec fn plane_count<S: Scalar>(cfg: ImageLossConfig<S>, cn: int) -> int {
    if matches_alpha(cfg, cn) {
        4
    } else {
        3
    }
}

/// The gradient of the loss by a channel of a pixel.
pub open spec fn gradient_at<S: Scalar>(
    sc: Scene<S>,
    source: PartialSource<S>,
    upstream: Seq<S>,
    l1_only: bool,
    c: int,
    y: int,
    x: int,
) -> S {
    gradient_with(
        sc,
        source,
        upstream,
        weights_of(sc.cfg, sc.h, sc.w),
        matches_alpha(sc.cfg, sc.cn),
        l1_only,
        c,
        y,
        x,
    )
}

/// The gradient by a channel of a pixel of a loss whose planes have these
/// weights, with or without the plane of opacity.
pub open spec fn gradient_with<S: Scalar>(
    sc: Scene<S>,
    source: PartialSource<S>,
    upstream: Seq<S>,
    weights: ChannelWeights<S>,
    matching: bool,
    l1_only: bool,
    c: int,
    y: int,
    x: int,
) -> S {
    let p = pred_at(sc, c, y, x);
    if c == 3 {
        if matching {
            scalar::product(
                sign(scalar::difference(p, alpha_at(sc, y, x))),
                chain_at(sc, upstream, weights.alpha, 3, y, x),
            )
        } else {
            scalar::zero()
        }
    } else {
        let g = gt_at(sc, c, y, x);
        let direct = scalar::product(
            scalar::product(sc.cfg.l1_weight, sign(scalar::difference(p, g))),
            chain_at(sc, upstream, weights.rgb, c, y, x),
        );
        if l1_only {
            direct
        } else {
            scalar::sum(
                scalar::product(
                    sc.cfg.ssim_weight,
                    through_ssim(
                        spread_at(sc, source, upstream, weights.rgb, c, 0, y, x),
                        spread_at(sc, source, upstream, weights.rgb, c, 1, y, x),
                        spread_at(sc, source, upstream, weights.rgb, c, 2, y, x),
                        p,
                        g,
                    ),
                ),
                direct,
            )
        }
    }
}

/// The sum of a power of two of values, by halves: the second half is added
/// onto the first until one value is left.
pub open spec fn halved<S: Scalar>(values: Seq<S>) -> Seq<S> {
    Seq::new(
        values.len() / 2,
        |i: int| scalar::sum(values[i], values[i + values.len() / 2]),
    )
}

pub open spec fn tree_sum<S: Scalar>(values: Seq<S>) -> S
    decreases values.len(),
{
    if values.len() <= 1 {
        values[0]
    } else {
        tree_sum(halved(values))
    }
}

/// A tile's losses, row by row, zero where the tile reaches over the image's
/// edge.
pub open spec fn tile_losses<S: Scalar>(sc: Scene<S>, l1_only: bool, c: int, tile: int) -> Seq<S> {
    let ty = (tile / tiles_across(sc.w)) * 16;
    let tx = (tile % tiles_across(sc.w)) * 16;
    Seq::new(
        256,
        |i: int|
            if inside(sc.h, sc.w, ty + i / 16, tx + i % 16) {
                loss_at(sc, l1_only, c, ty + i / 16, tx + i % 16)
            } else {
                scalar::zero()
            },
    )
}

/// The weighted sum of a tile's losses.
pub open spec fn tile_partial<S: Scalar>(sc: Scene<S>, l1_only: bool, c: int, tile: int) -> S {
    let weights = weights_of(sc.cfg, sc.h, sc.w);
    scalar::product(
        tree_sum(tile_losses(sc, l1_only, c, tile)),
        if c == 3 {
            weights.alpha
        } else {
            weights.rgb
        },
    )
}

/// Gradients from kept derivatives are those from derivatives computed anew,
/// where the kept ones are those of the forward pass: outside of the image,
/// where none are kept, none reach the result either. This asks of the scalar
/// type that a product with zero is zero.
pub proof fn saved_partials_match_recomputed<S: Scalar>(
    sc: Scene<S>,
    saved: Seq<S>,
    upstream: Seq<S>,
    l1_only: bool,
    c: int,
    y: int,
    x: int,
)
    requires
        forall|a: S| #[trigger] scalar::product(a, scalar::zero()) == scalar::zero::<S>(),
        forall|j: int, k: int, yy: int, xx: int|
            0 <= j < 3 && 0 <= k < 3 && inside(sc.h, sc.w, yy, xx)
                ==> saved[#[trigger] saved_slot(sc.h, sc.w, j, k, yy, xx)] == pick(
                partials_of(terms_of(stats_at(sc, k, yy, xx))),
                j,
            ),
        0 <= c < 4,
    ensures
        gradient_at(sc, PartialSource::Saved(saved), upstream, l1_only, c, y, x) == gradient_at(
            sc,
            PartialSource::Recomputed,
            upstream,
            l1_only,
            c,
            y,
            x,
        ),
{
    if c < 3 {
        let weight = weights_of(sc.cfg, sc.h, sc.w).rgb;
        lemma_spreads_match(sc, saved, upstream, weight, c, 0, y, x);
        lemma_spreads_match(sc, saved, upstream, weight, c, 1, y, x);
        lemma_spreads_match(sc, saved, upstream, weight, c, 2, y, x);
    }
}

proof fn lemma_spreads_match<S: Scalar>(
    sc: Scene<S>,
    saved: Seq<S>,
    upstream: Seq<S>,
    weight: S,
    c: int,
    j: int,
    y: int,
    x: int,
)
    requires
        forall|a: S| #[trigger] scalar::product(a, scalar::zero()) == scalar::zero::<S>(),
        forall|j: int, k: int, yy: int, xx: int|
            0 <= j < 3 && 0 <= k < 3 && inside(sc.h, sc.w, yy, xx)
                ==> saved[#[trigger] saved_slot(sc.h, sc.w, j, k, yy, xx)] == pick(
                partials_of(terms_of(stats_at(sc, k, yy, xx))),
                j,
            ),
        0 <= c < 3,
        0 <= j < 3,
    ensures
        spread_at(sc, PartialSource::Saved(saved), upstream, weight, c, j, y, x) == spread_at(
            sc,
            PartialSource::Recomputed,
            upstream,
            weight,
            c,
            j,
            y,
            x,
        ),
{
    let kept = PartialSource::Saved(saved);
    let anew = PartialSource::<S>::Recomputed;
    let f = column_spreads(sc, kept, upstream, weight, c, j, x);
    let g = column_spreads(sc, anew, upstream, weight, c, j, x);
    assert forall|s: int| -5 <= s <= 5 implies f(#[trigger] stencil::shifted(y, s)) == g(
        stencil::shifted(y, s),
    ) by {
        let yy = stencil::shifted(y, s);
        let p = row_partials(sc, kept, upstream, weight, c, j, yy);
        let q = row_partials(sc, anew, upstream, weight, c, j, yy);
        assert forall|t: int| -5 <= t <= 5 implies p(#[trigger] stencil::shifted(x, t)) == q(
            stencil::shifted(x, t),
        ) by {
            let xx = stencil::shifted(x, t);
            let chain = chain_at(sc, upstream, weight, c, yy, xx);
            if inside(sc.h, sc.w, yy, xx) {
                assert(saved[saved_slot(sc.h, sc.w, j, c, yy, xx)] == pick(
                    partials_of(terms_of(stats_at(sc, c, yy, xx))),
                    j,
                ));
            } else {
                assert(chain == scalar::zero::<S>()) by {
                    assert(scalar::product(scalar::zero::<S>(), scalar::zero()) == scalar::zero::<
                        S,
                    >());
                }
                assert(scalar::product(partial_at(sc, kept, j, c, yy, xx), scalar::zero())
                    == scalar::zero::<S>());
                assert(scalar::product(partial_at(sc, anew, j, c, yy, xx), scalar::zero())
                    == scalar::zero::<S>());
            }
        }
        stencil::lemma_blur_agrees(p, x, q, x);
    }
    stencil::lemma_blur_agrees(f, y, g, y);
}

/// Channels of a pixel lie side by side, then pixels of a row, then rows.
pub proof fn pixels_lie_in_rows(w: int, cn: int, y: int, x: int, c: int)
    ensures
        pixel_slot(w, cn, 0, 0, 0) == 0,
        pixel_slot(w, cn, y, x, c + 1) == pixel_slot(w, cn, y, x, c) + 1,
        pixel_slot(w, cn, y, x + 1, c) == pixel_slot(w, cn, y, x, c) + cn,
        pixel_slot(w, cn, y + 1, x, c) == pixel_slot(w, cn, y, x, c) + w * cn,
{
    assert((0 * w + 0) * cn == 0) by (nonlinear_arith);
    assert((y * w + (x + 1)) * cn == (y * w + x) * cn + cn) by (nonlinear_arith);
    assert(((y + 1) * w + x) * cn == (y * w + x) * cn + w * cn) by (nonlinear_arith);
}

/// Kept derivatives lie in planes of rows: pixels of a row side by side, then
/// rows, then the planes of the three colours, then those of the next
/// derivative.
pub proof fn partials_lie_in_planes(h: int, w: int, partial: int, c: int, y: int, x: int)
    ensures
        saved_slot(h, w, 0, 0, 0, 0) == 0,
        saved_slot(h, w, partial, c, y, x + 1) == saved_slot(h, w, partial, c, y, x) + 1,
        saved_slot(h, w, partial, c, y + 1, x) == saved_slot(h, w, partial, c, y, x) + w,
        saved_slot(h, w, partial, c + 1, y, x) == saved_slot(h, w, partial, c, y, x) + h * w,
        saved_slot(h, w, partial + 1, c, y, x) == saved_slot(h, w, partial, c, y, x) + 3 * (h * w),
{
    let p = partial * 3 + c;
    assert(((0 * 3 + 0) * h + 0) * w == 0) by (nonlinear_arith);
    assert((p * h + (y + 1)) * w == (p * h + y) * w + w) by (nonlinear_arith);
    assert(((p + 1) * h + y) * w == (p * h + y) * w + h * w) by (nonlinear_arith);
    assert(((p + 3) * h + y) * w == (p * h + y) * w + 3 * (h * w)) by (nonlinear_arith);
    assert((partial + 1) * 3 + c == p + 3);
}

/// A pixel lies in the tile that holds it: its column and row are within the
/// sixteen of the tile's, and the tile is one of the image's.
pub proof fn tiles_hold_their_pixels(h: int, w: int, y: int, x: int)
    requires
        inside(h, w, y, x),
    ensures
        ({
            let t = tile_of(w, y, x);
            let n = tiles_across(w);
            &&& 0 <= t < tile_count(h, w)
            &&& 16 * (t % n) <= x < 16 * (t % n) + 16
            &&& 16 * (t / n) <= y < 16 * (t / n) + 16
        }),
{
    let n = tiles_across(w);
    let m = tiles_across(h);
    let (row, col) = (y / 16, x / 16);
    assert(0 <= col < n);
    assert(0 <= row < m);
    vstd::arithmetic::div_mod::lemma_fundamental_div_mod_converse(row * n + col, n, row, col);
    assert(0 <= row * n + col < n * m) by (nonlinear_arith)
        requires
            0 <= col < n,
            0 <= row < m,
    ;
}

} // verus!
