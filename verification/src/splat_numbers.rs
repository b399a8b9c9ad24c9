//! What splats look like, in plain numbers: their scales and opacities under a
//! floor, how they are drawn, and what a pixel gets of them.
use vstd::prelude::*;

use crate::distribution;
use crate::distribution::Recorded;
use crate::exact;
use crate::gaussian_splats::Splats;
use crate::num::{Geometric, Num, Vec3};
use crate::ply_stream;
use crate::raster_replay::PairOutcome;
use crate::raster_walk;
use crate::raster_walk::{ProjectedSplat, RasterScalar};
use crate::resize;
use crate::round_trip;
use crate::scalar;
use crate::scale_floor;
use crate::splat_data::SplatDefaults;
use crate::visualize;

verus! {

proof fn lemma_inverse_power<S: Geometric>(
    value: spec_fn(S) -> real,
    e: spec_fn(real) -> real,
    x: real,
)
    requires
        exact::exponentiates(value, e),
    ensures
        e(x) * e(-x) == 1 as real,
        e(x) > 0 as real,
        e(-x) > 0 as real,
{
    assert(x + (-x) == 0 as real);
    assert(e(x + (-x)) == e(x) * e(-x));
}

/// A number whose exponential is the odds of `p` has `p` for its logistic
/// function.
proof fn lemma_odds(p: real, odds: real, inverse: real, s: real)
    requires
        p > 0 as real,
        p < 1 as real,
        odds == p / ((1 as real) - p),
        odds * inverse == 1 as real,
        s * ((1 as real) + inverse) == 1 as real,
    ensures
        s == p,
{
    let one = 1 as real;
    round_trip::lemma_restore(p, one - p);
    // p (1 + inverse) = p + (1 - p) odds inverse = 1.
    exact::lemma_in_front(p, one, inverse);
    assert(p * one == p);
    assert(p * inverse == one - p) by {
        exact::lemma_swap_last(odds, one - p, inverse);
        assert(one * (one - p) == one - p);
    }
    let q = one + inverse;
    assert(p * q == one);
    exact::lemma_factor_difference(s, p, q);
    if s != p {
        lemma_no_factor(s - p, q);
        exact::lemma_times_zero(p, q);
    }
}

proof fn lemma_no_factor(a: real, b: real)
    by (nonlinear_arith)
    requires
        a * b == 0 as real,
        a != 0 as real,
    ensures
        b == 0 as real,
{
}

/// The inverse of the logistic function undoes it.
pub proof fn logistic_function_comes_back<S: Geometric>(
    value: spec_fn(S) -> real,
    e: spec_fn(real) -> real,
    x: Num<S>,
)
    requires
        exact::is_exact(value),
        exact::exponentiates(value, e),
        exact::of(value, x) > 0 as real,
        exact::of(value, x) < 1 as real,
    ensures
        exact::of(value, scale_floor::inverse_sigmoid(x).sigmoid()) == exact::of(value, x),
{
    let p = exact::of(value, x);
    let raw = scale_floor::inverse_sigmoid(x);
    let l = exact::of(value, raw);
    round_trip::lemma_positive_quotient(p, (1 as real) - p);
    lemma_inverse_power(value, e, l);
    lemma_odds(p, e(l), e(-l), exact::of(value, raw.sigmoid()));
}

/// The scale that a logarithm stands for.
pub open spec fn scale_number<S: Geometric>(
    value: spec_fn(S) -> real,
    e: spec_fn(real) -> real,
    log: Num<S>,
) -> real {
    e(exact::of(value, log))
}

/// `out` is the length of a hypotenuse over `a` and `b`.
pub open spec fn spans(a: real, b: real, out: real) -> bool {
    out > 0 as real && out * out == a * a + b * b
}

/// Folding a floor into a scale spans both: the square of the new scale is the
/// sum of theirs.
pub proof fn folded_scales_span_the_floor<S: Geometric>(
    value: spec_fn(S) -> real,
    e: spec_fn(real) -> real,
    log: Num<S>,
    f: Num<S>,
)
    requires
        exact::is_exact(value),
        exact::exponentiates(value, e),
    ensures
        spans(
            scale_number(value, e, log),
            exact::of(value, f),
            scale_number(value, e, scale_floor::folded_log_scale(log, f)),
        ),
{
    let two = Num { value: scalar::literal::<S>("2.0") };
    let l = exact::of(value, log);
    let fv = exact::of(value, f);
    let both = (log * two).exp() + f * f;
    assert(l * (2 as real) == l + l);
    assert(e(l + l) == e(l) * e(l));
    lemma_square(fv);
    assert(exact::of(value, both) == e(l) * e(l) + fv * fv);
    assert(e(l + l) > 0 as real);
    let folded = scale_floor::folded_log_scale(log, f);
    let g = exact::of(value, folded);
    let half = value(scalar::literal::<S>("0.5"));
    let whole = exact::of(value, both.ln());
    exact::lemma_regroup(whole, half, 2 as real);
    assert(whole * (1 as real) == whole);
    assert(g + g == whole);
    assert(e(g + g) == e(g) * e(g));
}

proof fn lemma_square(x: real)
    by (nonlinear_arith)
    ensures
        x * x >= 0 as real,
{
}

/// The volume of the scales, up to a constant.
pub open spec fn volume<S: Geometric>(
    value: spec_fn(S) -> real,
    e: spec_fn(real) -> real,
    logs: Vec3<S>,
) -> real {
    (scale_number(value, e, logs.x) * scale_number(value, e, logs.y)) * scale_number(
        value,
        e,
        logs.z,
    )
}

/// Three sums of exponents are a product of three.
proof fn lemma_three_powers<S: Geometric>(
    value: spec_fn(S) -> real,
    e: spec_fn(real) -> real,
    a: (real, real, real),
    b: (real, real, real),
)
    requires
        exact::exponentiates(value, e),
    ensures
        e((a.0 - b.0) + (a.1 - b.1) + (a.2 - b.2)) * ((e(b.0) * e(b.1)) * e(b.2)) == (e(a.0) * e(
            a.1,
        )) * e(a.2),
{
    let sum = |t: (real, real, real)| (t.0 + t.1) + t.2;
    assert(e(b.0 + b.1) == e(b.0) * e(b.1));
    assert(e((b.0 + b.1) + b.2) == e(b.0 + b.1) * e(b.2));
    assert(e(a.0 + a.1) == e(a.0) * e(a.1));
    assert(e((a.0 + a.1) + a.2) == e(a.0 + a.1) * e(a.2));
    let d = (a.0 - b.0) + (a.1 - b.1) + (a.2 - b.2);
    assert(d + sum(b) == sum(a));
    assert(e(d + sum(b)) == e(d) * e(sum(b)));
}

/// The floor thins a splat by what it grows: the ratio times the volume with the
/// floor is the volume without it.
pub proof fn floor_keeps_the_energy<S: Geometric>(
    value: spec_fn(S) -> real,
    e: spec_fn(real) -> real,
    logs: Vec3<S>,
    f: Num<S>,
)
    requires
        exact::is_exact(value),
        exact::exponentiates(value, e),
    ensures
        exact::of(value, scale_floor::energy_ratio(logs, f)) * volume(
            value,
            e,
            scale_floor::folded_log_scales(logs, f),
        ) == volume(value, e, logs),
        exact::of(value, scale_floor::energy_ratio(logs, f)) > 0 as real,
{
    let folded = scale_floor::folded_log_scales(logs, f);
    lemma_three_powers(
        value,
        e,
        (exact::of(value, logs.x), exact::of(value, logs.y), exact::of(value, logs.z)),
        (exact::of(value, folded.x), exact::of(value, folded.y), exact::of(value, folded.z)),
    );
}

/// The bounds of a folded opacity are the numbers that they denote.
pub open spec fn reads_bounds<S: Geometric>(value: spec_fn(S) -> real) -> bool {
    &&& exact::reads(value, "1e-6", 1, 1_000_000)
    &&& exact::reads(value, "0.999999", 999_999, 1_000_000)
}

/// The opacity of a splat with a floor: thinned, and kept from zero and one by a
/// millionth.
pub open spec fn thinned<S: Geometric>(
    value: spec_fn(S) -> real,
    raw: Num<S>,
    ratio: real,
) -> real {
    exact::held_real(
        exact::of(value, raw.sigmoid()) * ratio,
        (1 as real) / (1_000_000 as real),
        (999_999 as real) / (1_000_000 as real),
    )
}

/// A folded opacity is the thinned one.
pub proof fn folded_opacities_are_thinned<S: Geometric>(
    value: spec_fn(S) -> real,
    e: spec_fn(real) -> real,
    logs: Vec3<S>,
    raw: Num<S>,
    f: Num<S>,
)
    requires
        exact::is_exact(value),
        exact::chooses(value),
        exact::exponentiates(value, e),
        reads_bounds(value),
    ensures
        exact::of(value, scale_floor::folded_raw_opacity(logs, raw, f).sigmoid()) == thinned(
            value,
            raw,
            exact::of(value, scale_floor::energy_ratio(logs, f)),
        ),
{
    let (low, high) = (
        Num { value: scalar::literal::<S>("1e-6") },
        Num { value: scalar::literal::<S>("0.999999") },
    );
    let opacity = (raw.sigmoid() * scale_floor::energy_ratio(logs, f)).held(low, high);
    let p = exact::of(value, opacity);
    let (one, million) = (1 as real, 1_000_000 as real);
    assert(exact::of(value, low) == one / million);
    assert(exact::of(value, high) == (999_999 as real) / million);
    assert(one / million > 0 as real);
    assert(one / million < (999_999 as real) / million);
    assert((999_999 as real) / million < one);
    assert(p == thinned(value, raw, exact::of(value, scale_floor::energy_ratio(logs, f))));
    let folded = scale_floor::folded_raw_opacity(logs, raw, f);
    let l = exact::of(value, folded);
    assert(-p + one == one - p);
    round_trip::lemma_positive_quotient(p, one - p);
    lemma_inverse_power(value, e, l);
    lemma_odds(p, e(l), e(-l), exact::of(value, folded.sigmoid()));
}

/// Splats with a floor are wider and thinner: each scale spans the splat's own
/// and its floor, and the opacity is thinned by as much as the volume grows.
/// Splats without one are as their parameters say.
pub proof fn floors_widen_and_thin<S: Geometric>(
    value: spec_fn(S) -> real,
    e: spec_fn(real) -> real,
    s: Splats<S>,
    i: int,
)
    requires
        exact::is_exact(value),
        exact::chooses(value),
        exact::exponentiates(value, e),
        reads_bounds(value),
        s.wf(),
        0 <= i < s.count(),
    ensures
        ({
            let logs = scale_floor::log_scales_of(s.transforms@, i);
            let raw = Num { value: s.raw_opacities@[i] };
            let scales = scale_floor::scales_of(s, i);
            let opacity = exact::of(value, scale_floor::opacity_of(s, i));
            let (x, y, z) = (
                scale_number(value, e, logs.x),
                scale_number(value, e, logs.y),
                scale_number(value, e, logs.z),
            );
            match s.min_scale {
                None => {
                    &&& exact::of(value, scales.x) == x
                    &&& exact::of(value, scales.y) == y
                    &&& exact::of(value, scales.z) == z
                    &&& opacity * ((1 as real) + e(-exact::of(value, raw))) == 1 as real
                },
                Some(f) => {
                    let floor = value(f@[i]);
                    let wider = (exact::of(value, scales.x) * exact::of(value, scales.y))
                        * exact::of(value, scales.z);
                    &&& spans(x, floor, exact::of(value, scales.x))
                    &&& spans(y, floor, exact::of(value, scales.y))
                    &&& spans(z, floor, exact::of(value, scales.z))
                    &&& exists|ratio: real|
                        ratio * wider == (x * y) * z && opacity == #[trigger] thinned(
                            value,
                            raw,
                            ratio,
                        )
                },
            }
        }),
{
    let logs = scale_floor::log_scales_of(s.transforms@, i);
    let raw = Num { value: s.raw_opacities@[i] };
    if let Some(f) = s.min_scale {
        let floor = Num { value: f@[i] };
        folded_scales_span_the_floor(value, e, logs.x, floor);
        folded_scales_span_the_floor(value, e, logs.y, floor);
        folded_scales_span_the_floor(value, e, logs.z, floor);
        floor_keeps_the_energy(value, e, logs, floor);
        folded_opacities_are_thinned(value, e, logs, raw, floor);
        let ratio = exact::of(value, scale_floor::energy_ratio(logs, floor));
        assert(exact::of(value, scale_floor::opacity_of(s, i)) == thinned(value, raw, ratio));
    }
}

/// Growing splats multiplies each scale by the factor.
pub proof fn growing_multiplies_the_scales<S: Geometric>(
    value: spec_fn(S) -> real,
    e: spec_fn(real) -> real,
    logs: Vec3<S>,
    factor: S,
)
    requires
        exact::is_exact(value),
        exact::exponentiates(value, e),
        value(factor) > 0 as real,
    ensures
        ({
            let grown = scale_floor::grown(logs, Some(factor));
            let k = value(factor);
            &&& scale_number(value, e, grown.x) == scale_number(value, e, logs.x) * k
            &&& scale_number(value, e, grown.y) == scale_number(value, e, logs.y) * k
            &&& scale_number(value, e, grown.z) == scale_number(value, e, logs.z) * k
        }),
{
    let by = exact::of(value, (Num { value: factor }).ln());
    assert(e(exact::of(value, logs.x) + by) == e(exact::of(value, logs.x)) * e(by));
    assert(e(exact::of(value, logs.y) + by) == e(exact::of(value, logs.y)) * e(by));
    assert(e(exact::of(value, logs.z) + by) == e(exact::of(value, logs.z)) * e(by));
}

/// A splat is drawn with two of its deviations, faded by its opacity, and four
/// thousandths more.
pub proof fn drawn_radius_is_two_deviations<S: Geometric>(
    value: spec_fn(S) -> real,
    e: spec_fn(real) -> real,
    log: Num<S>,
    opacity: Num<S>,
)
    requires
        exact::is_exact(value),
        exact::exponentiates(value, e),
        exact::reads(value, "0.004", 4, 1000),
    ensures
        exact::of(value, distribution::drawn_radius(log, opacity)) == (2 as real) * (scale_number(
            value,
            e,
            log,
        ) * exact::of(value, opacity)) + (4 as real) / (1000 as real),
{
    exact::lemma_commute(
        scale_number(value, e, log) * exact::of(value, opacity),
        2 as real,
    );
}

/// Truncation drops the fraction, and gives zero for what is below zero.
pub open spec fn truncates<S: Recorded>(value: spec_fn(S) -> real) -> bool {
    forall|n: Num<S>|
        {
            let t = (#[trigger] distribution::truncation(n)) as int;
            let x = exact::of(value, n);
            if x < 0 as real {
                t == 0
            } else if x < (u64::MAX as int) as real {
                (t as real) <= x && x < ((t + 1) as real)
            } else {
                t == u64::MAX
            }
        }
}

/// `b` is the byte of `x`: the whole number below it, within a byte.
pub open spec fn is_byte_of(b: u8, x: real) -> bool {
    let n = (b as int) as real;
    if x < 0 as real {
        b == 0
    } else if x >= 255 as real {
        b == 255
    } else {
        n <= x && x < n + (1 as real)
    }
}

proof fn lemma_byte<S: Recorded>(value: spec_fn(S) -> real, n: Num<S>)
    requires
        truncates(value),
    ensures
        is_byte_of(distribution::byte_of(n), exact::of(value, n)),
{
    let t = distribution::truncation(n) as int;
    assert(((t + 1) as real) == (t as real) + (1 as real));
}

/// The byte of a rendered color is the nearest to 255 times the color, which is
/// held between zero and one.
pub proof fn rendered_bytes_are_nearest<S: Recorded>(value: spec_fn(S) -> real, v: Num<S>)
    requires
        exact::is_exact(value),
        exact::chooses(value),
        truncates(value),
        exact::reads(value, "255.0", 255, 1),
    ensures
        ({
            let b = ((distribution::render_byte(v) as int) as real) * (2 as real);
            let x = (255 as real) * exact::held_real(exact::of(value, v), 0 as real, 1 as real);
            b - (1 as real) <= x * (2 as real) && x * (2 as real) <= b + (1 as real)
        }),
{
    let (low, high) = (
        Num { value: scalar::zero::<S>() },
        Num { value: scalar::literal::<S>("1.0") },
    );
    let most = Num { value: scalar::literal::<S>("255.0") };
    let half = Num { value: scalar::literal::<S>("0.5") };
    let h = exact::held_real(exact::of(value, v), 0 as real, 1 as real);
    exact::lemma_over_one(255 as real, 1 as real);
    assert(exact::of(value, v.held(low, high)) == h);
    assert(h * (255 as real) == (255 as real) * h);
    lemma_byte(value, v.held(low, high) * most + half);
}

/// The byte of a base color is that of 255 times the color: the coefficient
/// times the first basis function, and a half more.
pub proof fn base_bytes_are_the_base_color<S: Recorded>(value: spec_fn(S) -> real, coeff: Num<S>)
    requires
        exact::is_exact(value),
        truncates(value),
        exact::reads(value, "255.0", 255, 1),
        exact::reads(value, "0.2820948", 2_820_948, 10_000_000),
    ensures
        is_byte_of(
            distribution::base_byte(coeff),
            (255 as real) * (((2_820_948 as real) / (10_000_000 as real)) * exact::of(value, coeff)
                + (1 as real) / (2 as real)),
        ),
{
    let k = Num { value: scalar::literal::<S>("0.2820948") };
    let most = Num { value: scalar::literal::<S>("255.0") };
    let half = Num { value: scalar::literal::<S>("0.5") };
    exact::lemma_over_one(255 as real, 1 as real);
    let c = coeff * k + half;
    exact::lemma_commute(exact::of(value, coeff), exact::of(value, k));
    assert(exact::of(value, half) == (1 as real) / (2 as real));
    exact::lemma_commute(exact::of(value, c), 255 as real);
    lemma_byte(value, c * most);
}

/// Rounding gives a whole number at most a half away.
pub open spec fn rounds<S: Geometric>(value: spec_fn(S) -> real) -> bool {
    forall|n: Num<S>|
        {
            let r = (#[trigger] n.nearest()) as int;
            let x = exact::of(value, n);
            x >= 0 as real && x < (u64::MAX as int) as real ==> (2 as real) * (r as real) - (
            1 as real) <= (2 as real) * x && (2 as real) * x <= (2 as real) * (r as real) + (
            1 as real)
        }
}

/// A scaled side keeps the proportions: it is the nearest number of pixels to
/// the side times the new longest side over the old one, but never none. The
/// longest side gets the new length.
pub proof fn scaled_sides_keep_proportions<S: Geometric>(
    value: spec_fn(S) -> real,
    side: u32,
    longest: u32,
    max_size: u32,
)
    requires
        exact::is_exact(value),
        exact::chooses(value),
        rounds(value),
        0 < side <= longest,
        0 < max_size,
    ensures
        ({
            let r = resize::scaled_side::<S>(side, longest, max_size) as int;
            &&& 1 <= r <= max_size
            &&& side == longest ==> r == max_size
            &&& 2 * (r * longest) <= 2 * (side * max_size) + longest || r == 1
            &&& 2 * (side * max_size) <= 2 * (r * longest) + longest
        }),
{
    let (a, l, m) = ((side as int) as real, (longest as int) as real, (max_size as int) as real);
    let n = Num { value: scalar::from_count::<S>(side) } * (Num {
        value: scalar::from_count(max_size),
    } / Num { value: scalar::from_count(longest) });
    let x = exact::of(value, n);
    assert(x == a * (m / l));
    exact::lemma_regroup(a, m / l, l);
    round_trip::lemma_restore(m, l);
    assert(x * l == a * m);
    let r = n.nearest() as int;
    lemma_side(a, l, m, x, r as real);
    assert(a * m == (side * max_size) as real) by {
        lemma_whole_product(side as int, max_size as int);
    }
    lemma_whole_product(r, longest as int);
    let out = resize::scaled_side::<S>(side, longest, max_size) as int;
    if side == longest {
        assert(x == m) by {
            exact::lemma_commute(l, m);
            exact::lemma_factor_difference(x, m, l);
            if x != m {
                lemma_no_factor(x - m, l);
            }
        }
    }
    assert(r <= max_size);
    let (rl, am): (int, int) = (r * longest, side * max_size);
    assert((rl as real) == (r as real) * l && (am as real) == a * m);
    assert(2 * rl <= 2 * am + longest);
    assert(2 * am <= 2 * rl + longest);
    if r == 0 {
        exact::lemma_times_zero(r as real, l);
        assert(rl == 0);
        assert(out == 1);
        assert(1 * longest == longest);
    } else {
        assert(out == r);
    }
}

proof fn lemma_whole_product(a: int, b: int)
    by (nonlinear_arith)
    ensures
        ((a * b) as real) == (a as real) * (b as real),
{
}

proof fn lemma_side(a: real, l: real, m: real, x: real, r: real)
    by (nonlinear_arith)
    requires
        0 as real <= a <= l,
        l > 0 as real,
        m > 0 as real,
        x * l == a * m,
    ensures
        0 as real <= x <= m,
        (2 as real) * r - (1 as real) <= (2 as real) * x ==> (2 as real) * (r * l) <= (2 as real) * (
        a * m) + l,
        (2 as real) * x <= (2 as real) * r + (1 as real) ==> (2 as real) * (a * m) <= (2 as real) * (
        r * l) + l,
{
}

/// The operations of the walk do what they are called, and its literals are the
/// numbers that they denote.
pub open spec fn walks<S: RasterScalar + Geometric>(value: spec_fn(S) -> real) -> bool {
    &&& forall|a: S|
        value(#[trigger] raster_walk::to_unit(a)) == exact::held_real(
            value(a),
            0 as real,
            1 as real,
        )
    &&& forall|a: S, b: S|
        value(#[trigger] raster_walk::smaller(a, b)) == if value(b) < value(a) {
            value(b)
        } else {
            value(a)
        }
    &&& value(raster_walk::cutoff_band::<S>()) > 0 as real
    &&& exact::reads(value, "0.999", 999, 1000)
    &&& exact::reads(value, "1.0e-4", 1, 10_000)
}

/// A pixel's centre is half a pixel from its corner.
pub proof fn centres_are_half_a_pixel_in<S: RasterScalar + Geometric>(
    value: spec_fn(S) -> real,
    pixel: u32,
)
    requires
        exact::is_exact(value),
        exact::chooses(value),
    ensures
        (2 as real) * value(raster_walk::centre::<S>(pixel)) == (2 * pixel + 1) as real,
{
}

/// Twice the exponent of a splat's fall-off: its inverse covariance, along what
/// leads from its centre to the point.
pub open spec fn quadratic_form<S: RasterScalar + Geometric>(
    value: spec_fn(S) -> real,
    s: ProjectedSplat<S>,
    px: S,
    py: S,
) -> real {
    let (dx, dy) = (value(px) - value(s.x), value(py) - value(s.y));
    value(s.conic_x) * (dx * dx) + (2 as real) * (value(s.conic_xy) * (dx * dy)) + value(s.conic_y)
        * (dy * dy)
}

/// A splat falls off with half of the quadratic form of its inverse covariance.
pub proof fn falloff_is_half_the_form<S: RasterScalar + Geometric>(
    value: spec_fn(S) -> real,
    s: ProjectedSplat<S>,
    px: S,
    py: S,
)
    requires
        exact::is_exact(value),
    ensures
        (2 as real) * value(raster_walk::falloff(s, px, py)) == quadratic_form(value, s, px, py),
{
    let (dx, dy) = (value(px) - value(s.x), value(py) - value(s.y));
    let half = value(scalar::literal::<S>("0.5"));
    let (a, b, c) = (value(s.conic_x), value(s.conic_xy), value(s.conic_y));
    exact::lemma_regroup(a, dx, dx);
    exact::lemma_regroup(b, dx, dy);
    exact::lemma_regroup(c, dy, dy);
    round_trip::lemma_half(half, a * (dx * dx) + c * (dy * dy));
}

/// What the cutoff leaves of an opacity, as a number: all from the cutoff on and
/// none below it, or a smooth step over the band around it.
pub open spec fn cutoff_number<S: RasterScalar + Geometric>(
    value: spec_fn(S) -> real,
    alpha: real,
    smooth: bool,
) -> real {
    let (mid, band) = (
        value(raster_walk::cutoff_mid::<S>()),
        value(raster_walk::cutoff_band::<S>()),
    );
    if smooth {
        let t = exact::held_real(
            (alpha - mid) / band + (1 as real) / (2 as real),
            0 as real,
            1 as real,
        );
        (t * t) * ((3 as real) - (2 as real) * t)
    } else if mid <= alpha {
        1 as real
    } else {
        0 as real
    }
}

/// The smooth step goes from none to all over the band around the cutoff, and
/// leaves half of it in its middle; the hard one is a step there.
pub proof fn cutoff_is_a_step<S: RasterScalar + Geometric>(
    value: spec_fn(S) -> real,
    alpha: S,
    smooth: bool,
)
    requires
        exact::is_exact(value),
        exact::chooses(value),
        walks(value),
    ensures
        ({
            let w = value(raster_walk::cutoff(alpha, smooth));
            let (mid, band) = (
                value(raster_walk::cutoff_mid::<S>()),
                value(raster_walk::cutoff_band::<S>()),
            );
            let reach = band / (2 as real);
            &&& w == cutoff_number(value, value(alpha), smooth)
            &&& smooth && value(alpha) <= mid - reach ==> w == 0 as real
            &&& smooth && value(alpha) >= mid + reach ==> w == 1 as real
            &&& smooth && value(alpha) == mid ==> w == (1 as real) / (2 as real)
            &&& 0 as real <= w && w <= 1 as real
        }),
{
    let (mid, band) = (
        value(raster_walk::cutoff_mid::<S>()),
        value(raster_walk::cutoff_band::<S>()),
    );
    let a = value(alpha);
    let half = value(scalar::literal::<S>("0.5"));
    assert(half == (1 as real) / (2 as real));
    exact::lemma_commute(half, band);
    lemma_step(a, mid, band);
    let at = (a - mid) / band + (1 as real) / (2 as real);
    lemma_step_range(exact::held_real(at, 0 as real, 1 as real));
}

proof fn lemma_step(a: real, mid: real, band: real)
    by (nonlinear_arith)
    requires
        band > 0 as real,
    ensures
        (a - (mid - ((1 as real) / (2 as real)) * band)) / band == (a - mid) / band + (1 as real) / (
        2 as real),
        a <= mid - band / (2 as real) ==> (a - mid) / band + (1 as real) / (2 as real) <= 0 as real,
        a >= mid + band / (2 as real) ==> (a - mid) / band + (1 as real) / (2 as real) >= 1 as real,
        a == mid ==> (a - mid) / band == 0 as real,
{
}

proof fn lemma_step_range(t: real)
    by (nonlinear_arith)
    requires
        0 as real <= t <= 1 as real,
    ensures
        0 as real <= (t * t) * ((3 as real) - (2 as real) * t) <= 1 as real,
        t == 0 as real ==> (t * t) * ((3 as real) - (2 as real) * t) == 0 as real,
        t == 1 as real ==> (t * t) * ((3 as real) - (2 as real) * t) == 1 as real,
        t == (1 as real) / (2 as real) ==> (t * t) * ((3 as real) - (2 as real) * t) == (1 as real)
            / (2 as real),
{
}

/// A splat's opacity at a point, as a number: its own, fallen off, at most
/// 999 thousandths.
pub open spec fn opacity_number<S: RasterScalar + Geometric>(
    value: spec_fn(S) -> real,
    e: spec_fn(real) -> real,
    s: ProjectedSplat<S>,
    sigma: real,
) -> real {
    let faded = value(s.opacity) * e(-sigma);
    let cap = (999 as real) / (1000 as real);
    if cap < faded {
        cap
    } else {
        faded
    }
}

/// What becomes of a pixel at a splat: the fall-off decides first, then the
/// cutoff, then what would be left of the light; a splat that passes takes its
/// part of the light, and others take none.
pub proof fn pixels_lose_the_light_they_take<S: RasterScalar + Geometric>(
    value: spec_fn(S) -> real,
    e: spec_fn(real) -> real,
    transmittance: S,
    s: ProjectedSplat<S>,
    px: S,
    py: S,
    smooth: bool,
)
    requires
        exact::is_exact(value),
        exact::chooses(value),
        exact::exponentiates(value, e),
        walks(value),
    ensures
        ({
            let (outcome, behind) = raster_walk::met(transmittance, s, px, py, smooth);
            let form = quadratic_form(value, s, px, py);
            let alpha = opacity_number(value, e, s, form / (2 as real));
            let weight = cutoff_number(value, alpha, smooth);
            let left = value(transmittance) * ((1 as real) - alpha * weight);
            if form < 0 as real {
                outcome == PairOutcome::SigmaRejected && behind == transmittance
            } else if weight <= 0 as real {
                outcome == PairOutcome::CutoffRejected && behind == transmittance
            } else if left <= (1 as real) / (10_000 as real) {
                outcome == PairOutcome::EarlyTerminated && behind == transmittance
            } else {
                outcome == PairOutcome::Composited && value(behind) == left
            }
        }),
{
    falloff_is_half_the_form(value, s, px, py);
    let sigma = raster_walk::falloff(s, px, py);
    let alpha = raster_walk::opacity_at(s, sigma);
    cutoff_is_a_step(value, alpha, smooth);
    assert(value(sigma) == quadratic_form(value, s, px, py) / (2 as real));
    assert(value(alpha) == opacity_number(value, e, s, value(sigma)));
}

/// A file is almost read from nineteen twentieths on.
pub proof fn almost_read_is_nineteen_twentieths<S: Geometric>(
    value: spec_fn(S) -> real,
    done: Num<S>,
)
    requires
        exact::is_exact(value),
        exact::reads(value, "0.95", 95, 100),
    ensures
        ply_stream::is_almost_read(done) <==> (20 as real) * exact::of(value, done) >= 19 as real,
{
    assert(value(scalar::literal::<S>("0.95")) == (95 as real) / (100 as real));
}

/// The splats of a file are all of its progress, or four fifths of it where rest
/// coefficients follow.
pub proof fn rest_coefficients_are_a_fifth<S: Geometric>(value: spec_fn(S) -> real, done: Num<S>)
    requires
        exact::is_exact(value),
        exact::reads(value, "0.8", 8, 10),
    ensures
        exact::of(value, ply_stream::splat_share(done, false)) == exact::of(value, done),
        (5 as real) * exact::of(value, ply_stream::splat_share(done, true)) == (4 as real)
            * exact::of(value, done),
{
    exact::products_with_zero_and_one(value);
    let d = exact::of(value, done);
    let share = value(scalar::literal::<S>("0.8"));
    exact::lemma_commute(d, share);
    exact::lemma_regroup(5 as real, share, d);
    assert(share == (8 as real) / (10 as real));
    assert((5 as real) * share == 4 as real);
}

/// Splats that come without a field are not turned, are half opaque, and have
/// the coefficient one half and a scale whose logarithm is minus four.
pub proof fn standard_splats_are_half_opaque<S: Geometric>(
    value: spec_fn(S) -> real,
    e: spec_fn(real) -> real,
)
    requires
        exact::is_exact(value),
        exact::exponentiates(value, e),
        exact::reads(value, "0.0", 0, 1),
        exact::reads(value, "-4.0", -4, 1),
    ensures
        ({
            let d = SplatDefaults::<S>::standard_values();
            let raw = Num { value: d.raw_opacity };
            &&& value(d.rotation.0) == 1 as real
            &&& value(d.rotation.1) == 0 as real
            &&& value(d.rotation.2) == 0 as real
            &&& value(d.rotation.3) == 0 as real
            &&& value(d.log_scale) == -(4 as real)
            &&& (2 as real) * value(d.sh_coeff) == 1 as real
            &&& (2 as real) * exact::of(value, raw.sigmoid()) == 1 as real
        }),
{
    let half = Num { value: scalar::literal::<S>("0.5") };
    logistic_function_comes_back(value, e, half);
    exact::lemma_over_one(0 as real, 1 as real);
    exact::lemma_over_one(-(4 as real), 1 as real);
    assert(value(scalar::literal::<S>("-4.0")) == ((-4int) as real) / (1 as real));
    assert(((-4int) as real) == -(4 as real));
}

/// The fractions of the percentiles are the numbers that they denote.
pub open spec fn reads_fractions<S: Geometric>(value: spec_fn(S) -> real) -> bool {
    &&& exact::reads(value, "0.01", 1, 100)
    &&& exact::reads(value, "0.25", 25, 100)
    &&& exact::reads(value, "0.50", 50, 100)
    &&& exact::reads(value, "0.75", 75, 100)
    &&& exact::reads(value, "0.95", 95, 100)
    &&& exact::reads(value, "0.99", 99, 100)
    &&& exact::reads(value, "1.00", 100, 100)
}

/// `v` is a value of a sorted list whose position is at most half a place from
/// a number of hundredths of the way from the first to the last.
pub open spec fn is_at_percent(sorted: Seq<u32>, v: u32, percent: int) -> bool {
    let last = sorted.len() - 1;
    exists|r: int|
        0 <= r <= last && v == #[trigger] sorted[r] && -100 <= 2 * (100 * r - percent * last) <= 100
}

proof fn lemma_percent<S: Geometric>(
    value: spec_fn(S) -> real,
    sorted: Seq<u32>,
    fraction: &'static str,
    percent: int,
)
    requires
        exact::is_exact(value),
        exact::chooses(value),
        rounds(value),
        exact::reads(value, fraction, percent, 100),
        0 <= percent <= 100,
        0 < sorted.len() <= u32::MAX,
    ensures
        is_at_percent(
            sorted,
            visualize::picked(
                sorted,
                visualize::fraction_rank::<S>(fraction, sorted.len() as u32) as int,
            ),
            percent,
        ),
{
    let n = sorted.len() as u32;
    let last = n - 1;
    let at = Num { value: scalar::literal::<S>(fraction) } * (Num {
        value: scalar::from_count::<S>(n),
    } - Num { value: scalar::literal("1.0") });
    let x = exact::of(value, at);
    let f = value(scalar::literal::<S>(fraction));
    let l = last as real;
    assert(x == f * l);
    assert(f == (percent as real) / (100 as real));
    exact::lemma_swap_last(f, l, 100 as real);
    lemma_whole_product(percent, last);
    assert(x * (100 as real) == (percent * last) as real);
    assert(0 <= percent * last <= 100 * last) by (nonlinear_arith)
        requires
            0 <= percent <= 100,
            0 <= last,
    ;
    assert(x >= 0 as real && x <= l);
    let r = at.nearest() as int;
    assert(r == visualize::fraction_rank::<S>(fraction, n));
    assert(r <= last);
    assert(-100 <= 2 * (100 * r - percent * last) <= 100);
    assert(visualize::picked(sorted, r) == sorted[r]);
}

/// The percentiles of values are those of the finite ones in ascending order, at
/// the position nearest to each fraction; the greatest is the last.
pub proof fn percentiles_are_at_their_places<S: Geometric>(
    value: spec_fn(S) -> real,
    values: Seq<u32>,
)
    requires
        exact::is_exact(value),
        exact::chooses(value),
        rounds(value),
        reads_fractions(value),
        0 < visualize::ascending_finite(values).len() <= u32::MAX,
    ensures
        ({
            let sorted = visualize::ascending_finite(values);
            let p = visualize::percentiles_of::<S>(values);
            &&& is_at_percent(sorted, p.p01, 1)
            &&& is_at_percent(sorted, p.p25, 25)
            &&& is_at_percent(sorted, p.p50, 50)
            &&& is_at_percent(sorted, p.p75, 75)
            &&& is_at_percent(sorted, p.p95, 95)
            &&& is_at_percent(sorted, p.p99, 99)
            &&& p.max == sorted.last()
        }),
{
    let sorted = visualize::ascending_finite(values);
    lemma_percent(value, sorted, "0.01", 1);
    lemma_percent(value, sorted, "0.25", 25);
    lemma_percent(value, sorted, "0.50", 50);
    lemma_percent(value, sorted, "0.75", 75);
    lemma_percent(value, sorted, "0.95", 95);
    lemma_percent(value, sorted, "0.99", 99);
    lemma_percent(value, sorted, "1.00", 100);
}

/// A number that is stored and read back is the same number.
pub open spec fn stores<S: Recorded>(value: spec_fn(S) -> real) -> bool {
    forall|n: Num<S>|
        exact::of(
            value,
            distribution::stored::<S>(#[trigger] distribution::bits_of(n)),
        ) == exact::of(value, n)
}

/// `tens` gives back the number that a logarithm is of.
pub open spec fn takes_logarithms<S: Recorded>(
    value: spec_fn(S) -> real,
    tens: spec_fn(real) -> real,
) -> bool {
    forall|n: Num<S>|
        exact::of(value, n) > 0 as real ==> tens(
            exact::of(value, #[trigger] distribution::log_ten(n)),
        ) == exact::of(value, n)
}

/// The middle scale of a splat grows to the largest by its spindle factor, the
/// smallest grows to the middle one by its flatness, and the logarithms are those
/// of the largest and the smallest.
pub proof fn shapes_relate_the_scales<S: Recorded>(
    value: spec_fn(S) -> real,
    tens: spec_fn(real) -> real,
    scales: Seq<u32>,
    n: int,
    i: int,
)
    requires
        exact::is_exact(value),
        stores(value),
        takes_logarithms(value, tens),
        0 <= i < n,
        3 * n <= scales.len(),
        exact::of(value, distribution::stored::<S>(distribution::scales_at(scales, i).0))
            > 0 as real,
        exact::of(value, distribution::stored::<S>(distribution::scales_at(scales, i).1))
            > 0 as real,
        exact::of(value, distribution::stored::<S>(distribution::scales_at(scales, i).2))
            > 0 as real,
    ensures
        ({
            let s = visualize::scale_order(scales[3 * i], scales[3 * i + 1], scales[3 * i + 2]);
            let small = exact::of(value, distribution::stored::<S>(s.0));
            let middle = exact::of(value, distribution::stored::<S>(s.1));
            let large = exact::of(value, distribution::stored::<S>(s.2));
            let spindle = distribution::stored::<S>(distribution::spindles::<S>(scales, n)[i]);
            let flatness = distribution::stored::<S>(distribution::flatnesses::<S>(scales, n)[i]);
            let most = distribution::stored::<S>(distribution::max_logs::<S>(scales, n)[i]);
            let least = distribution::stored::<S>(distribution::min_logs::<S>(scales, n)[i]);
            &&& exact::of(value, spindle) * middle == large
            &&& exact::of(value, flatness) * small == middle
            &&& tens(exact::of(value, most)) == large
            &&& tens(exact::of(value, least)) == small
        }),
{
    let s = distribution::scales_at(scales, i);
    let small = exact::of(value, distribution::stored::<S>(s.0));
    let middle = exact::of(value, distribution::stored::<S>(s.1));
    let large = exact::of(value, distribution::stored::<S>(s.2));
    round_trip::lemma_restore(large, middle);
    round_trip::lemma_restore(middle, small);
}

/// The parameters of splats lie in rows: ten numbers of a transform, of which
/// the last three are the logarithms of the scales, and nine of a projection,
/// which begin with the place, the conic and the opacity.
pub proof fn parameters_lie_in_rows<S>(transforms: Seq<S>, projected: Seq<S>, i: int)
    requires
        0 <= i,
        10 * (i + 1) <= transforms.len(),
        9 * (i + 1) <= projected.len(),
    ensures
        ({
            let row = transforms.subrange(10 * i, 10 * (i + 1));
            let logs = scale_floor::log_scales_of(transforms, i);
            seq![logs.x.value, logs.y.value, logs.z.value] == row.subrange(7, 10)
        }),
        ({
            let row = projected.subrange(9 * i, 9 * (i + 1));
            let s = raster_walk::splat_at(projected, i);
            seq![s.x, s.y, s.conic_x, s.conic_xy, s.conic_y, s.opacity] == row.subrange(0, 6)
        }),
{
    let row = transforms.subrange(10 * i, 10 * (i + 1));
    let logs = scale_floor::log_scales_of(transforms, i);
    assert(seq![logs.x.value, logs.y.value, logs.z.value] =~= row.subrange(7, 10));
    let line = projected.subrange(9 * i, 9 * (i + 1));
    let s = raster_walk::splat_at(projected, i);
    assert(seq![s.x, s.y, s.conic_x, s.conic_xy, s.conic_y, s.opacity] =~= line.subrange(0, 6));
}

} // verus!
