//! From a focal length to a field of view and back: what the conversions of
//! `camera` undo where nothing is rounded.
use vstd::prelude::*;

use crate::camera;
use crate::camera::{
    CameraModel, KannalaBrandt4Params, Narrow, Probe, RadialTangential8Params,
    ThinPrismFisheyeParams,
};
use crate::exact;
use crate::num;
use crate::num::{Geometric, Num};
use crate::scalar;

verus! {

/// The tangent depends on the number that an angle stands for, and the angle of
/// a tangent has that tangent.
pub open spec fn tangents_invert<S: Geometric>(value: spec_fn(S) -> real) -> bool {
    &&& forall|a: Num<S>, b: Num<S>|
        exact::of(value, a) == exact::of(value, b) ==> exact::of(value, #[trigger] a.tangent())
            == exact::of(value, #[trigger] b.tangent())
    &&& forall|a: Num<S>|
        exact::of(value, (#[trigger] a.arctangent()).tangent()) == exact::of(value, a)
}

/// The divisor of the rational model's radial factor.
pub open spec fn rt8_divisor<S: Geometric>(r: Num<S>, p: &RadialTangential8Params<S>) -> Num<S> {
    let r2 = r * r;
    let r4 = r2 * r2;
    let r6 = r4 * r2;
    Num { value: scalar::literal("1.0") } + p.k4 * r2 + p.k5 * r4 + p.k6 * r6
}

/// The search for the angle or the radius of a lens ended on a solution: the
/// lens takes what was found back to the normalized radius. A pinhole needs no
/// search.
pub open spec fn is_solved<N: Narrow>(
    value: spec_fn(N::Wide) -> real,
    r_norm: Num<N::Wide>,
    model: CameraModel<N>,
) -> bool {
    match model {
        CameraModel::Pinhole => true,
        CameraModel::KannalaBrandt4(p) => {
            let wide = camera::widen_kb4(p);
            exact::of(value, camera::kb4_d(camera::angle_of(r_norm, &wide), &wide)) == exact::of(
                value,
                r_norm,
            )
        },
        CameraModel::RadialTangential8(p) => {
            let wide = camera::widen_rt8(p);
            let r = camera::undistorted(r_norm, r_norm, &wide, 30);
            &&& exact::of(value, rt8_divisor(r, &wide)) != 0 as real
            &&& exact::of(value, camera::rt8_distort(r, &wide)) == exact::of(value, r_norm)
        },
        CameraModel::ThinPrismFisheye(p) => {
            let wide = camera::widen_kb4(p.kb4);
            exact::of(value, camera::kb4_d(camera::angle_of(r_norm, &wide), &wide)) == exact::of(
                value,
                r_norm,
            )
        },
    }
}

/// The normalized radius at the edge of an image.
pub open spec fn edge_radius<S: Geometric>(focal: Num<S>, pixels: u32) -> Num<S> {
    Num { value: scalar::from_count(pixels) } / Num { value: scalar::literal("2.0") } / focal
}

proof fn lemma_same_angle<S: Geometric>(
    value: spec_fn(S) -> real,
    a: Num<S>,
    b: Num<S>,
    p: &KannalaBrandt4Params<S>,
)
    requires
        exact::is_exact(value),
        exact::of(value, a) == exact::of(value, b),
    ensures
        exact::of(value, camera::kb4_d(a, p)) == exact::of(value, camera::kb4_d(b, p)),
{
}

proof fn lemma_same_radius<S: Geometric>(
    value: spec_fn(S) -> real,
    a: Num<S>,
    b: Num<S>,
    p: &RadialTangential8Params<S>,
)
    requires
        exact::is_exact(value),
        exact::of(value, a) == exact::of(value, b),
        exact::of(value, rt8_divisor(b, p)) != 0 as real,
    ensures
        exact::of(value, camera::rt8_distort(a, p)) == exact::of(value, camera::rt8_distort(b, p)),
{
    assert(exact::of(value, rt8_divisor(a, p)) == exact::of(value, rt8_divisor(b, p)));
}

proof fn lemma_divide_twice(c: real, f: real)
    by (nonlinear_arith)
    requires
        c > 0 as real,
        f > 0 as real,
    ensures
        c / f != 0 as real,
        c / (c / f) == f,
{
}

/// A focal length comes back from its field of view, for every lens whose
/// search ended on a solution.
pub proof fn focal_length_comes_back<N: Narrow>(
    value: spec_fn(N::Wide) -> real,
    focal: Num<N::Wide>,
    pixels: u32,
    model: CameraModel<N>,
)
    requires
        exact::is_exact(value),
        tangents_invert(value),
        value(scalar::from_count(pixels)) > 0 as real,
        exact::of(value, focal) > 0 as real,
        is_solved(value, edge_radius(focal, pixels), model),
    ensures
        exact::of(value, camera::focal_of(camera::fov_of(focal, pixels, model), pixels, model))
            == exact::of(value, focal),
{
    let two = Num { value: scalar::literal::<N::Wide>("2.0") };
    let r_norm = edge_radius(focal, pixels);
    let half = camera::half_field(r_norm, model);
    let again = camera::fov_of(focal, pixels, model) / two;
    assert(exact::of(value, again) == exact::of(value, half));
    match model {
        CameraModel::Pinhole => {
            assert(exact::of(value, again.tangent()) == exact::of(value, half.tangent()));
        },
        CameraModel::KannalaBrandt4(p) => {
            lemma_same_angle(value, again, half, &camera::widen_kb4(p));
        },
        CameraModel::RadialTangential8(p) => {
            let wide = camera::widen_rt8(p);
            let r = camera::undistorted(r_norm, r_norm, &wide, 30);
            assert(exact::of(value, again.tangent()) == exact::of(value, half.tangent()));
            lemma_same_radius(value, again.tangent(), r, &wide);
        },
        CameraModel::ThinPrismFisheye(p) => {
            lemma_same_angle(value, again, half, &camera::widen_kb4(p.kb4));
        },
    }
    let c = value(scalar::from_count(pixels)) / (2 as real);
    lemma_divide_twice(c, exact::of(value, focal));
}

pub(crate) proof fn lemma_restore(r: real, f: real)
    by (nonlinear_arith)
    requires
        f != 0 as real,
    ensures
        (r / f) * f == r,
{
}

/// A radius that the fixed-point iteration repeats is a solution.
pub proof fn repeated_radius_is_a_solution<S: Geometric>(
    value: spec_fn(S) -> real,
    r_d: Num<S>,
    r: Num<S>,
    p: RadialTangential8Params<S>,
)
    requires
        exact::is_exact(value),
        exact::of(value, camera::rt8_radial(r, &p)) != 0 as real,
        exact::of(value, r_d / camera::rt8_radial(r, &p)) == exact::of(value, r),
    ensures
        exact::of(value, camera::rt8_distort(r, &p)) == exact::of(value, r_d),
{
    lemma_restore(exact::of(value, r_d), exact::of(value, camera::rt8_radial(r, &p)));
}

/// A field of view below half a turn comes back from its focal length through a
/// pinhole.
pub proof fn pinhole_field_comes_back<N: Narrow>(
    value: spec_fn(N::Wide) -> real,
    fov: Num<N::Wide>,
    pixels: u32,
)
    requires
        exact::is_exact(value),
        value(scalar::from_count(pixels)) > 0 as real,
        ({
            let half = fov / Num { value: scalar::literal("2.0") };
            &&& exact::of(value, half.tangent()) > 0 as real
            &&& forall|a: Num<N::Wide>|
                exact::of(value, a) == exact::of(value, half.tangent()) ==> exact::of(
                    value,
                    #[trigger] a.arctangent(),
                ) == exact::of(value, half)
        }),
    ensures
        exact::of(
            value,
            camera::fov_of(
                camera::focal_of::<N>(fov, pixels, CameraModel::Pinhole),
                pixels,
                CameraModel::<N>::Pinhole,
            ),
        ) == exact::of(value, fov),
{
    let half = fov / Num { value: scalar::literal("2.0") };
    let c = value(scalar::from_count(pixels)) / (2 as real);
    lemma_divide_twice(c, exact::of(value, half.tangent()));
    let r_norm = edge_radius(camera::focal_of::<N>(fov, pixels, CameraModel::Pinhole), pixels);
    assert(exact::of(value, r_norm) == exact::of(value, half.tangent()));
    assert(exact::of(value, r_norm.arctangent()) == exact::of(value, half));
}

/// `x`, doubled `n` times.
pub open spec fn doubled(x: real, n: int) -> real
    decreases n,
{
    if n <= 0 {
        x
    } else {
        (2 as real) * doubled(x, n - 1)
    }
}

pub(crate) proof fn lemma_half(h: real, s: real)
    by (nonlinear_arith)
    requires
        h * (2 as real) == 1 as real,
    ensures
        (2 as real) * (h * s) == s,
{
}

/// Bisection stays within its bracket, and halves it until it is narrower than
/// `width` or the halvings are used up.
pub proof fn bisection_narrows<S: Geometric>(
    value: spec_fn(S) -> real,
    probe: Probe<S>,
    lo: Num<S>,
    hi: Num<S>,
    width: Num<S>,
    n: int,
)
    requires
        exact::is_exact(value),
        exact::of(value, lo) <= exact::of(value, hi),
        n >= 0,
    ensures
        ({
            let end = camera::bracket(probe, lo, hi, width, n);
            let middle = camera::midpoint(end.0, end.1);
            let left = exact::of(value, end.1) - exact::of(value, end.0);
            &&& exact::of(value, lo) <= exact::of(value, end.0) <= exact::of(value, middle)
            &&& exact::of(value, middle) <= exact::of(value, end.1) <= exact::of(value, hi)
            &&& left < exact::of(value, width) || doubled(left, n) == exact::of(value, hi)
                - exact::of(value, lo)
        }),
    decreases n,
{
    let half = value(scalar::literal("0.5"));
    lemma_half(half, exact::of(value, lo) + exact::of(value, hi));
    if n > 0 {
        let next = camera::halved(probe, lo, hi);
        if (next.1 - next.0).below(width) {
            lemma_half(half, exact::of(value, next.0) + exact::of(value, next.1));
        } else {
            bisection_narrows(value, probe, next.0, next.1, width, n - 1);
            let end = camera::bracket(probe, lo, hi, width, n);
            let left = exact::of(value, end.1) - exact::of(value, end.0);
            assert(doubled(left, n) == (2 as real) * doubled(left, n - 1));
        }
    }
}

/// Counts and the circle constant are the numbers that they name.
pub open spec fn counts_exactly<S: Geometric>(value: spec_fn(S) -> real) -> bool {
    &&& forall|n: u32| value(#[trigger] scalar::from_count::<S>(n)) == (n as int) as real
    &&& exact::of(value, num::pi()) > 0 as real
}

proof fn lemma_first_fall<S: Geometric>(p: &KannalaBrandt4Params<S>, i: int)
    requires
        1 <= i,
    ensures
        camera::first_fall(p, i) matches Some(j) ==> i <= j <= 128,
    decreases 129 - i,
{
    if i <= 128 {
        lemma_first_fall(p, i + 1);
    }
}

proof fn lemma_share(i: real, turn: real)
    by (nonlinear_arith)
    requires
        0 as real <= i <= 128 as real,
        turn > 0 as real,
    ensures
        0 as real <= i * (turn / (128 as real)) <= turn,
{
}

proof fn lemma_earlier_share(i: real, turn: real)
    by (nonlinear_arith)
    requires
        turn > 0 as real,
    ensures
        (i - (1 as real)) * (turn / (128 as real)) <= i * (turn / (128 as real)),
{
}

/// A fisheye polynomial folds between zero and half a turn.
pub proof fn fold_is_within_half_a_turn<S: Geometric>(
    value: spec_fn(S) -> real,
    p: KannalaBrandt4Params<S>,
)
    requires
        exact::is_exact(value),
        counts_exactly(value),
    ensures
        0 as real <= exact::of(value, camera::fold_of(&p)) <= exact::of(value, num::pi()),
{
    lemma_first_fall(&p, 1);
    if let Some(i) = camera::first_fall(&p, 1) {
        let turn = exact::of(value, num::pi());
        lemma_share(i as real, turn);
        lemma_share((i - 1) as real, turn);
        lemma_earlier_share(i as real, turn);
        let before = camera::angle_before::<S>(i);
        let at = camera::fold_angle::<S>(i as u32);
        assert(exact::of(value, at) == (i as real) * (turn / (128 as real)));
        bisection_narrows(
            value,
            Probe::Rising { p },
            before,
            at,
            Num { value: scalar::literal("1e-12") },
            64,
        );
    }
}

/// The bracket that the search for a fisheye angle ends with.
pub open spec fn last_bracket<S: Geometric>(
    target: Num<S>,
    p: &KannalaBrandt4Params<S>,
) -> (Num<S>, Num<S>) {
    camera::bracket(
        Probe::AngleBelow { p: *p, target },
        Num { value: scalar::zero() },
        camera::fold_of(p),
        Num { value: scalar::literal("1e-14") },
        100,
    )
}

/// Inverting a fisheye polynomial gives zero for a target of at most zero and
/// the fold for one that the polynomial does not reach before it. Every other
/// target is found to within the last bracket of the search: the ends enclose
/// the angle, and the polynomial's values there enclose the target. The bracket
/// is narrower than a hundredth of a trillionth, or the fold halved a hundred
/// times.
pub proof fn inverted_angle_is_enclosed<S: Geometric>(
    value: spec_fn(S) -> real,
    target: Num<S>,
    p: KannalaBrandt4Params<S>,
)
    requires
        exact::is_exact(value),
        counts_exactly(value),
    ensures
        ({
            let fold = camera::fold_of(&p);
            let angle = exact::of(value, camera::angle_of(target, &p));
            let end = last_bracket(target, &p);
            let left = exact::of(value, end.1) - exact::of(value, end.0);
            let wanted = exact::of(value, target);
            let reached = exact::of(value, camera::kb4_d(fold, &p));
            if wanted <= 0 as real {
                angle == 0 as real
            } else if reached <= wanted {
                camera::angle_of(target, &p) == fold
            } else {
                &&& 0 as real <= exact::of(value, end.0) <= angle <= exact::of(value, end.1)
                &&& exact::of(value, end.1) <= exact::of(value, fold)
                &&& exact::of(value, camera::kb4_d(end.0, &p)) < wanted
                &&& wanted <= exact::of(value, camera::kb4_d(end.1, &p))
                &&& left < value(scalar::literal("1e-14")) || doubled(left, 100) == exact::of(
                    value,
                    fold,
                )
            }
        }),
{
    let fold = camera::fold_of(&p);
    let width = Num { value: scalar::literal::<S>("1e-14") };
    let zero = Num { value: scalar::zero::<S>() };
    let probe = Probe::AngleBelow { p, target };
    let wanted = exact::of(value, target);
    if wanted > 0 as real && wanted < exact::of(value, camera::kb4_d(fold, &p)) {
        fold_is_within_half_a_turn(value, p);
        exact::products_with_zero_and_one(value);
        assert(exact::of(value, camera::kb4_d(zero, &p)) == 0 as real);
        camera::bisection_keeps_the_turn(probe, zero, fold, width, 100);
        bisection_narrows(value, probe, zero, fold, width, 100);
    }
}

/// The distance of a number from zero.
pub open spec fn size(x: real) -> real {
    if x < 0 as real {
        -x
    } else {
        x
    }
}

/// How fast a fisheye polynomial with these coefficients can change below the
/// angle `m`: the sum of its derivative's terms there, each without its sign.
pub open spec fn steepness<S: Geometric>(
    value: spec_fn(S) -> real,
    p: &KannalaBrandt4Params<S>,
    m: real,
) -> real {
    let m2 = m * m;
    let m4 = m2 * m2;
    let m6 = m4 * m2;
    let m8 = m6 * m2;
    (1 as real) + size(exact::of(value, p.k1)) * ((3 as real) * m2) + size(
        exact::of(value, p.k2),
    ) * ((5 as real) * m4) + size(exact::of(value, p.k3)) * ((7 as real) * m6) + size(
        exact::of(value, p.k4),
    ) * ((9 as real) * m8)
}

proof fn lemma_monotone(k: real, a: real, b: real)
    by (nonlinear_arith)
    requires
        k >= 0 as real,
        a <= b,
    ensures
        k * a <= k * b,
{
}

/// A product with a difference that is at most `b` in size.
proof fn lemma_scaled(k: real, p: real, q: real, b: real)
    requires
        size(p - q) <= b,
    ensures
        size(k * p - k * q) <= size(k) * b,
{
    let u = p - q;
    exact::lemma_factor(p, -q, k);
    exact::lemma_commute(p, k);
    exact::lemma_commute(-q, k);
    exact::lemma_commute(u, k);
    exact::lemma_opposite(q, k);
    exact::lemma_commute(q, k);
    exact::lemma_opposite(k, u);
    assert(k * p - k * q == k * u);
    lemma_monotone(size(k), u, b);
    lemma_monotone(size(k), -u, b);
    exact::lemma_opposite(u, size(k));
    exact::lemma_commute(u, size(k));
    exact::lemma_commute(-u, size(k));
}

/// Two products whose factors lie below `mx` and `my` and differ by at most
/// `sx` and `sy` times `d`.
proof fn lemma_product_gap(
    x: (real, real),
    y: (real, real),
    mx: real,
    my: real,
    sx: real,
    sy: real,
    d: real,
)
    requires
        0 as real <= x.0 <= mx,
        0 as real <= x.1 <= mx,
        0 as real <= y.0 <= my,
        0 as real <= y.1 <= my,
        sx >= 0 as real,
        sy >= 0 as real,
        d >= 0 as real,
        size(x.0 - x.1) <= sx * d,
        size(y.0 - y.1) <= sy * d,
    ensures
        0 as real <= x.0 * y.0 <= mx * my,
        0 as real <= x.1 * y.1 <= mx * my,
        size(x.0 * y.0 - x.1 * y.1) <= (mx * sy + my * sx) * d,
{
    let zero = 0 as real;
    // The products are between zero and the product of the bounds.
    lemma_monotone(x.0, zero, y.0);
    lemma_monotone(x.1, zero, y.1);
    exact::lemma_times_zero(x.0, zero);
    exact::lemma_times_zero(x.1, zero);
    lemma_monotone(x.0, y.0, my);
    lemma_monotone(x.1, y.1, my);
    lemma_monotone(my, x.0, mx);
    lemma_monotone(my, x.1, mx);
    exact::lemma_commute(my, mx);
    exact::lemma_commute(my, x.0);
    exact::lemma_commute(my, x.1);
    // The first factor moves, then the second.
    lemma_scaled(x.0, y.0, y.1, sy * d);
    lemma_scaled(y.1, x.0, x.1, sx * d);
    exact::lemma_commute(y.1, x.0);
    exact::lemma_commute(y.1, x.1);
    lemma_monotone(sy, zero, d);
    lemma_monotone(sx, zero, d);
    exact::lemma_times_zero(sy, zero);
    exact::lemma_times_zero(sx, zero);
    lemma_monotone(sy * d, x.0, mx);
    lemma_monotone(sx * d, y.1, my);
    exact::lemma_commute(sy * d, x.0);
    exact::lemma_commute(sy * d, mx);
    exact::lemma_commute(sx * d, y.1);
    exact::lemma_commute(sx * d, my);
    exact::lemma_regroup(mx, sy, d);
    exact::lemma_regroup(my, sx, d);
    exact::lemma_factor(mx * sy, my * sx, d);
}

proof fn lemma_slopes(m: real)
    by (nonlinear_arith)
    requires
        m >= 0 as real,
    ensures
        ({
            let m2 = m * m;
            let m3 = m2 * m;
            let m5 = m3 * m2;
            let m7 = m5 * m2;
            let m4 = m2 * m2;
            let m6 = m4 * m2;
            let m8 = m6 * m2;
            &&& m * (1 as real) + m * (1 as real) == (2 as real) * m
            &&& m2 * (1 as real) + m * ((2 as real) * m) == (3 as real) * m2
            &&& m3 * ((2 as real) * m) + m2 * ((3 as real) * m2) == (5 as real) * m4
            &&& m5 * ((2 as real) * m) + m2 * ((5 as real) * m4) == (7 as real) * m6
            &&& m7 * ((2 as real) * m) + m2 * ((7 as real) * m6) == (9 as real) * m8
        }),
{
}

/// The powers of two angles below `m` that a fisheye polynomial adds up differ
/// by at most their derivatives at `m` times the angles' distance.
proof fn lemma_power_gaps(a: real, b: real, m: real)
    requires
        0 as real <= a <= m,
        0 as real <= b <= m,
    ensures
        ({
            let d = size(a - b);
            let (a2, b2, m2) = (a * a, b * b, m * m);
            let (a3, b3, m4) = (a2 * a, b2 * b, m2 * m2);
            let (a5, b5, m6) = (a3 * a2, b3 * b2, m4 * m2);
            let (a7, b7, m8) = (a5 * a2, b5 * b2, m6 * m2);
            let (a9, b9) = (a7 * a2, b7 * b2);
            &&& size(a3 - b3) <= ((3 as real) * m2) * d
            &&& size(a5 - b5) <= ((5 as real) * m4) * d
            &&& size(a7 - b7) <= ((7 as real) * m6) * d
            &&& size(a9 - b9) <= ((9 as real) * m8) * d
        }),
{
    let one = 1 as real;
    let d = size(a - b);
    let (a2, b2, m2) = (a * a, b * b, m * m);
    let (a3, b3, m3) = (a2 * a, b2 * b, m2 * m);
    let (a5, b5, m5) = (a3 * a2, b3 * b2, m3 * m2);
    let (a7, b7, m7) = (a5 * a2, b5 * b2, m5 * m2);
    let m4 = m2 * m2;
    let m6 = m4 * m2;
    let m8 = m6 * m2;
    lemma_slopes(m);
    lemma_nonnegative(m, m);
    lemma_nonnegative(m2, m2);
    lemma_nonnegative(m4, m2);
    lemma_nonnegative(m6, m2);
    assert(one * d == d);
    lemma_product_gap((a, b), (a, b), m, m, one, one, d);
    lemma_product_gap((a2, b2), (a, b), m2, m, (2 as real) * m, one, d);
    lemma_product_gap((a3, b3), (a2, b2), m3, m2, (3 as real) * m2, (2 as real) * m, d);
    lemma_product_gap((a5, b5), (a2, b2), m5, m2, (5 as real) * m4, (2 as real) * m, d);
    lemma_product_gap((a7, b7), (a2, b2), m7, m2, (7 as real) * m6, (2 as real) * m, d);
}

/// Between zero and `m` a fisheye polynomial changes by at most its steepness
/// times the distance of two angles.
pub proof fn polynomial_changes_slowly<S: Geometric>(
    value: spec_fn(S) -> real,
    p: KannalaBrandt4Params<S>,
    a: Num<S>,
    b: Num<S>,
    m: real,
)
    requires
        exact::is_exact(value),
        0 as real <= exact::of(value, a) <= m,
        0 as real <= exact::of(value, b) <= m,
    ensures
        size(exact::of(value, camera::kb4_d(a, &p)) - exact::of(value, camera::kb4_d(b, &p)))
            <= steepness(value, &p, m) * size(exact::of(value, a) - exact::of(value, b)),
{
    let (x, y) = (exact::of(value, a), exact::of(value, b));
    let d = size(x - y);
    let (x2, y2, m2) = (x * x, y * y, m * m);
    let (x3, y3, m4) = (x2 * x, y2 * y, m2 * m2);
    let (x5, y5, m6) = (x3 * x2, y3 * y2, m4 * m2);
    let (x7, y7, m8) = (x5 * x2, y5 * y2, m6 * m2);
    let (x9, y9) = (x7 * x2, y7 * y2);
    let k = (
        exact::of(value, p.k1),
        exact::of(value, p.k2),
        exact::of(value, p.k3),
        exact::of(value, p.k4),
    );
    let s = ((3 as real) * m2, (5 as real) * m4, (7 as real) * m6, (9 as real) * m8);
    lemma_power_gaps(x, y, m);
    lemma_scaled(k.0, x3, y3, s.0 * d);
    lemma_scaled(k.1, x5, y5, s.1 * d);
    lemma_scaled(k.2, x7, y7, s.2 * d);
    lemma_scaled(k.3, x9, y9, s.3 * d);
    let c = (size(k.0), size(k.1), size(k.2), size(k.3));
    exact::lemma_regroup(c.0, s.0, d);
    exact::lemma_regroup(c.1, s.1, d);
    exact::lemma_regroup(c.2, s.2, d);
    exact::lemma_regroup(c.3, s.3, d);
    let one = 1 as real;
    exact::lemma_factor(one, c.0 * s.0, d);
    exact::lemma_factor(one + c.0 * s.0, c.1 * s.1, d);
    exact::lemma_factor(one + c.0 * s.0 + c.1 * s.1, c.2 * s.2, d);
    exact::lemma_factor(one + c.0 * s.0 + c.1 * s.1 + c.2 * s.2, c.3 * s.3, d);
    assert(one * d == d);
    assert(exact::of(value, camera::kb4_d(a, &p)) == x + k.0 * x3 + k.1 * x5 + k.2 * x7 + k.3 * x9);
    assert(exact::of(value, camera::kb4_d(b, &p)) == y + k.0 * y3 + k.1 * y5 + k.2 * y7 + k.3 * y9);
}

/// The width at which the search for a fisheye angle stops is above zero, and
/// a hundred halvings of half a turn go below it.
pub open spec fn resolves<S: Geometric>(value: spec_fn(S) -> real) -> bool {
    let width = value(scalar::literal("1e-14"));
    width > 0 as real && exact::of(value, num::pi()) <= doubled(width, 100)
}

proof fn lemma_doubled_keeps_order(x: real, y: real, n: int)
    requires
        x < y,
    ensures
        doubled(x, n) < doubled(y, n),
    decreases n,
{
    if n > 0 {
        lemma_doubled_keeps_order(x, y, n - 1);
    }
}

proof fn lemma_cancel(x: real, y: real, d: real)
    by (nonlinear_arith)
    requires
        d > 0 as real,
        x * d <= y * d,
    ensures
        x <= y,
{
}

/// A focal length `f` that `r` stands for at the image edge `c`, and the one
/// that a radius within `e` of `r` gives.
proof fn lemma_near(c: real, f: real, r: real, found: real, e: real, tolerance: real)
    requires
        c > 0 as real,
        f > 0 as real,
        r == c / f,
        tolerance > 0 as real,
        size(found - r) <= e,
        e <= tolerance * (r - e),
    ensures
        found > 0 as real,
        size(c / found - f) <= tolerance * f,
{
    let zero = 0 as real;
    lemma_restore(c, f);
    lemma_divide_twice(c, f);
    assert(r > zero) by {
        if r <= zero {
            lemma_monotone(f, r, zero);
            exact::lemma_commute(f, r);
            exact::lemma_times_zero(f, zero);
        }
    }
    assert(r - e > zero) by {
        if r - e <= zero {
            lemma_monotone(tolerance, r - e, zero);
            exact::lemma_times_zero(tolerance, zero);
        }
    }
    let back = c / found;
    lemma_restore(c, found);
    exact::lemma_commute(f, r);
    exact::lemma_commute(f, found);
    // The distance, times the radius that was found.
    lemma_scaled(f, r, found, e);
    exact::lemma_factor(back, -f, found);
    exact::lemma_opposite(f, found);
    exact::lemma_opposite(back - f, found);
    assert((back - f) * found == f * r - f * found);
    lemma_monotone(f, e, tolerance * (r - e));
    lemma_monotone(tolerance, r - e, found);
    lemma_monotone(f, tolerance * (r - e), tolerance * found);
    exact::lemma_regroup(f, tolerance, found);
    exact::lemma_commute(f, tolerance);
    lemma_cancel(back - f, tolerance * f, found);
    lemma_cancel(-(back - f), tolerance * f, found);
}

/// How far the polynomial's value at an angle that was searched for can be from
/// the target: its steepness up to that angle and the width at which the search
/// stops, times that width.
pub open spec fn blur<S: Geometric>(
    value: spec_fn(S) -> real,
    p: &KannalaBrandt4Params<S>,
    angle: real,
) -> real {
    let width = value(scalar::literal("1e-14"));
    steepness(value, p, angle + width) * width
}

/// The polynomial's value at an inverted angle is the target, up to the blur of
/// that angle, for every target that the polynomial reaches before its fold.
pub proof fn inverted_angle_is_accurate<S: Geometric>(
    value: spec_fn(S) -> real,
    target: Num<S>,
    p: KannalaBrandt4Params<S>,
)
    requires
        exact::is_exact(value),
        counts_exactly(value),
        resolves(value),
        0 as real <= exact::of(value, target) < exact::of(
            value,
            camera::kb4_d(camera::fold_of(&p), &p),
        ),
    ensures
        ({
            let angle = camera::angle_of(target, &p);
            size(exact::of(value, camera::kb4_d(angle, &p)) - exact::of(value, target)) <= blur(
                value,
                &p,
                exact::of(value, angle),
            )
        }),
{
    inverted_angle_is_enclosed(value, target, p);
    fold_is_within_half_a_turn(value, p);
    let angle = camera::angle_of(target, &p);
    let at = exact::of(value, angle);
    let w = value(scalar::literal("1e-14"));
    let m = at + w;
    let steep = steepness(value, &p, m);
    let r = exact::of(value, target);
    lemma_steepness(value, p, m);
    if r <= 0 as real {
        exact::products_with_zero_and_one(value);
        assert(exact::of(value, camera::kb4_d(angle, &p)) == 0 as real);
        lemma_nonnegative(steep, w);
    } else {
        let end = last_bracket(target, &p);
        let left = exact::of(value, end.1) - exact::of(value, end.0);
        if w < left {
            lemma_doubled_keeps_order(w, left, 100);
        }
        polynomial_changes_slowly(value, p, angle, end.0, m);
        polynomial_changes_slowly(value, p, end.1, angle, m);
        lemma_monotone(steep, at - exact::of(value, end.0), w);
        lemma_monotone(steep, exact::of(value, end.1) - at, w);
    }
}

/// A focal length comes back from a fisheye lens's field of view to within a
/// tolerance, wherever the image edge lies before the fold and far enough from
/// the centre for the search to tell it apart: the blur of the angle that was
/// found has to be small next to the edge's radius.
/// The same is true of a thin-prism lens with these coefficients.
pub proof fn fisheye_focal_length_comes_back<N: Narrow>(
    value: spec_fn(N::Wide) -> real,
    focal: Num<N::Wide>,
    pixels: u32,
    lens: ThinPrismFisheyeParams<N>,
    tolerance: real,
)
    requires
        exact::is_exact(value),
        counts_exactly(value),
        resolves(value),
        pixels > 0,
        exact::of(value, focal) > 0 as real,
        tolerance > 0 as real,
        ({
            let wide = camera::widen_kb4(lens.kb4);
            let r = exact::of(value, edge_radius(focal, pixels));
            let half = camera::half_field(
                edge_radius(focal, pixels),
                CameraModel::KannalaBrandt4(lens.kb4),
            );
            let blur = blur(value, &wide, exact::of(value, half));
            &&& r < exact::of(value, camera::kb4_d(camera::fold_of(&wide), &wide))
            &&& blur <= tolerance * (r - blur)
        }),
    ensures
        ({
            let model = CameraModel::KannalaBrandt4(lens.kb4);
            let back = camera::focal_of(camera::fov_of(focal, pixels, model), pixels, model);
            size(exact::of(value, back) - exact::of(value, focal)) <= tolerance * exact::of(
                value,
                focal,
            )
        }),
        ({
            let model = CameraModel::ThinPrismFisheye(lens);
            let back = camera::focal_of(camera::fov_of(focal, pixels, model), pixels, model);
            size(exact::of(value, back) - exact::of(value, focal)) <= tolerance * exact::of(
                value,
                focal,
            )
        }),
{
    let p = lens.kb4;
    let model = CameraModel::KannalaBrandt4(p);
    let wide = camera::widen_kb4(p);
    let f = exact::of(value, focal);
    let c = value(scalar::from_count(pixels)) / (2 as real);
    let target = edge_radius(focal, pixels);
    let r = exact::of(value, target);
    assert(r == c / f);
    lemma_positive_quotient(c, f);
    inverted_angle_is_accurate(value, target, wide);
    let half = camera::half_field(target, model);
    let found = exact::of(value, camera::kb4_d(half, &wide));
    lemma_near(c, f, r, found, blur(value, &wide, exact::of(value, half)), tolerance);
    let again = camera::fov_of(focal, pixels, model) / Num {
        value: scalar::literal::<N::Wide>("2.0"),
    };
    assert(exact::of(value, again) == exact::of(value, half));
    lemma_same_angle(value, again, half, &wide);
    camera::thin_prism_shares_the_polynomial(lens, focal, pixels);
    camera::thin_prism_shares_the_polynomial(
        lens,
        camera::fov_of(focal, pixels, model),
        pixels,
    );
}

pub(crate) proof fn lemma_positive_quotient(c: real, f: real)
    by (nonlinear_arith)
    requires
        c > 0 as real,
        f > 0 as real,
    ensures
        c / f > 0 as real,
{
}

proof fn lemma_steepness<S: Geometric>(
    value: spec_fn(S) -> real,
    p: KannalaBrandt4Params<S>,
    m: real,
)
    requires
        m >= 0 as real,
    ensures
        steepness(value, &p, m) >= 1 as real,
{
    let m2 = m * m;
    let m4 = m2 * m2;
    let m6 = m4 * m2;
    let m8 = m6 * m2;
    lemma_nonnegative(m, m);
    lemma_nonnegative(m2, m2);
    lemma_nonnegative(m4, m2);
    lemma_nonnegative(m6, m2);
    lemma_nonnegative(size(exact::of(value, p.k1)), (3 as real) * m2);
    lemma_nonnegative(size(exact::of(value, p.k2)), (5 as real) * m4);
    lemma_nonnegative(size(exact::of(value, p.k3)), (7 as real) * m6);
    lemma_nonnegative(size(exact::of(value, p.k4)), (9 as real) * m8);
}

proof fn lemma_nonnegative(a: real, b: real)
    by (nonlinear_arith)
    requires
        a >= 0 as real,
        b >= 0 as real,
    ensures
        a * b >= 0 as real,
{
}

} // verus!
