//! What lenses do, in plain numbers: the images of points, the focal lengths and
//! the centre of a camera, and the limits of the projection's Jacobian.
use vstd::prelude::*;

use crate::camera;
use crate::camera::{
    Camera, CameraModel, KannalaBrandt4Params, Narrow, PinholeParams, Probe,
    RadialTangential8Params,
};
use crate::exact;
use crate::num;
use crate::num::{Geometric, Num, Vec3};
use crate::projection;
use crate::raster_census::UVec2;
use crate::round_trip;
use crate::scalar;
use crate::slope;

verus! {

/// Going to the wider type and back keeps the numbers.
pub open spec fn keeps_numbers<N: Narrow>(
    value: spec_fn(N) -> real,
    wide: spec_fn(N::Wide) -> real,
) -> bool {
    &&& forall|a: Num<N>|
        exact::of(wide, #[trigger] camera::widen(a)) == exact::of(value, a)
    &&& forall|a: Num<N::Wide>|
        exact::of(value, #[trigger] camera::narrow::<N>(a)) == exact::of(wide, a)
}

/// The image of a point through a pinhole is as far from the centre, in focal
/// lengths, as the point is from the axis, in depths.
pub proof fn pinhole_images_are_similar<S: Geometric>(
    value: spec_fn(S) -> real,
    point: Vec3<S>,
    params: PinholeParams<S>,
)
    requires
        exact::is_exact(value),
        exact::of(value, point.z) != 0 as real,
    ensures
        ({
            let image = projection::project_pinhole(point, params);
            let z = exact::of(value, point.z);
            &&& (exact::of(value, image.x) - exact::of(value, params.cx)) * z == exact::of(
                value,
                params.fx,
            ) * exact::of(value, point.x)
            &&& (exact::of(value, image.y) - exact::of(value, params.cy)) * z == exact::of(
                value,
                params.fy,
            ) * exact::of(value, point.y)
        }),
{
    let z = exact::of(value, point.z);
    let fx = exact::of(value, params.fx) * exact::of(value, point.x);
    let fy = exact::of(value, params.fy) * exact::of(value, point.y);
    projection::lemma_quotient(fx, z);
    projection::lemma_quotient(fy, z);
    round_trip::lemma_restore(fx, z);
    round_trip::lemma_restore(fy, z);
}

/// The angle is half of the field of view.
pub open spec fn halves<S: Geometric>(value: spec_fn(S) -> real, angle: Num<S>, fov: Num<S>) -> bool {
    (2 as real) * exact::of(value, angle) == exact::of(value, fov)
}

/// The fisheye polynomial, as a number: odd powers of the angle from the first
/// to the ninth, one with each coefficient.
pub open spec fn fisheye_radius<S: Geometric>(
    value: spec_fn(S) -> real,
    p: KannalaBrandt4Params<S>,
    theta: real,
) -> real {
    let s = theta * theta;
    let (k1, k2) = (exact::of(value, p.k1), exact::of(value, p.k2));
    let (k3, k4) = (exact::of(value, p.k3), exact::of(value, p.k4));
    theta * ((1 as real) + s * (k1 + s * (k2 + s * (k3 + s * k4))))
}

/// The fisheye polynomial is that of its coefficients.
pub proof fn fisheye_polynomial_is_odd<S: Geometric>(
    value: spec_fn(S) -> real,
    theta: Num<S>,
    p: KannalaBrandt4Params<S>,
)
    requires
        exact::is_exact(value),
    ensures
        exact::of(value, camera::kb4_d(theta, &p)) == fisheye_radius(
            value,
            p,
            exact::of(value, theta),
        ),
{
    let t = exact::of(value, theta);
    let (k1, k2) = (exact::of(value, p.k1), exact::of(value, p.k2));
    let (k3, k4) = (exact::of(value, p.k3), exact::of(value, p.k4));
    let s = t * t;
    let (a4, a3) = (s * k4, s * (k3 + s * k4));
    let a2 = s * (k2 + a3);
    let a1 = s * (k1 + a2);
    let t3 = s * t;
    let t5 = t3 * s;
    let t7 = t5 * s;
    let t9 = t7 * s;
    // t a1 = k1 t3 + t3 a2 and so on.
    exact::lemma_in_front(t, 1 as real, a1);
    assert(t * (1 as real) == t);
    lemma_next_power(t, s, k1, a2);
    exact::lemma_commute(t, s);
    lemma_next_power(t3, s, k2, a3);
    lemma_next_power(t5, s, k3, a4);
    assert(t7 * a4 == k4 * t9) by {
        exact::lemma_regroup(t7, s, k4);
        exact::lemma_commute(t9, k4);
    }
}

proof fn lemma_next_power(t: real, s: real, k: real, rest: real)
    ensures
        t * (s * (k + rest)) == k * (t * s) + (t * s) * rest,
{
    exact::lemma_regroup(t, s, k + rest);
    exact::lemma_in_front(t * s, k, rest);
    exact::lemma_commute(t * s, k);
}

/// The focal lengths of a camera belong to its axes: through a pinhole, half of
/// the field of view along an axis leads to half of the image along that axis.
pub proof fn pinhole_focal_lengths_meet_the_edges<N: Narrow>(
    value: spec_fn(N) -> real,
    wide: spec_fn(N::Wide) -> real,
    c: Camera<N>,
    size: UVec2,
    half_x: Num<N::Wide>,
    half_y: Num<N::Wide>,
)
    requires
        exact::is_exact(wide),
        exact::chooses(wide),
        keeps_numbers(value, wide),
        round_trip::tangents_invert(wide),
        c.camera_model is Pinhole,
        halves(wide, half_x, c.fov_x),
        halves(wide, half_y, c.fov_y),
        exact::of(wide, half_x.tangent()) != 0 as real,
        exact::of(wide, half_y.tangent()) != 0 as real,
    ensures
        exact::of(value, c.focals(size).x) * exact::of(wide, half_x.tangent()) == ((
        size.x as int) as real) / (2 as real),
        exact::of(value, c.focals(size).y) * exact::of(wide, half_y.tangent()) == ((
        size.y as int) as real) / (2 as real),
{
    let two = Num { value: scalar::literal::<N::Wide>("2.0") };
    assert(exact::of(wide, (c.fov_x / two).tangent()) == exact::of(wide, half_x.tangent()));
    assert(exact::of(wide, (c.fov_y / two).tangent()) == exact::of(wide, half_y.tangent()));
    round_trip::lemma_restore(((size.x as int) as real) / (2 as real), exact::of(wide, half_x.tangent()));
    round_trip::lemma_restore(((size.y as int) as real) / (2 as real), exact::of(wide, half_y.tangent()));
}

/// The same of a fisheye lens: its polynomial leads half of the field of view
/// along an axis to half of the image along that axis.
pub proof fn fisheye_focal_lengths_meet_the_edges<N: Narrow>(
    value: spec_fn(N) -> real,
    wide: spec_fn(N::Wide) -> real,
    c: Camera<N>,
    size: UVec2,
    p: KannalaBrandt4Params<N>,
)
    requires
        exact::is_exact(wide),
        exact::chooses(wide),
        keeps_numbers(value, wide),
        c.camera_model == CameraModel::KannalaBrandt4(p) || (c.camera_model matches
            CameraModel::ThinPrismFisheye(t) && t.kb4 == p),
        fisheye_radius(value, p, exact::of(wide, c.fov_x) / (2 as real)) != 0 as real,
        fisheye_radius(value, p, exact::of(wide, c.fov_y) / (2 as real)) != 0 as real,
    ensures
        exact::of(value, c.focals(size).x) * fisheye_radius(
            value,
            p,
            exact::of(wide, c.fov_x) / (2 as real),
        ) == ((size.x as int) as real) / (2 as real),
        exact::of(value, c.focals(size).y) * fisheye_radius(
            value,
            p,
            exact::of(wide, c.fov_y) / (2 as real),
        ) == ((size.y as int) as real) / (2 as real),
{
    let two = Num { value: scalar::literal::<N::Wide>("2.0") };
    let w = camera::widen_kb4(p);
    fisheye_polynomial_is_odd(wide, c.fov_x / two, w);
    fisheye_polynomial_is_odd(wide, c.fov_y / two, w);
    let rx = fisheye_radius(value, p, exact::of(wide, c.fov_x) / (2 as real));
    let ry = fisheye_radius(value, p, exact::of(wide, c.fov_y) / (2 as real));
    assert(fisheye_radius(wide, w, exact::of(wide, c.fov_x) / (2 as real)) == rx);
    assert(fisheye_radius(wide, w, exact::of(wide, c.fov_y) / (2 as real)) == ry);
    round_trip::lemma_restore(((size.x as int) as real) / (2 as real), rx);
    round_trip::lemma_restore(((size.y as int) as real) / (2 as real), ry);
}

/// The rational radial factor: what it makes of the squared radius `s`, as a
/// dividend and a divisor.
pub open spec fn radial_terms<S: Geometric>(
    value: spec_fn(S) -> real,
    p: RadialTangential8Params<S>,
    s: real,
) -> (real, real) {
    let k = (exact::of(value, p.k1), exact::of(value, p.k2), exact::of(value, p.k3));
    let l = (exact::of(value, p.k4), exact::of(value, p.k5), exact::of(value, p.k6));
    (
        (1 as real) + s * (k.0 + s * (k.1 + s * k.2)),
        (1 as real) + s * (l.0 + s * (l.1 + s * l.2)),
    )
}

/// One of the two, term by term.
proof fn lemma_terms(k1: real, k2: real, k3: real, s: real)
    ensures
        (1 as real) + k1 * s + k2 * (s * s) + k3 * ((s * s) * s) == (1 as real) + s * (k1 + s * (k2
            + s * k3)),
{
    exact::lemma_in_front(s, k2, s * k3);
    exact::lemma_in_front(s, k1, s * (k2 + s * k3));
    exact::lemma_in_front(s, s * k2, s * (s * k3));
    exact::lemma_commute(k1, s);
    exact::lemma_commute(k2, s * s);
    exact::lemma_regroup(s, s, k2);
    exact::lemma_commute(k3, (s * s) * s);
    exact::lemma_regroup(s * s, s, k3);
    exact::lemma_regroup(s, s, s * k3);
}

/// The distorted radius of the rational model: times the divisor of its squared
/// radius, it is the radius times the dividend.
pub proof fn rational_radius_is_a_ratio<S: Geometric>(
    value: spec_fn(S) -> real,
    r: Num<S>,
    p: RadialTangential8Params<S>,
)
    requires
        exact::is_exact(value),
        radial_terms(value, p, exact::of(value, r) * exact::of(value, r)).1 != 0 as real,
    ensures
        ({
            let x = exact::of(value, r);
            let t = radial_terms(value, p, x * x);
            exact::of(value, camera::rt8_distort(r, &p)) * t.1 == x * t.0
        }),
{
    let x = exact::of(value, r);
    let s = x * x;
    lemma_terms(exact::of(value, p.k1), exact::of(value, p.k2), exact::of(value, p.k3), s);
    lemma_terms(exact::of(value, p.k4), exact::of(value, p.k5), exact::of(value, p.k6), s);
    let t = radial_terms(value, p, s);
    assert(exact::of(value, camera::rt8_radial(r, &p)) == t.0 / t.1);
    exact::lemma_regroup(x, t.0 / t.1, t.1);
    round_trip::lemma_restore(t.0, t.1);
}

/// The same of the rational model: the distorted tangent of half of the field of
/// view along an axis leads to half of the image along that axis.
pub proof fn rational_focal_lengths_meet_the_edges<N: Narrow>(
    value: spec_fn(N) -> real,
    wide: spec_fn(N::Wide) -> real,
    c: Camera<N>,
    size: UVec2,
    p: RadialTangential8Params<N>,
    half_x: Num<N::Wide>,
    half_y: Num<N::Wide>,
)
    requires
        exact::is_exact(wide),
        exact::chooses(wide),
        keeps_numbers(value, wide),
        round_trip::tangents_invert(wide),
        c.camera_model == CameraModel::RadialTangential8(p),
        halves(wide, half_x, c.fov_x),
        halves(wide, half_y, c.fov_y),
        ({
            let (x, y) = (exact::of(wide, half_x.tangent()), exact::of(wide, half_y.tangent()));
            let (u, v) = (radial_terms(value, p, x * x), radial_terms(value, p, y * y));
            x * u.0 != 0 as real && u.1 != 0 as real && y * v.0 != 0 as real && v.1 != 0 as real
        }),
    ensures
        ({
            let (x, y) = (exact::of(wide, half_x.tangent()), exact::of(wide, half_y.tangent()));
            let (u, v) = (radial_terms(value, p, x * x), radial_terms(value, p, y * y));
            let two = 2 as real;
            &&& exact::of(value, c.focals(size).x) * (x * u.0) == (((size.x as int) as real) / two)
                * u.1
            &&& exact::of(value, c.focals(size).y) * (y * v.0) == (((size.y as int) as real) / two)
                * v.1
        }),
{
    let two = Num { value: scalar::literal::<N::Wide>("2.0") };
    let w = camera::widen_rt8(p);
    let (ax, ay) = ((c.fov_x / two).tangent(), (c.fov_y / two).tangent());
    assert(exact::of(wide, ax) == exact::of(wide, half_x.tangent()));
    assert(exact::of(wide, ay) == exact::of(wide, half_y.tangent()));
    let (x, y) = (exact::of(wide, ax), exact::of(wide, ay));
    assert(radial_terms(wide, w, x * x) == radial_terms(value, p, x * x));
    assert(radial_terms(wide, w, y * y) == radial_terms(value, p, y * y));
    lemma_rational_axis(wide, ax, size.x, w);
    lemma_rational_axis(wide, ay, size.y, w);
}

/// One axis of it.
proof fn lemma_rational_axis<S: Geometric>(
    value: spec_fn(S) -> real,
    a: Num<S>,
    pixels: u32,
    p: RadialTangential8Params<S>,
)
    requires
        exact::is_exact(value),
        exact::chooses(value),
        ({
            let x = exact::of(value, a);
            let t = radial_terms(value, p, x * x);
            x * t.0 != 0 as real && t.1 != 0 as real
        }),
    ensures
        ({
            let x = exact::of(value, a);
            let t = radial_terms(value, p, x * x);
            let half = Num { value: scalar::from_count::<S>(pixels) } / Num {
                value: scalar::literal("2.0"),
            };
            exact::of(value, half / camera::rt8_distort(a, &p)) * (x * t.0) == (((
            pixels as int) as real) / (2 as real)) * t.1
        }),
{
    let x = exact::of(value, a);
    let t = radial_terms(value, p, x * x);
    rational_radius_is_a_ratio(value, a, p);
    let d = exact::of(value, camera::rt8_distort(a, &p));
    if d == 0 as real {
        exact::lemma_times_zero(d, t.1);
    }
    let h = ((pixels as int) as real) / (2 as real);
    round_trip::lemma_restore(h, d);
    exact::lemma_regroup(h / d, d, t.1);
}

/// A camera that was given the fields of view of two focal lengths has these
/// focal lengths, each along its own axis.
pub proof fn focal_lengths_come_back_by_axis<N: Narrow>(
    value: spec_fn(N) -> real,
    wide: spec_fn(N::Wide) -> real,
    c: Camera<N>,
    size: UVec2,
    fx: Num<N::Wide>,
    fy: Num<N::Wide>,
)
    requires
        exact::is_exact(wide),
        exact::chooses(wide),
        keeps_numbers(value, wide),
        round_trip::tangents_invert(wide),
        size.x > 0,
        size.y > 0,
        exact::of(wide, fx) > 0 as real,
        exact::of(wide, fy) > 0 as real,
        c.fov_x == camera::fov_of(fx, size.x, c.camera_model),
        c.fov_y == camera::fov_of(fy, size.y, c.camera_model),
        round_trip::is_solved(wide, round_trip::edge_radius(fx, size.x), c.camera_model),
        round_trip::is_solved(wide, round_trip::edge_radius(fy, size.y), c.camera_model),
    ensures
        exact::of(value, c.focals(size).x) == exact::of(wide, fx),
        exact::of(value, c.focals(size).y) == exact::of(wide, fy),
{
    round_trip::focal_length_comes_back(wide, fx, size.x, c.camera_model);
    round_trip::focal_length_comes_back(wide, fy, size.y, c.camera_model);
}

/// The centre of an image of a size is that part of each side that the camera
/// gives for its axis.
pub proof fn centre_is_a_part_of_each_side<N: Narrow>(
    value: spec_fn(N) -> real,
    c: Camera<N>,
    size: UVec2,
)
    requires
        exact::is_exact(value),
        exact::chooses(value),
    ensures
        ({
            let p = c.pinhole_at(size);
            &&& exact::of(value, p.cx) == exact::of(value, c.center_uv.x) * ((size.x as int) as real)
            &&& exact::of(value, p.cy) == exact::of(value, c.center_uv.y) * ((size.y as int) as real)
            &&& exact::of(value, p.fx) == exact::of(value, c.focals(size).x)
            &&& exact::of(value, p.fy) == exact::of(value, c.focals(size).y)
        }),
{
}

/// The margins of the limits are the numbers that they denote.
pub open spec fn reads_margins<S: Geometric>(value: spec_fn(S) -> real) -> bool {
    &&& exact::reads(value, "1.15", 115, 100)
    &&& exact::reads(value, "-0.15", -15, 100)
}

/// A normalized coordinate whose image lies as far along a side as a number of
/// hundredths of it.
pub open spec fn lies_at<S: Geometric>(
    value: spec_fn(S) -> real,
    limit: Num<S>,
    focal: Num<S>,
    centre: Num<S>,
    pixels: u32,
    hundredths: int,
) -> bool {
    (exact::of(value, limit) * exact::of(value, focal) + exact::of(value, centre)) * (100 as real)
        == (hundredths as real) * ((pixels as int) as real)
}

proof fn lemma_edge<S: Geometric>(
    value: spec_fn(S) -> real,
    margin: Num<S>,
    hundredths: int,
    pixels: u32,
    c: Num<S>,
    f: Num<S>,
)
    requires
        exact::is_exact(value),
        exact::chooses(value),
        exact::of(value, f) != 0 as real,
        exact::of(value, margin) == (hundredths as real) / (100 as real),
    ensures
        lies_at(value, camera::edge(margin, pixels, c, f), f, c, pixels, hundredths),
{
    let n = (pixels as int) as real;
    let m = exact::of(value, margin);
    round_trip::lemma_restore(m * n - exact::of(value, c), exact::of(value, f));
    exact::lemma_swap_last(m, n, 100 as real);
    assert(m * (100 as real) == hundredths as real);
}

/// The limits of a pinhole's Jacobian are where the image, with a margin of
/// fifteen hundredths of its side, ends: beyond the far edge and before the near
/// one.
pub proof fn pinhole_limits_are_the_padded_image<N: Narrow>(
    value: spec_fn(N) -> real,
    size: UVec2,
    pinhole: PinholeParams<N>,
)
    requires
        exact::is_exact(value),
        exact::chooses(value),
        reads_margins(value),
        exact::of(value, pinhole.fx) != 0 as real,
        exact::of(value, pinhole.fy) != 0 as real,
    ensures
        ({
            let l = camera::clamp_limits(size, pinhole, CameraModel::Pinhole);
            &&& lies_at(value, l.lim_pos_x, pinhole.fx, pinhole.cx, size.x, 115)
            &&& lies_at(value, l.lim_pos_y, pinhole.fy, pinhole.cy, size.y, 115)
            &&& lies_at(value, l.lim_neg_x, pinhole.fx, pinhole.cx, size.x, -15)
            &&& lies_at(value, l.lim_neg_y, pinhole.fy, pinhole.cy, size.y, -15)
            &&& l.lim_r == num::largest::<N>()
        }),
{
    let (more, less) = (
        Num { value: scalar::literal::<N>("1.15") },
        Num { value: scalar::literal::<N>("-0.15") },
    );
    lemma_edge(value, more, 115, size.x, pinhole.cx, pinhole.fx);
    lemma_edge(value, more, 115, size.y, pinhole.cy, pinhole.fy);
    lemma_edge(value, less, -15, size.x, pinhole.cx, pinhole.fx);
    lemma_edge(value, less, -15, size.y, pinhole.cy, pinhole.fy);
}

/// The sign of a number other than zero is one or minus one.
pub open spec fn signs<S: Geometric>(value: spec_fn(S) -> real) -> bool {
    &&& forall|a: Num<S>|
        exact::of(value, a) > 0 as real ==> exact::of(value, #[trigger] a.sign()) == 1 as real
    &&& forall|a: Num<S>|
        exact::of(value, a) < 0 as real ==> exact::of(value, #[trigger] a.sign()) == -(1 as real)
}

/// The search for the undistorted radius of an edge ended on a solution.
pub open spec fn edge_is_solved<N: Narrow>(
    wide: spec_fn(N::Wide) -> real,
    edge: Num<N>,
    p: RadialTangential8Params<N>,
) -> bool {
    let r_d = camera::widen(edge).magnitude();
    let w = camera::widen_rt8(p);
    let r = camera::undistorted(r_d, r_d, &w, 30);
    let x = exact::of(wide, r);
    &&& radial_terms(wide, w, x * x).1 != 0 as real
    &&& exact::of(wide, camera::rt8_distort(r, &w)) == exact::of(wide, r_d)
}

/// Through the rational model, the image of `limit` on an axis is at `edge`.
pub open spec fn distorts_to<S: Geometric>(
    value: spec_fn(S) -> real,
    p: RadialTangential8Params<S>,
    limit: Num<S>,
    edge: Num<S>,
) -> bool {
    let x = exact::of(value, limit);
    let t = radial_terms(value, p, x * x);
    x * t.0 == exact::of(value, edge) * t.1
}

/// A limit of the rational model is distorted to the edge that it was computed
/// from, on the same side of the centre.
pub proof fn undistorted_edges_distort_back<N: Narrow>(
    value: spec_fn(N) -> real,
    wide: spec_fn(N::Wide) -> real,
    edge: Num<N>,
    p: RadialTangential8Params<N>,
)
    requires
        exact::is_exact(value),
        signs(value),
        exact::is_exact(wide),
        exact::chooses(wide),
        keeps_numbers(value, wide),
        exact::of(value, edge) != 0 as real,
        edge_is_solved(wide, edge, p),
    ensures
        distorts_to(value, p, camera::undistorted_edge(edge, p), edge),
{
    let r_d = camera::widen(edge).magnitude();
    let w = camera::widen_rt8(p);
    let r = camera::undistorted(r_d, r_d, &w, 30);
    let x = exact::of(wide, r);
    let limit = camera::undistorted_edge(edge, p);
    let e = exact::of(value, edge);
    let t = radial_terms(wide, w, x * x);
    rational_radius_is_a_ratio(wide, r, w);
    let one = 1 as real;
    if e > 0 as real {
        assert(x * one == x);
        assert(exact::of(value, limit) == x);
        assert(radial_terms(value, p, x * x) == t);
    } else {
        exact::lemma_in_front(x, one, one);
        assert(x * one == x);
        assert(exact::of(value, limit) == -x);
        exact::lemma_opposite(x, -x);
        exact::lemma_in_front(x, x, x);
        assert((-x) * (-x) == x * x);
        assert(radial_terms(value, p, x * x) == t);
        exact::lemma_opposite(x, t.0);
        exact::lemma_opposite(e, t.1);
    }
}

/// The hypotenuse is the number from zero on whose square is that of both sides
/// together.
pub open spec fn measures<S: Geometric>(value: spec_fn(S) -> real) -> bool {
    forall|a: Num<S>, b: Num<S>|
        exact::of(value, #[trigger] a.hypotenuse(b)) >= 0 as real && exact::of(value, a.hypotenuse(b))
            * exact::of(value, a.hypotenuse(b)) == exact::of(value, a) * exact::of(value, a)
            + exact::of(value, b) * exact::of(value, b)
}

/// The farther of two numbers from zero, as a distance.
pub open spec fn farther(a: real, b: real) -> real {
    if round_trip::size(a) < round_trip::size(b) {
        round_trip::size(b)
    } else {
        round_trip::size(a)
    }
}

/// The distance of the farthest corner of a box around the centre.
pub proof fn corner_is_the_farthest<N: Narrow>(
    value: spec_fn(N) -> real,
    wide: spec_fn(N::Wide) -> real,
    pos_x: Num<N>,
    neg_x: Num<N>,
    pos_y: Num<N>,
    neg_y: Num<N>,
)
    requires
        exact::chooses(value),
        measures(wide),
        keeps_numbers(value, wide),
    ensures
        ({
            let d = exact::of(wide, camera::corner_distance(pos_x, neg_x, pos_y, neg_y));
            let x = farther(exact::of(value, pos_x), exact::of(value, neg_x));
            let y = farther(exact::of(value, pos_y), exact::of(value, neg_y));
            d >= 0 as real && d * d == x * x + y * y
        }),
{
}

/// The limits of the rational model are the edges of the padded image,
/// undistorted, and the radius of its farthest corner.
pub proof fn rational_limits_are_the_undistorted_image<N: Narrow>(
    value: spec_fn(N) -> real,
    wide: spec_fn(N::Wide) -> real,
    size: UVec2,
    pinhole: PinholeParams<N>,
    p: RadialTangential8Params<N>,
)
    requires
        exact::is_exact(value),
        exact::chooses(value),
        signs(value),
        reads_margins(value),
        exact::is_exact(wide),
        exact::chooses(wide),
        keeps_numbers(value, wide),
        exact::of(value, pinhole.fx) != 0 as real,
        exact::of(value, pinhole.fy) != 0 as real,
        ({
            let l = camera::clamp_limits(size, pinhole, CameraModel::Pinhole);
            &&& exact::of(value, l.lim_pos_x) != 0 as real && edge_is_solved(wide, l.lim_pos_x, p)
            &&& exact::of(value, l.lim_pos_y) != 0 as real && edge_is_solved(wide, l.lim_pos_y, p)
            &&& exact::of(value, l.lim_neg_x) != 0 as real && edge_is_solved(wide, l.lim_neg_x, p)
            &&& exact::of(value, l.lim_neg_y) != 0 as real && edge_is_solved(wide, l.lim_neg_y, p)
        }),
    ensures
        ({
            let l = camera::clamp_limits(size, pinhole, CameraModel::Pinhole);
            let u = camera::clamp_limits(size, pinhole, CameraModel::RadialTangential8(p));
            &&& distorts_to(value, p, u.lim_pos_x, l.lim_pos_x)
            &&& distorts_to(value, p, u.lim_pos_y, l.lim_pos_y)
            &&& distorts_to(value, p, u.lim_neg_x, l.lim_neg_x)
            &&& distorts_to(value, p, u.lim_neg_y, l.lim_neg_y)
        }),
{
    let l = camera::clamp_limits(size, pinhole, CameraModel::Pinhole);
    undistorted_edges_distort_back(value, wide, l.lim_pos_x, p);
    undistorted_edges_distort_back(value, wide, l.lim_pos_y, p);
    undistorted_edges_distort_back(value, wide, l.lim_neg_x, p);
    undistorted_edges_distort_back(value, wide, l.lim_neg_y, p);
}

/// A fisheye lens has limits of zero.
pub proof fn fisheye_limits_are_zero<N: Narrow>(
    value: spec_fn(N) -> real,
    size: UVec2,
    pinhole: PinholeParams<N>,
    model: CameraModel<N>,
)
    requires
        exact::is_exact(value),
        model is KannalaBrandt4 || model is ThinPrismFisheye,
    ensures
        ({
            let l = camera::clamp_limits(size, pinhole, model);
            let zero = 0 as real;
            &&& exact::of(value, l.lim_pos_x) == zero && exact::of(value, l.lim_neg_x) == zero
            &&& exact::of(value, l.lim_pos_y) == zero && exact::of(value, l.lim_neg_y) == zero
            &&& l.lim_r == num::largest::<N>()
        }),
{
}

/// The steps that fisheye angles and rational radii are scanned by: the 128th
/// part of half a turn, and the 256th part of one.
pub proof fn scans_go_in_equal_steps<S: Geometric>(value: spec_fn(S) -> real, i: u32)
    requires
        exact::is_exact(value),
        exact::chooses(value),
        exact::reads(value, "16.0", 16, 1),
    ensures
        exact::of(value, camera::fold_angle::<S>(i)) * (128 as real) == ((i as int) as real)
            * exact::of(value, num::pi()),
        exact::of(value, camera::scan_radius::<S>(i)) * (256 as real) == (i as int) as real,
{
    let n = (i as int) as real;
    let turn = exact::of(value, num::pi::<S>());
    exact::lemma_regroup(n, turn / (128 as real), 128 as real);
    assert(value(scalar::literal::<S>("16.0")) == (16 as real) / (1 as real));
    assert((16 as real) / (4096 as real) == (1 as real) / (256 as real));
    exact::lemma_regroup(n, (1 as real) / (256 as real), 256 as real);
    assert(n * (1 as real) == n);
}

proof fn lemma_first_fall<S: Geometric>(p: &KannalaBrandt4Params<S>, i: int)
    requires
        1 <= i,
    ensures
        match camera::first_fall(p, i) {
            None => forall|j: int|
                i <= j <= 128 ==> !camera::kb4_dd_dtheta(
                    #[trigger] camera::fold_angle::<S>(j as u32),
                    p,
                ).at_most(num::zero()),
            Some(k) => {
                &&& i <= k <= 128
                &&& camera::kb4_dd_dtheta(camera::fold_angle::<S>(k as u32), p).at_most(num::zero())
                &&& forall|j: int|
                    i <= j < k ==> !camera::kb4_dd_dtheta(
                        #[trigger] camera::fold_angle::<S>(j as u32),
                        p,
                    ).at_most(num::zero())
            },
        },
    decreases 129 - i,
{
    if i <= 128 {
        lemma_first_fall(p, i + 1);
    }
}

/// A fisheye polynomial rises at an angle.
pub open spec fn rises<S: Geometric>(
    value: spec_fn(S) -> real,
    p: KannalaBrandt4Params<S>,
    angle: Num<S>,
) -> bool {
    exact::of(value, camera::kb4_dd_dtheta(angle, &p)) > 0 as real
}

/// The fold of a fisheye polynomial is its first turn: it rises at every step of
/// the scan before, and the bracket that the fold is the middle of has it rising
/// at the lower end and not at the upper. Where it rises at all steps, the fold
/// is half a turn.
pub proof fn fold_is_the_first_turn<S: Geometric>(
    value: spec_fn(S) -> real,
    p: KannalaBrandt4Params<S>,
)
    requires
        exact::is_exact(value),
        exact::chooses(value),
    ensures
        match camera::first_fall(&p, 1) {
            None => {
                &&& camera::fold_of(&p) == num::pi::<S>()
                &&& forall|j: int|
                    1 <= j <= 128 ==> rises(value, p, #[trigger] camera::fold_angle(j as u32))
            },
            Some(i) => {
                let end = camera::bracket(
                    Probe::Rising { p },
                    camera::angle_before(i),
                    camera::fold_angle(i as u32),
                    Num { value: scalar::literal("1e-12") },
                    64,
                );
                &&& 1 <= i <= 128
                &&& forall|j: int|
                    1 <= j < i ==> rises(value, p, #[trigger] camera::fold_angle(j as u32))
                &&& !rises(value, p, camera::fold_angle(i as u32))
                &&& rises(value, p, end.0) && !rises(value, p, end.1)
                &&& (2 as real) * exact::of(value, camera::fold_of(&p)) == exact::of(value, end.0)
                    + exact::of(value, end.1)
            },
        },
{
    lemma_first_fall(&p, 1);
    if let Some(i) = camera::first_fall(&p, 1) {
        let lo = camera::angle_before::<S>(i);
        let hi = camera::fold_angle::<S>(i as u32);
        let width = Num { value: scalar::literal::<S>("1e-12") };
        assert(rises(value, p, lo)) by {
            if i <= 1 {
                exact::products_with_zero_and_one(value);
            } else {
                assert(rises(value, p, camera::fold_angle((i - 1) as u32)));
            }
        }
        camera::bisection_keeps_the_turn(Probe::Rising { p }, lo, hi, width, 64);
        let end = camera::bracket(Probe::Rising { p }, lo, hi, width, 64);
        let half = value(scalar::literal::<S>("0.5"));
        round_trip::lemma_half(half, exact::of(value, end.0) + exact::of(value, end.1));
    }
}

proof fn lemma_first_reach<S: Geometric>(r_d: Num<S>, p: &RadialTangential8Params<S>, i: int)
    requires
        1 <= i,
    ensures
        match camera::first_reach(r_d, p, i) {
            None => forall|j: int|
                i <= j <= 4096 ==> !r_d.at_most(
                    camera::rt8_distort(#[trigger] camera::scan_radius::<S>(j as u32), p),
                ),
            Some(k) => {
                &&& i <= k <= 4096
                &&& r_d.at_most(camera::rt8_distort(camera::scan_radius::<S>(k as u32), p))
                &&& forall|j: int|
                    i <= j < k ==> !r_d.at_most(
                        camera::rt8_distort(#[trigger] camera::scan_radius::<S>(j as u32), p),
                    )
            },
        },
    decreases 4097 - i,
{
    if i <= 4096 {
        lemma_first_reach(r_d, p, i + 1);
    }
}

/// The distorted radius of `r` stays below `r_d`.
pub open spec fn stays_below<S: Geometric>(
    value: spec_fn(S) -> real,
    r_d: Num<S>,
    p: RadialTangential8Params<S>,
    r: Num<S>,
) -> bool {
    exact::of(value, camera::rt8_distort(r, &p)) < exact::of(value, r_d)
}

/// The undistorted radius of a corner is at the first crossing: the distortion
/// stays below the corner at every step of the scan before, and the bracket that
/// the radius is the middle of has it below at the lower end and not at the
/// upper. There is none where the distortion stays below at all steps.
pub proof fn corner_radius_is_the_first_crossing<S: Geometric>(
    value: spec_fn(S) -> real,
    r_d: Num<S>,
    p: RadialTangential8Params<S>,
)
    requires
        exact::is_exact(value),
        exact::of(value, r_d) > 0 as real,
    ensures
        match camera::corner_radius(r_d, &p) {
            None => forall|j: int|
                1 <= j <= 4096 ==> stays_below(
                    value,
                    r_d,
                    p,
                    #[trigger] camera::scan_radius(j as u32),
                ),
            Some(r) => {
                let i = camera::first_reach(r_d, &p, 1)->0;
                let end = camera::bracket(
                    Probe::RadiusBelow { rt8: p, target: r_d },
                    camera::radius_before(i),
                    camera::scan_radius(i as u32),
                    Num { value: scalar::literal("1e-12") },
                    64,
                );
                &&& 1 <= i <= 4096
                &&& forall|j: int|
                    1 <= j < i ==> stays_below(
                        value,
                        r_d,
                        p,
                        #[trigger] camera::scan_radius(j as u32),
                    )
                &&& !stays_below(value, r_d, p, camera::scan_radius(i as u32))
                &&& stays_below(value, r_d, p, end.0) && !stays_below(value, r_d, p, end.1)
                &&& (2 as real) * exact::of(value, r) == exact::of(value, end.0) + exact::of(
                    value,
                    end.1,
                )
            },
        },
{
    lemma_first_reach(r_d, &p, 1);
    if let Some(i) = camera::first_reach(r_d, &p, 1) {
        let lo = camera::radius_before::<S>(i);
        let hi = camera::scan_radius::<S>(i as u32);
        let width = Num { value: scalar::literal::<S>("1e-12") };
        let probe = Probe::RadiusBelow { rt8: p, target: r_d };
        assert(stays_below(value, r_d, p, lo)) by {
            if i <= 1 {
                exact::products_with_zero_and_one(value);
            } else {
                assert(stays_below(value, r_d, p, camera::scan_radius((i - 1) as u32)));
            }
        }
        camera::bisection_keeps_the_turn(probe, lo, hi, width, 64);
        let end = camera::bracket(probe, lo, hi, width, 64);
        let half = value(scalar::literal::<S>("0.5"));
        round_trip::lemma_half(half, exact::of(value, end.0) + exact::of(value, end.1));
    }
}

/// A power of the angle and the next odd one: `w` times the angle moves by `k w`
/// times its slope, and two powers more by two times more.
proof fn lemma_odd_power_moves(k: real, w: real, t: real, ds: real)
    ensures
        ((k * w) * ds) * (t * t) + (w * t) * (((2 as real) * t) * ds) == ((k + (2 as real)) * (w * (t
            * t))) * ds,
{
    let two = 2 as real;
    let s = t * t;
    let ws = w * s;
    exact::lemma_swap_last(k * w, ds, s);
    exact::lemma_regroup(k, w, s);
    exact::lemma_regroup(w * t, two * t, ds);
    exact::lemma_swap_first(w * t, two, t);
    exact::lemma_regroup(w, t, t);
    exact::lemma_factor(k * ws, two * ws, ds);
    exact::lemma_factor(k, two, ws);
}

/// A coefficient in front of it.
proof fn lemma_coefficient(c: real, k: real, w: real, ds: real)
    ensures
        c * ((k * w) * ds) == ((k * c) * w) * ds,
{
    exact::lemma_regroup(c, k * w, ds);
    exact::lemma_swap_first(c, k, w);
    exact::lemma_regroup(k, c, w);
}

/// The factors of the derivative of a fisheye polynomial are the numbers that
/// they denote.
pub open spec fn reads_powers<S: Geometric>(value: spec_fn(S) -> real) -> bool {
    &&& exact::reads(value, "5.0", 5, 1)
    &&& exact::reads(value, "7.0", 7, 1)
    &&& exact::reads(value, "9.0", 9, 1)
}

/// The derivative of a fisheye polynomial is its slope: however the angle moves,
/// the polynomial's value moves by the derivative times that.
pub proof fn fisheye_derivative_is_the_slope<S: Geometric>(
    value: spec_fn(S) -> real,
    slope: spec_fn(S) -> real,
    theta: Num<S>,
    p: KannalaBrandt4Params<S>,
)
    requires
        slope::is_slope(value, slope),
        reads_powers(value),
        slope::of(slope, p.k1) == 0 as real,
        slope::of(slope, p.k2) == 0 as real,
        slope::of(slope, p.k3) == 0 as real,
        slope::of(slope, p.k4) == 0 as real,
    ensures
        slope::of(slope, camera::kb4_d(theta, &p)) == exact::of(
            value,
            camera::kb4_dd_dtheta(theta, &p),
        ) * slope::of(slope, theta),
{
    slope::lemma_constants(value, slope);
    let (t, ds) = (exact::of(value, theta), slope::of(slope, theta));
    let (one, two, three) = (1 as real, 2 as real, 3 as real);
    let (five, seven, nine) = (5 as real, 7 as real, 9 as real);
    assert(value(scalar::literal::<S>("5.0")) == five / one);
    assert(value(scalar::literal::<S>("7.0")) == seven / one);
    assert(value(scalar::literal::<S>("9.0")) == nine / one);
    exact::lemma_over_one(five, one);
    exact::lemma_over_one(seven, one);
    exact::lemma_over_one(nine, one);
    let s = t * t;
    let s2 = s * s;
    let s3 = s2 * s;
    let s4 = s3 * s;
    let t2 = theta * theta;
    let t3 = t2 * theta;
    let t5 = t3 * t2;
    let t7 = t5 * t2;
    let t9 = t7 * t2;
    // The square moves by twice the angle.
    exact::lemma_commute(ds, t);
    exact::lemma_regroup(two, t, ds);
    assert(slope::of(slope, t2) == (two * t) * ds);
    // The odd powers.
    assert(slope::of(slope, t3) == (three * s) * ds) by {
        exact::lemma_swap_last(two * t, ds, t);
        exact::lemma_regroup(two, t, t);
        exact::lemma_factor(two * s, s, ds);
    }
    assert(exact::of(value, t3) == s * t);
    lemma_odd_power_moves(three, s, t, ds);
    assert(slope::of(slope, t5) == (five * s2) * ds);
    assert(exact::of(value, t5) == s2 * t) by {
        exact::lemma_swap_last(s, t, s);
    }
    lemma_odd_power_moves(five, s2, t, ds);
    assert(slope::of(slope, t7) == (seven * s3) * ds);
    assert(exact::of(value, t7) == s3 * t) by {
        exact::lemma_swap_last(s2, t, s);
    }
    lemma_odd_power_moves(seven, s3, t, ds);
    assert(slope::of(slope, t9) == (nine * s4) * ds);
    let (k1, k2) = (exact::of(value, p.k1), exact::of(value, p.k2));
    let (k3, k4) = (exact::of(value, p.k3), exact::of(value, p.k4));
    lemma_coefficient(k1, three, s, ds);
    lemma_coefficient(k2, five, s2, ds);
    lemma_coefficient(k3, seven, s3, ds);
    lemma_coefficient(k4, nine, s4, ds);
    let (a, b, c, d) = (
        (three * k1) * s,
        (five * k2) * s2,
        (seven * k3) * s3,
        (nine * k4) * s4,
    );
    exact::lemma_factor(one, a, ds);
    exact::lemma_factor(one + a, b, ds);
    exact::lemma_factor(one + a + b, c, ds);
    exact::lemma_factor(one + a + b + c, d, ds);
    assert(one * ds == ds);
    assert(exact::of(value, camera::kb4_dd_dtheta(theta, &p)) == one + a + b + c + d);
}

/// The midpoint is as far from one number as from the other.
pub proof fn midpoint_is_half_way<S: Geometric>(value: spec_fn(S) -> real, lo: Num<S>, hi: Num<S>)
    requires
        exact::is_exact(value),
    ensures
        exact::of(value, camera::midpoint(lo, hi)) - exact::of(value, lo) == exact::of(value, hi)
            - exact::of(value, camera::midpoint(lo, hi)),
{
    let half = value(scalar::literal::<S>("0.5"));
    round_trip::lemma_half(half, exact::of(value, lo) + exact::of(value, hi));
}

/// The image of a point through the rational model, as numbers: the normalized
/// point times the radial factor, and the tangential terms, each next to the
/// other axis's.
pub open spec fn rational_image<S: Geometric>(
    value: spec_fn(S) -> real,
    p: RadialTangential8Params<S>,
    x: real,
    y: real,
) -> (real, real) {
    let s = x * x + y * y;
    let t = radial_terms(value, p, s);
    let (p1, p2) = (exact::of(value, p.p1), exact::of(value, p.p2));
    let two = 2 as real;
    (
        x * (t.0 / t.1) + (two * (x * y)) * p1 + (s + two * (x * x)) * p2,
        y * (t.0 / t.1) + (s + two * (y * y)) * p1 + (two * (x * y)) * p2,
    )
}

/// The image of a point through the rational model is that of its normalized
/// coordinates, in focal lengths from the centre.
pub proof fn rational_images_are_distorted<S: Geometric>(
    value: spec_fn(S) -> real,
    point: Vec3<S>,
    pinhole: PinholeParams<S>,
    p: RadialTangential8Params<S>,
    x: real,
    y: real,
)
    requires
        exact::is_exact(value),
        exact::of(value, point.z) != 0 as real,
        x * exact::of(value, point.z) == exact::of(value, point.x),
        y * exact::of(value, point.z) == exact::of(value, point.y),
        radial_terms(value, p, x * x + y * y).1 != 0 as real,
    ensures
        ({
            let image = projection::project_rt8(point, pinhole, p);
            let d = rational_image(value, p, x, y);
            &&& exact::of(value, image.x) == exact::of(value, pinhole.fx) * d.0 + exact::of(
                value,
                pinhole.cx,
            )
            &&& exact::of(value, image.y) == exact::of(value, pinhole.fy) * d.1 + exact::of(
                value,
                pinhole.cy,
            )
        }),
{
    let z = exact::of(value, point.z);
    lemma_over(x, z);
    lemma_over(y, z);
    let s = x * x + y * y;
    lemma_terms(exact::of(value, p.k1), exact::of(value, p.k2), exact::of(value, p.k3), s);
    lemma_terms(exact::of(value, p.k4), exact::of(value, p.k5), exact::of(value, p.k6), s);
    let (p1, p2) = (exact::of(value, p.p1), exact::of(value, p.p2));
    let two = 2 as real;
    let xy = x * y;
    exact::lemma_swap_last(two, p1, xy);
    exact::lemma_swap_last(two, p2, xy);
    exact::lemma_commute(p2, s + two * (x * x));
    exact::lemma_commute(p1, s + two * (y * y));
    let image = projection::project_rt8(point, pinhole, p);
    let (px, py) = (point.x / point.z, point.y / point.z);
    assert(exact::of(value, px) == x);
    assert(exact::of(value, py) == y);
}

proof fn lemma_over(x: real, z: real)
    by (nonlinear_arith)
    requires
        z != 0 as real,
    ensures
        (x * z) / z == x,
{
}

} // verus!
