//! The gradients of the projections are slopes: of a point's image and of its
//! covariance in the image, weighed by their gradients.
use vstd::prelude::*;

use crate::camera::{JacobianClampLimits, PinholeParams, RadialTangential8Params};
use crate::distortion_slope;
use crate::exact;
use crate::num::{Geometric, Num, Vec2, Vec3};
use crate::projection;
use crate::projection::{HeldPoint, ImageGradient, JacobianRow, Mat2x3, Sym2, Sym3};
use crate::scalar;
use crate::slope;

verus! {

/// A symmetric matrix times a vector.
pub open spec fn sym_times_vec<S: Geometric>(cov: Sym3<S>, u: Vec3<S>) -> Vec3<S> {
    Vec3 {
        x: u.dot(projection::sym_row0(cov)),
        y: u.dot(projection::sym_row1(cov)),
        z: u.dot(projection::sym_row2(cov)),
    }
}

/// The covariance in the image of a point with covariance `cov`, through a
/// projection with Jacobian `j`.
pub open spec fn image_covariance<S: Geometric>(j: Mat2x3<S>, cov: Sym3<S>) -> Sym2<S> {
    let u = projection::row0(j);
    let w = projection::row1(j);
    Sym2 {
        xx: u.dot(sym_times_vec(cov, u)),
        xy: u.dot(sym_times_vec(cov, w)),
        yy: w.dot(sym_times_vec(cov, w)),
    }
}

/// A point's image and its covariance there, weighed by their gradients. The
/// entry off the diagonal stands for two.
pub open spec fn weighed_image<S: Geometric>(
    image: Vec2<S>,
    j: Mat2x3<S>,
    cov: Sym3<S>,
    v: ImageGradient<S>,
) -> Num<S> {
    let c = image_covariance(j, cov);
    v.v_mean2d.x * image.x + v.v_mean2d.y * image.y + (v.v_cov2d.xx * c.xx + v.v_cov2d.xy * (c.xy
        + c.xy) + v.v_cov2d.yy * c.yy)
}

/// Three numbers.
pub struct Triple {
    pub x: real,
    pub y: real,
    pub z: real,
}

pub open spec fn value3<S: Geometric>(f: spec_fn(S) -> real, v: Vec3<S>) -> Triple {
    Triple { x: f(v.x.value), y: f(v.y.value), z: f(v.z.value) }
}

pub open spec fn dot(a: Triple, b: Triple) -> real {
    a.x * b.x + a.y * b.y + a.z * b.z
}

/// The covariance and the gradients that weigh the image stand still.
pub open spec fn weights_rest<S: Geometric>(
    slope: spec_fn(S) -> real,
    cov: Sym3<S>,
    v: ImageGradient<S>,
) -> bool {
    &&& slope::of(slope, cov.xx) == 0 as real
    &&& slope::of(slope, cov.xy) == 0 as real
    &&& slope::of(slope, cov.xz) == 0 as real
    &&& slope::of(slope, cov.yy) == 0 as real
    &&& slope::of(slope, cov.yz) == 0 as real
    &&& slope::of(slope, cov.zz) == 0 as real
    &&& slope::of(slope, v.v_mean2d.x) == 0 as real
    &&& slope::of(slope, v.v_mean2d.y) == 0 as real
    &&& slope::of(slope, v.v_cov2d.xx) == 0 as real
    &&& slope::of(slope, v.v_cov2d.xy) == 0 as real
    &&& slope::of(slope, v.v_cov2d.yy) == 0 as real
}

/// Six numbers of a symmetric matrix.
struct Sym {
    xx: real,
    xy: real,
    xz: real,
    yy: real,
    yz: real,
    zz: real,
}

spec fn times(m: Sym, u: Triple) -> Triple {
    Triple {
        x: u.x * m.xx + u.y * m.xy + u.z * m.xz,
        y: u.x * m.xy + u.y * m.yy + u.z * m.yz,
        z: u.x * m.xz + u.y * m.yz + u.z * m.zz,
    }
}

proof fn lemma_three_in_front(k: real, a: real, b: real, c: real)
    ensures
        k * (a + b + c) == k * a + k * b + k * c,
{
    exact::lemma_in_front(k, a + b, c);
    exact::lemma_in_front(k, a, b);
}

/// A symmetric matrix may be moved from one factor to the other.
proof fn lemma_symmetric(m: Sym, a: Triple, b: Triple)
    ensures
        dot(a, times(m, b)) == dot(b, times(m, a)),
{
    lemma_three_in_front(a.x, b.x * m.xx, b.y * m.xy, b.z * m.xz);
    lemma_three_in_front(a.y, b.x * m.xy, b.y * m.yy, b.z * m.yz);
    lemma_three_in_front(a.z, b.x * m.xz, b.y * m.yz, b.z * m.zz);
    lemma_three_in_front(b.x, a.x * m.xx, a.y * m.xy, a.z * m.xz);
    lemma_three_in_front(b.y, a.x * m.xy, a.y * m.yy, a.z * m.yz);
    lemma_three_in_front(b.z, a.x * m.xz, a.y * m.yz, a.z * m.zz);
    exact::lemma_swap_first(a.x, b.x, m.xx);
    exact::lemma_swap_first(a.x, b.y, m.xy);
    exact::lemma_swap_first(a.x, b.z, m.xz);
    exact::lemma_swap_first(a.y, b.x, m.xy);
    exact::lemma_swap_first(a.y, b.y, m.yy);
    exact::lemma_swap_first(a.y, b.z, m.yz);
    exact::lemma_swap_first(a.z, b.x, m.xz);
    exact::lemma_swap_first(a.z, b.y, m.yz);
    exact::lemma_swap_first(a.z, b.z, m.zz);
}

/// `p` times one triple and `q` times another, added.
spec fn mix(p: real, a: Triple, q: real, b: Triple) -> Triple {
    Triple { x: p * a.x + q * b.x, y: p * a.y + q * b.y, z: p * a.z + q * b.z }
}

proof fn lemma_mix(p: real, a: Triple, q: real, b: Triple, c: Triple)
    ensures
        dot(mix(p, a, q, b), c) == p * dot(a, c) + q * dot(b, c),
{
    exact::lemma_factor(p * a.x, q * b.x, c.x);
    exact::lemma_factor(p * a.y, q * b.y, c.y);
    exact::lemma_factor(p * a.z, q * b.z, c.z);
    exact::lemma_regroup(p, a.x, c.x);
    exact::lemma_regroup(p, a.y, c.y);
    exact::lemma_regroup(p, a.z, c.z);
    exact::lemma_regroup(q, b.x, c.x);
    exact::lemma_regroup(q, b.y, c.y);
    exact::lemma_regroup(q, b.z, c.z);
    lemma_three_in_front(p, a.x * c.x, a.y * c.y, a.z * c.z);
    lemma_three_in_front(q, b.x * c.x, b.y * c.y, b.z * c.z);
}

proof fn lemma_dot_commutes(a: Triple, b: Triple)
    ensures
        dot(a, b) == dot(b, a),
{
    exact::lemma_commute(a.x, b.x);
    exact::lemma_commute(a.y, b.y);
    exact::lemma_commute(a.z, b.z);
}

proof fn lemma_twice(a: Triple, b: Triple)
    ensures
        ({
            let two = 2 as real;
            dot(Triple { x: two * a.x, y: two * a.y, z: two * a.z }, b) == two * dot(a, b)
        }),
{
    let two = 2 as real;
    exact::lemma_regroup(two, a.x, b.x);
    exact::lemma_regroup(two, a.y, b.y);
    exact::lemma_regroup(two, a.z, b.z);
}

/// The slope of a product of two rows through a symmetric matrix.
proof fn lemma_form_slope<S: Geometric>(
    value: spec_fn(S) -> real,
    slope: spec_fn(S) -> real,
    cov: Sym3<S>,
    m: Sym,
    a: Vec3<S>,
    b: Vec3<S>,
)
    requires
        slope::is_slope(value, slope),
        is_sym(value, slope, cov, m),
    ensures
        slope::of(slope, a.dot(sym_times_vec(cov, b))) == dot(
            value3(slope, a),
            times(m, value3(value, b)),
        ) + dot(value3(slope, b), times(m, value3(value, a))),
        value3(value, sym_times_vec(cov, b)) == times(m, value3(value, b)),
{
    slope::lemma_constants(value, slope);
    let (da, db) = (value3(slope, a), value3(slope, b));
    let t = sym_times_vec(cov, b);
    assert(value3(value, t) == times(m, value3(value, b)));
    assert(value3(slope, t) == times(m, db));
    lemma_symmetric(m, value3(value, a), db);
}

/// The numbers of a matrix that stands still.
spec fn is_sym<S: Geometric>(
    value: spec_fn(S) -> real,
    slope: spec_fn(S) -> real,
    cov: Sym3<S>,
    m: Sym,
) -> bool {
    &&& m == sym_of(value, cov)
    &&& sym_of(slope, cov) == sym_of(|s: S| 0 as real, cov)
}

spec fn sym_of<S: Geometric>(f: spec_fn(S) -> real, cov: Sym3<S>) -> Sym {
    Sym {
        xx: f(cov.xx.value),
        xy: f(cov.xy.value),
        xz: f(cov.xz.value),
        yy: f(cov.yy.value),
        yz: f(cov.yz.value),
        zz: f(cov.zz.value),
    }
}

/// The rows of twice the weighed Jacobian times the covariance: what reaches the
/// entries of the Jacobian.
pub open spec fn reaching<S: Geometric>(j: Mat2x3<S>, cov: Sym3<S>, v: ImageGradient<S>) -> (
    Vec3<S>,
    Vec3<S>,
) {
    let tmp = projection::sym_times_mat(v.v_cov2d, j);
    (
        projection::twice_times(projection::row0(tmp), cov),
        projection::twice_times(projection::row1(tmp), cov),
    )
}

/// The weighed image moves with the image by its gradient, and with the rows of
/// the Jacobian by what reaches them.
proof fn lemma_weighed_slope<S: Geometric>(
    value: spec_fn(S) -> real,
    slope: spec_fn(S) -> real,
    image: Vec2<S>,
    j: Mat2x3<S>,
    cov: Sym3<S>,
    v: ImageGradient<S>,
)
    requires
        slope::is_slope(value, slope),
        weights_rest(slope, cov, v),
    ensures
        slope::of(slope, weighed_image(image, j, cov, v)) == exact::of(value, v.v_mean2d.x)
            * slope::of(slope, image.x) + exact::of(value, v.v_mean2d.y) * slope::of(
            slope,
            image.y,
        ) + dot(value3(value, reaching(j, cov, v).0), value3(slope, projection::row0(j))) + dot(
            value3(value, reaching(j, cov, v).1),
            value3(slope, projection::row1(j)),
        ),
{
    reveal(projection::spec_sym_times_mat);
    reveal(projection::spec_twice_times);
    slope::lemma_constants(value, slope);
    let (row_u, row_w) = (projection::row0(j), projection::row1(j));
    let (u, w) = (value3(value, row_u), value3(value, row_w));
    let (du, dw) = (value3(slope, row_u), value3(slope, row_w));
    let m = sym_of(value, cov);
    assert(is_sym(value, slope, cov, m));
    lemma_form_slope(value, slope, cov, m, row_u, row_u);
    lemma_form_slope(value, slope, cov, m, row_u, row_w);
    lemma_form_slope(value, slope, cov, m, row_w, row_w);
    let (xx, xy, yy) = (
        exact::of(value, v.v_cov2d.xx),
        exact::of(value, v.v_cov2d.xy),
        exact::of(value, v.v_cov2d.yy),
    );
    let (uu, uw) = (dot(du, times(m, u)), dot(du, times(m, w)));
    let (wu, ww) = (dot(dw, times(m, u)), dot(dw, times(m, w)));
    exact::lemma_in_front(xx, uu, uu);
    exact::lemma_in_front(xy, uw + wu, uw + wu);
    exact::lemma_in_front(xy, uw, wu);
    exact::lemma_in_front(yy, ww, ww);
    // What reaches the rows.
    let (t0, t1) = (mix(xx, u, xy, w), mix(xy, u, yy, w));
    let two = 2 as real;
    let (s0, s1) = (times(m, t0), times(m, t1));
    assert(value3(value, reaching(j, cov, v).0) == (Triple {
        x: two * s0.x,
        y: two * s0.y,
        z: two * s0.z,
    }));
    assert(value3(value, reaching(j, cov, v).1) == (Triple {
        x: two * s1.x,
        y: two * s1.y,
        z: two * s1.z,
    }));
    lemma_twice(s0, du);
    lemma_twice(s1, dw);
    lemma_dot_commutes(s0, du);
    lemma_dot_commutes(s1, dw);
    lemma_symmetric(m, du, t0);
    lemma_symmetric(m, dw, t1);
    lemma_mix(xx, u, xy, w, times(m, du));
    lemma_mix(xy, u, yy, w, times(m, dw));
    lemma_symmetric(m, u, du);
    lemma_symmetric(m, w, du);
    lemma_symmetric(m, u, dw);
    lemma_symmetric(m, w, dw);
}

/// What one axis of a pinhole adds to the slope of the weighed image: `f` is the
/// focal length, `x` the coordinate and `i` the inverse depth; `a` and `c` are
/// the slopes of the coordinate and of the depth.
proof fn lemma_axis(f: real, x: real, i: real, a: real, c: real, vm: real, sd: real, sz: real)
    ensures
        ({
            let i2 = i * i;
            let i3 = i2 * i;
            let di = -(i2 * c);
            let image = (f * a) * i + (f * x) * di;
            let normal = x * i;
            let dnormal = a * i + x * di;
            let du = f * di;
            let dz = (-(f * di)) * normal + (-(f * i)) * dnormal;
            vm * image + sd * du + sz * dz == ((f * i) * vm - (f * i2) * sz) * a + (((((2 as real)
                * f) * x) * i3) * sz - ((f * x) * vm) * i2 - (f * i2) * sd) * c
        }),
{
    let two = 2 as real;
    let i2 = i * i;
    let i3 = i2 * i;
    let di = -(i2 * c);
    let (p, q, r) = (f * i, f * i2, (f * x) * i2);
    let w = (f * x) * i3;
    let (normal, dnormal) = (x * i, a * i + x * di);
    // The image.
    let image = (f * a) * i + (f * x) * di;
    exact::lemma_swap_last(f, a, i);
    exact::lemma_in_front(f * x, i2 * c, i2 * c);
    exact::lemma_regroup(f * x, i2, c);
    assert(image == p * a - r * c);
    // The entry on the diagonal.
    exact::lemma_in_front(f, i2 * c, i2 * c);
    exact::lemma_regroup(f, i2, c);
    assert(f * di == -(q * c));
    // The entry of the depth.
    assert((q * c) * normal == w * c) by {
        exact::lemma_swap_last(q, c, normal);
        exact::lemma_regroup(f, i2, normal);
        exact::lemma_swap_first(i2, x, i);
        exact::lemma_regroup(f, x, i3);
    }
    assert(p * dnormal == q * a - w * c) by {
        exact::lemma_in_front(p, a * i, x * di);
        exact::lemma_swap_first(p, a, i);
        exact::lemma_regroup(f, i, i);
        exact::lemma_commute(a, q);
        exact::lemma_in_front(x, i2 * c, i2 * c);
        exact::lemma_in_front(p, x * (i2 * c), x * (i2 * c));
        exact::lemma_regroup(x, i2, c);
        exact::lemma_regroup(p, x * i2, c);
        exact::lemma_swap_first(p, x, i2);
        exact::lemma_regroup(f, i, i2);
        exact::lemma_commute(i, i2);
        exact::lemma_swap_first(x, f, i3);
        exact::lemma_regroup(f, x, i3);
    }
    exact::lemma_opposite(p, dnormal);
    let dz = (-(f * di)) * normal + (-p) * dnormal;
    exact::lemma_regroup(two, w, c);
    exact::lemma_regroup(two, f, x);
    exact::lemma_regroup(two, f * x, i3);
    let wide = ((two * f) * x) * i3;
    assert(wide == two * w);
    assert(dz == wide * c - q * a);
    // Weighed.
    exact::lemma_in_front(vm, p * a, r * c);
    exact::lemma_regroup(vm, p, a);
    exact::lemma_regroup(vm, r, c);
    exact::lemma_commute(vm, p);
    exact::lemma_commute(vm, r);
    exact::lemma_swap_last(f * x, vm, i2);
    exact::lemma_in_front(sd, q * c, q * c);
    exact::lemma_regroup(sd, q, c);
    exact::lemma_commute(sd, q);
    exact::lemma_in_front(sz, wide * c, q * a);
    exact::lemma_regroup(sz, wide, c);
    exact::lemma_regroup(sz, q, a);
    exact::lemma_commute(sz, wide);
    exact::lemma_commute(sz, q);
    exact::lemma_factor_difference(p * vm, q * sz, a);
    exact::lemma_factor_difference(wide * sz, ((f * x) * vm) * i2, c);
    exact::lemma_factor_difference(wide * sz - ((f * x) * vm) * i2, q * sd, c);
}

/// A camera stands still.
pub open spec fn pinhole_rests<S: Geometric>(
    slope: spec_fn(S) -> real,
    params: PinholeParams<S>,
) -> bool {
    &&& slope::of(slope, params.fx) == 0 as real
    &&& slope::of(slope, params.fy) == 0 as real
    &&& slope::of(slope, params.cx) == 0 as real
    &&& slope::of(slope, params.cy) == 0 as real
}

/// A point before the camera whose normalized coordinates lie within the limits.
pub open spec fn is_free<S: Geometric>(
    value: spec_fn(S) -> real,
    point: Vec3<S>,
    limits: JacobianClampLimits<S>,
) -> bool {
    let i = (1 as real) / exact::of(value, point.z);
    let nx = exact::of(value, point.x) * i;
    let ny = exact::of(value, point.y) * i;
    &&& exact::of(value, point.z) != 0 as real
    &&& exact::of(value, limits.lim_neg_x) < nx < exact::of(value, limits.lim_pos_x)
    &&& exact::of(value, limits.lim_neg_y) < ny < exact::of(value, limits.lim_pos_y)
}

/// The gradient of a point through a pinhole is the slope of its weighed image:
/// however the point moves, the image and the covariance in it, weighed by their
/// gradients, move by the gradient of the point along that way.
pub proof fn pinhole_gradient_is_the_slope<S: Geometric>(
    value: spec_fn(S) -> real,
    slope: spec_fn(S) -> real,
    point: Vec3<S>,
    cov: Sym3<S>,
    limits: JacobianClampLimits<S>,
    params: PinholeParams<S>,
    v: ImageGradient<S>,
)
    requires
        slope::is_slope(value, slope),
        pinhole_rests(slope, params),
        weights_rest(slope, cov, v),
        is_free(value, point, limits),
    ensures
        ({
            let j = projection::calculate_project_jacobian_pinhole(point, limits, params);
            let g = projection::calculate_projection_vjp_pinhole(j, point, cov, limits, params, v);
            slope::of(
                slope,
                weighed_image(projection::project_pinhole(point, params), j, cov, v),
            ) == dot(value3(value, g), value3(slope, point))
        }),
{
    reveal(projection::spec_calculate_projection_vjp_pinhole);
    slope::lemma_constants(value, slope);
    let image = projection::project_pinhole(point, params);
    let j = projection::calculate_project_jacobian_pinhole(point, limits, params);
    let g = projection::calculate_projection_vjp_pinhole(j, point, cov, limits, params, v);
    distortion_slope::lemma_inverse_slope(value, slope, point.z);
    lemma_weighed_slope(value, slope, image, j, cov, v);
    let (m, d) = (value3(value, point), value3(slope, point));
    let i = (1 as real) / m.z;
    let i2 = i * i;
    let i3 = i2 * i;
    let (fx, fy) = (exact::of(value, params.fx), exact::of(value, params.fy));
    let (vx, vy) = (exact::of(value, v.v_mean2d.x), exact::of(value, v.v_mean2d.y));
    let (su, sw) = (
        value3(value, reaching(j, cov, v).0),
        value3(value, reaching(j, cov, v).1),
    );
    lemma_pinhole_rows(value, slope, point, limits, params);
    lemma_axis(fx, m.x, i, d.x, d.z, vx, su.x, su.z);
    lemma_axis(fy, m.y, i, d.y, d.z, vy, sw.y, sw.z);
    lemma_pinhole_gradient(value, j, point, cov, limits, params, v);
    let (gx, gy) = ((fx * i) * vx - (fx * i2) * su.z, (fy * i) * vy - (fy * i2) * sw.z);
    let two = 2 as real;
    let zx = (((two * fx) * m.x) * i3) * su.z - ((fx * m.x) * vx) * i2 - (fx * i2) * su.x;
    let zy = (((two * fy) * m.y) * i3) * sw.z - ((fy * m.y) * vy) * i2 - (fy * i2) * sw.y;
    exact::lemma_factor(zx, zy, d.z);
    assert(value3(value, g) == (Triple { x: gx, y: gy, z: zx + zy }));
}

/// The rows of a pinhole's Jacobian and their slopes.
proof fn lemma_pinhole_rows<S: Geometric>(
    value: spec_fn(S) -> real,
    slope: spec_fn(S) -> real,
    point: Vec3<S>,
    limits: JacobianClampLimits<S>,
    params: PinholeParams<S>,
)
    requires
        slope::is_slope(value, slope),
        pinhole_rests(slope, params),
        is_free(value, point, limits),
    ensures
        ({
            let j = projection::calculate_project_jacobian_pinhole(point, limits, params);
            let (m, d) = (value3(value, point), value3(slope, point));
            let i = (1 as real) / m.z;
            let di = -((i * i) * d.z);
            let (fx, fy) = (exact::of(value, params.fx), exact::of(value, params.fy));
            let zero = 0 as real;
            &&& value3(slope, projection::row0(j)) == (Triple {
                x: fx * di,
                y: zero,
                z: (-(fx * di)) * (m.x * i) + (-(fx * i)) * (d.x * i + m.x * di),
            })
            &&& value3(slope, projection::row1(j)) == (Triple {
                x: zero,
                y: fy * di,
                z: (-(fy * di)) * (m.y * i) + (-(fy * i)) * (d.y * i + m.y * di),
            })
            &&& value3(value, projection::row0(j)) == (Triple {
                x: fx * i,
                y: zero,
                z: (-(fx * i)) * (m.x * i),
            })
            &&& value3(value, projection::row1(j)) == (Triple {
                x: zero,
                y: fy * i,
                z: (-(fy * i)) * (m.y * i),
            })
        }),
{
    slope::lemma_constants(value, slope);
    distortion_slope::lemma_inverse_slope(value, slope, point.z);
}

/// The gradient through a pinhole, in numbers.
proof fn lemma_pinhole_gradient<S: Geometric>(
    value: spec_fn(S) -> real,
    j: Mat2x3<S>,
    point: Vec3<S>,
    cov: Sym3<S>,
    limits: JacobianClampLimits<S>,
    params: PinholeParams<S>,
    v: ImageGradient<S>,
)
    requires
        exact::is_exact(value),
        is_free(value, point, limits),
    ensures
        ({
            let g = projection::calculate_projection_vjp_pinhole(j, point, cov, limits, params, v);
            let m = value3(value, point);
            let i = (1 as real) / m.z;
            let i2 = i * i;
            let i3 = i2 * i;
            let two = 2 as real;
            let (fx, fy) = (exact::of(value, params.fx), exact::of(value, params.fy));
            let (vx, vy) = (exact::of(value, v.v_mean2d.x), exact::of(value, v.v_mean2d.y));
            let (su, sw) = (
                value3(value, reaching(j, cov, v).0),
                value3(value, reaching(j, cov, v).1),
            );
            let zx = (((two * fx) * m.x) * i3) * su.z - ((fx * m.x) * vx) * i2 - (fx * i2) * su.x;
            let zy = (((two * fy) * m.y) * i3) * sw.z - ((fy * m.y) * vy) * i2 - (fy * i2) * sw.y;
            &&& exact::of(value, g.x) == (fx * i) * vx - (fx * i2) * su.z
            &&& exact::of(value, g.y) == (fy * i) * vy - (fy * i2) * sw.z
            &&& exact::of(value, g.z) == zx + zy
        }),
{
    reveal(projection::spec_calculate_projection_vjp_pinhole);
    reveal(projection::spec_twice_times);
    let m = value3(value, point);
    let i = (1 as real) / m.z;
    let i2 = i * i;
    let (fx, fy) = (exact::of(value, params.fx), exact::of(value, params.fy));
    let (vx, vy) = (exact::of(value, v.v_mean2d.x), exact::of(value, v.v_mean2d.y));
    let (su, sw) = (value3(value, reaching(j, cov, v).0), value3(value, reaching(j, cov, v).1));
    distortion_slope::lemma_inverse(m.z);
    // The held point is the point itself.
    exact::lemma_swap_first(m.z, m.x, i);
    exact::lemma_swap_first(m.z, m.y, i);
    assert(m.x * (1 as real) == m.x && m.y * (1 as real) == m.y);
    exact::lemma_opposite(fx, i2);
    exact::lemma_opposite(fy, i2);
    exact::lemma_opposite(fx * i2, su.z);
    exact::lemma_opposite(fy * i2, sw.z);
    exact::lemma_opposite(fx * i2, su.x);
    exact::lemma_opposite((fx * m.x) * vx + (fy * m.y) * vy, i2);
    exact::lemma_factor((fx * m.x) * vx, (fy * m.y) * vy, i2);
}

/// A coordinate `x` of a point before a camera, and how it moves: `i` is the
/// inverse depth, `a` and `c` are the slopes of the coordinate and of the depth.
spec fn coordinate_slope(x: real, i: real, a: real, c: real) -> real {
    a * i + x * (-((i * i) * c))
}

proof fn lemma_coordinate_slope(x: real, i: real, a: real, c: real)
    ensures
        coordinate_slope(x, i, a, c) == i * a - (x * (i * i)) * c,
{
    let i2 = i * i;
    exact::lemma_commute(a, i);
    exact::lemma_in_front(x, i2 * c, i2 * c);
    exact::lemma_regroup(x, i2, c);
}

/// A normalized coordinate times the depth is the coordinate again.
proof fn lemma_lifted(x: real, z: real, i: real, a: real, c: real)
    requires
        z * i == 1 as real,
    ensures
        (x * i) * z == x,
        coordinate_slope(x, i, a, c) * z + (x * i) * c == a,
{
    let one = 1 as real;
    let i2 = i * i;
    exact::lemma_regroup(x, i, z);
    exact::lemma_commute(i, z);
    assert(x * one == x && a * one == a);
    lemma_coordinate_slope(x, i, a, c);
    exact::lemma_factor_difference(i * a, (x * i2) * c, z);
    exact::lemma_swap_last(i, a, z);
    assert((i * a) * z == a) by {
        exact::lemma_commute(i * z, a);
    }
    assert(((x * i2) * c) * z == (x * i) * c) by {
        exact::lemma_swap_last(x * i2, c, z);
        exact::lemma_regroup(x, i2, z);
        exact::lemma_regroup(i, i, z);
        assert(i * one == i);
    }
}

/// The slopes of a point, of which `x` and `y` are the coordinates and `i` the
/// inverse depth.
struct Way {
    x: real,
    y: real,
    i: real,
    a: real,
    b: real,
    c: real,
}

spec fn sx(w: Way) -> real {
    coordinate_slope(w.x, w.i, w.a, w.c)
}

spec fn sy(w: Way) -> real {
    coordinate_slope(w.y, w.i, w.b, w.c)
}

/// The derivative of an entry by the depth, from those by the coordinates.
spec fn by_depth(w: Way, ex: real, ey: real) -> real {
    (-(w.x * ex + w.y * ey)) * (w.i * w.i)
}

/// How an entry moves with the point.
proof fn lemma_entry(w: Way, ex: real, ey: real)
    ensures
        ex * sx(w) + ey * sy(w) == (ex * w.i) * w.a + (ey * w.i) * w.b + by_depth(w, ex, ey) * w.c,
{
    let i2 = w.i * w.i;
    lemma_coordinate_slope(w.x, w.i, w.a, w.c);
    lemma_coordinate_slope(w.y, w.i, w.b, w.c);
    exact::lemma_in_front_of_two(ex, w.i, w.a, w.x * i2, w.c);
    exact::lemma_in_front_of_two(ey, w.i, w.b, w.y * i2, w.c);
    exact::lemma_regroup(ex, w.x, i2);
    exact::lemma_regroup(ey, w.y, i2);
    exact::lemma_commute(ex, w.x);
    exact::lemma_commute(ey, w.y);
    let (p, q) = (w.x * ex, w.y * ey);
    exact::lemma_opposite(p + q, i2);
    exact::lemma_factor(p, q, i2);
    exact::lemma_opposite((p + q) * i2, w.c);
    exact::lemma_factor(p * i2, q * i2, w.c);
}

/// An entry of the first two columns of a Jacobian's row, and how it moves.
proof fn lemma_column(w: Way, f: real, e: real, ex: real, ey: real)
    ensures
        ({
            let i2 = w.i * w.i;
            let de = ex * sx(w) + ey * sy(w);
            let di = -(i2 * w.c);
            (f * de) * w.i + (f * e) * di == ((f * (ex * w.i)) * w.i) * w.a + ((f * (ey * w.i))
                * w.i) * w.b + (f * (by_depth(w, ex, ey) * w.i - e * i2)) * w.c
        }),
{
    let i = w.i;
    let i2 = i * i;
    let de = ex * sx(w) + ey * sy(w);
    let ez = by_depth(w, ex, ey);
    lemma_entry(w, ex, ey);
    exact::lemma_in_front_of_three(f, ex * i, w.a, ey * i, w.b, ez, w.c);
    distortion_slope::lemma_sum_of_three(
        (f * (ex * i)) * w.a,
        (f * (ey * i)) * w.b,
        (f * ez) * w.c,
        i,
    );
    exact::lemma_swap_last(f * (ex * i), w.a, i);
    exact::lemma_swap_last(f * (ey * i), w.b, i);
    exact::lemma_swap_last(f * ez, w.c, i);
    exact::lemma_in_front(f * e, i2 * w.c, i2 * w.c);
    exact::lemma_regroup(f * e, i2, w.c);
    exact::lemma_regroup(f, e, i2);
    exact::lemma_regroup(f, ez, i);
    exact::lemma_in_front(f, ez * i, e * i2);
    exact::lemma_factor_difference(f * (ez * i), f * (e * i2), w.c);
}

/// The entry of the third column of a Jacobian's row, and how it moves. `e` and
/// `h` are the entries of the distortion's Jacobian, each with its derivatives.
proof fn lemma_third_column(
    w: Way,
    f: real,
    e: real,
    ex: real,
    ey: real,
    h: real,
    hx: real,
    hy: real,
)
    ensures
        ({
            let two = 2 as real;
            let i2 = w.i * w.i;
            let i3 = i2 * w.i;
            let (de, dh) = (ex * sx(w) + ey * sy(w), hx * sx(w) + hy * sy(w));
            let di = -(i2 * w.c);
            let lever = e * w.x + h * w.y;
            let dlever = (de * w.x + e * w.a) + (dh * w.y + h * w.b);
            let (ez, hz) = (by_depth(w, ex, ey), by_depth(w, hx, hy));
            ((-f) * dlever) * i2 + ((-f) * lever) * (di * w.i + w.i * di) == (((-f) * ((ex * w.i)
                * w.x + e + (hx * w.i) * w.y)) * i2) * w.a + (((-f) * ((ey * w.i) * w.x + (hy * w.i)
                * w.y + h)) * i2) * w.b + ((-f) * ((ez * w.x + hz * w.y) * i2 - (two * lever) * i3))
                * w.c
        }),
{
    let two = 2 as real;
    let i = w.i;
    let i2 = i * i;
    let i3 = i2 * i;
    let (de, dh) = (ex * sx(w) + ey * sy(w), hx * sx(w) + hy * sy(w));
    let di = -(i2 * w.c);
    let lever = e * w.x + h * w.y;
    let (ez, hz) = (by_depth(w, ex, ey), by_depth(w, hx, hy));
    lemma_entry(w, ex, ey);
    lemma_entry(w, hx, hy);
    let (ax, ay, bx, by) = (ex * i, ey * i, hx * i, hy * i);
    // The lever of the entries, by the way that the point moves.
    distortion_slope::lemma_sum_of_three(ax * w.a, ay * w.b, ez * w.c, w.x);
    distortion_slope::lemma_sum_of_three(bx * w.a, by * w.b, hz * w.c, w.y);
    exact::lemma_swap_last(ax, w.a, w.x);
    exact::lemma_swap_last(ay, w.b, w.x);
    exact::lemma_swap_last(ez, w.c, w.x);
    exact::lemma_swap_last(bx, w.a, w.y);
    exact::lemma_swap_last(by, w.b, w.y);
    exact::lemma_swap_last(hz, w.c, w.y);
    let (la, lb) = (ax * w.x + e + bx * w.y, ay * w.x + by * w.y + h);
    let lc = ez * w.x + hz * w.y;
    distortion_slope::lemma_sum_of_three(ax * w.x, e, bx * w.y, w.a);
    distortion_slope::lemma_sum_of_three(ay * w.x, by * w.y, h, w.b);
    exact::lemma_factor(ez * w.x, hz * w.y, w.c);
    let dlever = (de * w.x + e * w.a) + (dh * w.y + h * w.b);
    assert(dlever == la * w.a + lb * w.b + lc * w.c);
    let g = -f;
    exact::lemma_in_front_of_three(g, la, w.a, lb, w.b, lc, w.c);
    distortion_slope::lemma_sum_of_three((g * la) * w.a, (g * lb) * w.b, (g * lc) * w.c, i2);
    exact::lemma_swap_last(g * la, w.a, i2);
    exact::lemma_swap_last(g * lb, w.b, i2);
    exact::lemma_swap_last(g * lc, w.c, i2);
    // The inverse depth, squared.
    assert(di * i == -(i3 * w.c)) by {
        exact::lemma_opposite(i2 * w.c, i);
        exact::lemma_swap_last(i2, w.c, i);
    }
    exact::lemma_commute(i, di);
    assert(di * i + i * di == -(two * (i3 * w.c)));
    let k = g * lever;
    exact::lemma_in_front(k, two * (i3 * w.c), two * (i3 * w.c));
    exact::lemma_swap_first(k, two, i3 * w.c);
    exact::lemma_regroup(k, i3, w.c);
    exact::lemma_regroup(g, lever, i3);
    exact::lemma_regroup(two, lever, i3);
    exact::lemma_regroup(g, lc, i2);
    exact::lemma_in_front(g, lc * i2, (two * lever) * i3);
    exact::lemma_swap_first(g, two, lever * i3);
    exact::lemma_factor_difference(g * (lc * i2), g * ((two * lever) * i3), w.c);
    exact::lemma_regroup(two, g * (lever * i3), w.c);
}

/// How an image coordinate moves: by the row of the Jacobian.
proof fn lemma_image(w: Way, f: real, e: real, h: real)
    ensures
        ({
            let i2 = w.i * w.i;
            f * (e * sx(w) + h * sy(w)) == ((f * e) * w.i) * w.a + ((f * h) * w.i) * w.b + (((-f)
                * (e * w.x + h * w.y)) * i2) * w.c
        }),
{
    let i2 = w.i * w.i;
    lemma_entry(w, e, h);
    let ez = by_depth(w, e, h);
    exact::lemma_in_front_of_three(f, e * w.i, w.a, h * w.i, w.b, ez, w.c);
    exact::lemma_regroup(f, e, w.i);
    exact::lemma_regroup(f, h, w.i);
    exact::lemma_commute(w.x, e);
    exact::lemma_commute(w.y, h);
    let lever = e * w.x + h * w.y;
    exact::lemma_opposite(lever, i2);
    exact::lemma_in_front(f, lever * i2, lever * i2);
    exact::lemma_regroup(f, lever, i2);
    exact::lemma_opposite(f, lever);
    exact::lemma_opposite(f * lever, i2);
}

/// A row of a Jacobian as the forward pass computes it.
spec fn forward_row<S: Geometric>(
    focal: Num<S>,
    e: Num<S>,
    h: Num<S>,
    point: Vec3<S>,
    limits: JacobianClampLimits<S>,
) -> Vec3<S> {
    let inv_z = Num { value: scalar::literal::<S>("1.0") } / point.z;
    let x_n = (point.x * inv_z).held(limits.lim_neg_x, limits.lim_pos_x);
    let y_n = (point.y * inv_z).held(limits.lim_neg_y, limits.lim_pos_y);
    Vec3 {
        x: focal * e * inv_z,
        y: focal * h * inv_z,
        z: focal.opposite() * (e * (x_n * point.z) + h * (y_n * point.z)) * (inv_z * inv_z),
    }
}

spec fn way<S: Geometric>(
    value: spec_fn(S) -> real,
    slope: spec_fn(S) -> real,
    point: Vec3<S>,
) -> Way {
    Way {
        x: value(point.x.value),
        y: value(point.y.value),
        i: (1 as real) / value(point.z.value),
        a: slope(point.x.value),
        b: slope(point.y.value),
        c: slope(point.z.value),
    }
}

/// Three triples, each times a slope.
spec fn carried(by_x: Triple, by_y: Triple, by_z: Triple, d: Triple) -> Triple {
    Triple {
        x: by_x.x * d.x + by_y.x * d.y + by_z.x * d.z,
        y: by_x.y * d.x + by_y.y * d.y + by_z.y * d.z,
        z: by_x.z * d.x + by_y.z * d.y + by_z.z * d.z,
    }
}

/// The held point of a free point is the point, and its normalized coordinates
/// move as the point does.
proof fn lemma_free_point<S: Geometric>(
    value: spec_fn(S) -> real,
    slope: spec_fn(S) -> real,
    point: Vec3<S>,
    limits: JacobianClampLimits<S>,
)
    requires
        slope::is_slope(value, slope),
        is_free(value, point, limits),
    ensures
        ({
            let at = projection::held_point(point, limits);
            let w = way(value, slope, point);
            &&& at.in_x && at.in_y
            &&& exact::of(value, at.inv_z) == w.i
            &&& exact::of(value, at.nx) == w.x * w.i
            &&& exact::of(value, at.ny) == w.y * w.i
            &&& slope::of(slope, at.nx) == sx(w)
            &&& slope::of(slope, at.ny) == sy(w)
            &&& exact::of(value, at.xc) == w.x
            &&& exact::of(value, at.yc) == w.y
            &&& slope::of(slope, at.xc) == w.a
            &&& slope::of(slope, at.yc) == w.b
            &&& slope::of(slope, at.inv_z) == -((w.i * w.i) * w.c)
            &&& exact::of(value, at.xc * at.inv_z) == w.x * w.i
            &&& exact::of(value, at.yc * at.inv_z) == w.y * w.i
        }),
{
    reveal(projection::spec_held_point);
    let w = way(value, slope, point);
    let z = exact::of(value, point.z);
    distortion_slope::lemma_inverse_slope(value, slope, point.z);
    lemma_lifted(w.x, z, w.i, w.a, w.c);
    lemma_lifted(w.y, z, w.i, w.b, w.c);
}

/// A row of the Jacobian and how it moves: by the derivatives that the gradient
/// uses.
proof fn lemma_row<S: Geometric>(
    value: spec_fn(S) -> real,
    slope: spec_fn(S) -> real,
    point: Vec3<S>,
    limits: JacobianClampLimits<S>,
    focal: Num<S>,
    e: Num<S>,
    h: Num<S>,
    d: (Num<S>, Num<S>, Num<S>, Num<S>, Num<S>, Num<S>),
)
    requires
        slope::is_slope(value, slope),
        is_free(value, point, limits),
        slope::of(slope, focal) == 0 as real,
        exact::of(value, d.0) == exact::of(value, e),
        exact::of(value, d.1) == exact::of(value, h),
        ({
            let w = way(value, slope, point);
            &&& slope::of(slope, e) == exact::of(value, d.2) * sx(w) + exact::of(value, d.3) * sy(w)
            &&& slope::of(slope, h) == exact::of(value, d.4) * sx(w) + exact::of(value, d.5) * sy(w)
        }),
    ensures
        ({
            let at = projection::held_point(point, limits);
            let row = projection::jacobian_row(focal, d.0, d.1, d.2, d.3, d.4, d.5, at);
            let forward = forward_row(focal, e, h, point, limits);
            let w = way(value, slope, point);
            &&& value3(value, row.j) == value3(value, forward)
            &&& value3(slope, forward) == carried(
                value3(value, row.by_x),
                value3(value, row.by_y),
                value3(value, row.by_z),
                value3(slope, point),
            )
            &&& exact::of(value, focal) * (exact::of(value, e) * sx(w) + exact::of(value, h) * sy(
                w,
            )) == dot(value3(value, row.j), value3(slope, point))
        }),
{
    reveal(projection::spec_jacobian_row);
    reveal(projection::spec_held_point);
    slope::lemma_constants(value, slope);
    lemma_free_point(value, slope, point, limits);
    let w = way(value, slope, point);
    let f = exact::of(value, focal);
    let (ve, vh) = (exact::of(value, e), exact::of(value, h));
    let (ex, ey) = (exact::of(value, d.2), exact::of(value, d.3));
    let (hx, hy) = (exact::of(value, d.4), exact::of(value, d.5));
    lemma_column(w, f, ve, ex, ey);
    lemma_column(w, f, vh, hx, hy);
    lemma_third_column(w, f, ve, ex, ey, vh, hx, hy);
    lemma_image(w, f, ve, vh);
    let at = projection::held_point(point, limits);
    let row = projection::jacobian_row(focal, d.0, d.1, d.2, d.3, d.4, d.5, at);
    let forward = forward_row(focal, e, h, point, limits);
    let i2 = w.i * w.i;
    let di = -(i2 * w.c);
    assert(slope::of(slope, forward.x) == (f * (ex * sx(w) + ey * sy(w))) * w.i + (f * ve) * di);
    assert(slope::of(slope, forward.y) == (f * (hx * sx(w) + hy * sy(w))) * w.i + (f * vh) * di);
    assert(exact::of(value, row.by_z.x) == f * (by_depth(w, ex, ey) * w.i - ve * i2));
    assert(exact::of(value, row.by_z.y) == f * (by_depth(w, hx, hy) * w.i - vh * i2));
}

spec fn contracted(u: Triple, du: Triple, w: Triple, dw: Triple) -> real {
    u.x * du.x + u.y * du.y + u.z * du.z + w.x * dw.x + w.y * dw.y + w.z * dw.z
}

proof fn lemma_carried(t: Triple, by_x: Triple, by_y: Triple, by_z: Triple, d: Triple)
    ensures
        dot(t, carried(by_x, by_y, by_z, d)) == dot(t, by_x) * d.x + dot(t, by_y) * d.y + dot(
            t,
            by_z,
        ) * d.z,
{
    exact::lemma_in_front_of_three(t.x, by_x.x, d.x, by_y.x, d.y, by_z.x, d.z);
    exact::lemma_in_front_of_three(t.y, by_x.y, d.x, by_y.y, d.y, by_z.y, d.z);
    exact::lemma_in_front_of_three(t.z, by_x.z, d.x, by_y.z, d.y, by_z.z, d.z);
    distortion_slope::lemma_sum_of_three(t.x * by_x.x, t.y * by_x.y, t.z * by_x.z, d.x);
    distortion_slope::lemma_sum_of_three(t.x * by_y.x, t.y * by_y.y, t.z * by_y.z, d.y);
    distortion_slope::lemma_sum_of_three(t.x * by_z.x, t.y * by_z.y, t.z * by_z.z, d.z);
}

/// One component of the gradient along its slope.
proof fn lemma_component(ju: real, vx: real, jw: real, vy: real, c0: real, c1: real, d: real)
    ensures
        vx * (ju * d) + vy * (jw * d) + c0 * d + c1 * d == ((ju * vx + jw * vy) + (c0 + c1)) * d,
{
    exact::lemma_regroup(vx, ju, d);
    exact::lemma_regroup(vy, jw, d);
    exact::lemma_commute(vx, ju);
    exact::lemma_commute(vy, jw);
    exact::lemma_factor(ju * vx, jw * vy, d);
    exact::lemma_factor(c0, c1, d);
    exact::lemma_factor(ju * vx + jw * vy, c0 + c1, d);
}

/// The parts of a slope, gathered into the gradient.
proof fn lemma_gathered(
    v: (real, real),
    j: (Triple, Triple),
    s: (Triple, Triple),
    bu: (Triple, Triple, Triple),
    bw: (Triple, Triple, Triple),
    d: Triple,
)
    ensures
        v.0 * dot(j.0, d) + v.1 * dot(j.1, d) + dot(s.0, carried(bu.0, bu.1, bu.2, d)) + dot(
            s.1,
            carried(bw.0, bw.1, bw.2, d),
        ) == dot(
            (Triple {
                x: (j.0.x * v.0 + j.1.x * v.1) + contracted(s.0, bu.0, s.1, bw.0),
                y: (j.0.y * v.0 + j.1.y * v.1) + contracted(s.0, bu.1, s.1, bw.1),
                z: (j.0.z * v.0 + j.1.z * v.1) + contracted(s.0, bu.2, s.1, bw.2),
            }),
            d,
        ),
{
    lemma_carried(s.0, bu.0, bu.1, bu.2, d);
    lemma_carried(s.1, bw.0, bw.1, bw.2, d);
    lemma_three_in_front(v.0, j.0.x * d.x, j.0.y * d.y, j.0.z * d.z);
    lemma_three_in_front(v.1, j.1.x * d.x, j.1.y * d.y, j.1.z * d.z);
    lemma_component(j.0.x, v.0, j.1.x, v.1, dot(s.0, bu.0), dot(s.1, bw.0), d.x);
    lemma_component(j.0.y, v.0, j.1.y, v.1, dot(s.0, bu.1), dot(s.1, bw.1), d.y);
    lemma_component(j.0.z, v.0, j.1.z, v.1, dot(s.0, bu.2), dot(s.1, bw.2), d.z);
}

/// What reaches the rows of a Jacobian depends on the numbers of its entries.
proof fn lemma_same_reaching<S: Geometric>(
    value: spec_fn(S) -> real,
    j: Mat2x3<S>,
    k: Mat2x3<S>,
    cov: Sym3<S>,
    v: ImageGradient<S>,
)
    requires
        exact::is_exact(value),
        value3(value, projection::row0(j)) == value3(value, projection::row0(k)),
        value3(value, projection::row1(j)) == value3(value, projection::row1(k)),
    ensures
        value3(value, reaching(j, cov, v).0) == value3(value, reaching(k, cov, v).0),
        value3(value, reaching(j, cov, v).1) == value3(value, reaching(k, cov, v).1),
{
    reveal(projection::spec_sym_times_mat);
    reveal(projection::spec_twice_times);
    let (a, b) = (value3(value, projection::row0(j)), value3(value, projection::row0(k)));
    assert(a.x == b.x && a.y == b.y && a.z == b.z);
    let (c, d) = (value3(value, projection::row1(j)), value3(value, projection::row1(k)));
    assert(c.x == d.x && c.y == d.y && c.z == d.z);
}

/// The gradient through the rational model, in numbers, for a free point.
proof fn lemma_rational_gradient<S: Geometric>(
    value: spec_fn(S) -> real,
    slope: spec_fn(S) -> real,
    point: Vec3<S>,
    cov: Sym3<S>,
    limits: JacobianClampLimits<S>,
    pinhole: PinholeParams<S>,
    v: ImageGradient<S>,
    params: RadialTangential8Params<S>,
    j: Mat2x3<S>,
)
    requires
        slope::is_slope(value, slope),
        is_free(value, point, limits),
        ({
            let at = projection::held_point(point, limits);
            let d = projection::distortion(at.xc * at.inv_z, at.yc * at.inv_z, params);
            let u = projection::jacobian_row(
                pinhole.fx,
                d.d00,
                d.d01,
                d.d00_dx,
                d.d00_dy,
                d.d01_dx,
                d.d01_dy,
                at,
            );
            let w = projection::jacobian_row(
                pinhole.fy,
                d.d01,
                d.d11,
                d.d01_dx,
                d.d01_dy,
                d.d11_dx,
                d.d11_dy,
                at,
            );
            &&& value3(value, u.j) == value3(value, projection::row0(j))
            &&& value3(value, w.j) == value3(value, projection::row1(j))
        }),
    ensures
        ({
            let at = projection::held_point(point, limits);
            let d = projection::distortion(at.xc * at.inv_z, at.yc * at.inv_z, params);
            let u = projection::jacobian_row(
                pinhole.fx,
                d.d00,
                d.d01,
                d.d00_dx,
                d.d00_dy,
                d.d01_dx,
                d.d01_dy,
                at,
            );
            let w = projection::jacobian_row(
                pinhole.fy,
                d.d01,
                d.d11,
                d.d01_dx,
                d.d01_dy,
                d.d11_dx,
                d.d11_dy,
                at,
            );
            let g = projection::calculate_projection_vjp_rt8(point, cov, limits, pinhole, v, params);
            let (ju, jw) = (value3(value, u.j), value3(value, w.j));
            let (vx, vy) = (exact::of(value, v.v_mean2d.x), exact::of(value, v.v_mean2d.y));
            let (su, sw) = (
                value3(value, reaching(j, cov, v).0),
                value3(value, reaching(j, cov, v).1),
            );
            value3(value, g) == (Triple {
                x: (ju.x * vx + jw.x * vy) + contracted(
                    su,
                    value3(value, u.by_x),
                    sw,
                    value3(value, w.by_x),
                ),
                y: (ju.y * vx + jw.y * vy) + contracted(
                    su,
                    value3(value, u.by_y),
                    sw,
                    value3(value, w.by_y),
                ),
                z: (ju.z * vx + jw.z * vy) + contracted(
                    su,
                    value3(value, u.by_z),
                    sw,
                    value3(value, w.by_z),
                ),
            })
        }),
{
    reveal(projection::spec_calculate_projection_vjp_rt8);
    reveal(projection::spec_contraction);
    lemma_free_point(value, slope, point, limits);
    let at = projection::held_point(point, limits);
    let d = projection::distortion(at.xc * at.inv_z, at.yc * at.inv_z, params);
    let u = projection::jacobian_row(
        pinhole.fx,
        d.d00,
        d.d01,
        d.d00_dx,
        d.d00_dy,
        d.d01_dx,
        d.d01_dy,
        at,
    );
    let w = projection::jacobian_row(
        pinhole.fy,
        d.d01,
        d.d11,
        d.d01_dx,
        d.d01_dy,
        d.d11_dx,
        d.d11_dy,
        at,
    );
    let (eu, ew) = (projection::through_clamp(u.j, at), projection::through_clamp(w.j, at));
    assert(value3(value, eu) == value3(value, u.j));
    assert(value3(value, ew) == value3(value, w.j));
    let held = Mat2x3 {
        c0: Vec2 { x: eu.x, y: ew.x },
        c1: Vec2 { x: eu.y, y: ew.y },
        c2: Vec2 { x: eu.z, y: ew.z },
    };
    assert(projection::row0(held) == eu);
    assert(projection::row1(held) == ew);
    lemma_same_reaching(value, held, j, cov, v);
}

/// The gradient of a point through the rational model is the slope of its
/// weighed image: however the point moves, the image and the covariance in it,
/// weighed by their gradients, move by the gradient of the point along that way.
pub proof fn rational_gradient_is_the_slope<S: Geometric>(
    value: spec_fn(S) -> real,
    slope: spec_fn(S) -> real,
    point: Vec3<S>,
    cov: Sym3<S>,
    limits: JacobianClampLimits<S>,
    pinhole: PinholeParams<S>,
    v: ImageGradient<S>,
    params: RadialTangential8Params<S>,
)
    requires
        slope::is_slope(value, slope),
        pinhole_rests(slope, pinhole),
        distortion_slope::lens_rests(slope, params),
        weights_rest(slope, cov, v),
        is_free(value, point, limits),
        ({
            let i = (1 as real) / exact::of(value, point.z);
            distortion_slope::divisor(
                value,
                exact::of(value, point.x) * i,
                exact::of(value, point.y) * i,
                params,
            ) != 0 as real
        }),
    ensures
        ({
            let j = projection::calculate_project_jacobian_rt8(point, limits, pinhole, params);
            let g = projection::calculate_projection_vjp_rt8(point, cov, limits, pinhole, v, params);
            slope::of(
                slope,
                weighed_image(projection::project_rt8(point, pinhole, params), j, cov, v),
            ) == dot(value3(value, g), value3(slope, point))
        }),
{
    reveal(projection::spec_held_point);
    slope::lemma_constants(value, slope);
    let image = projection::project_rt8(point, pinhole, params);
    let j = projection::calculate_project_jacobian_rt8(point, limits, pinhole, params);
    let w = way(value, slope, point);
    let (x, y) = (w.x * w.i, w.y * w.i);
    let a = distortion_slope::lens_at(value, params, x, y, sx(w), sy(w));
    let at = projection::held_point(point, limits);
    lemma_free_point(value, slope, point, limits);
    lemma_weighed_slope(value, slope, image, j, cov, v);
    // The rows of the Jacobian.
    let f = distortion_slope::forward_entries(at.nx, at.ny, params);
    distortion_slope::lemma_forward_entries(value, slope, at.nx, at.ny, params);
    let d = projection::distortion(at.xc * at.inv_z, at.yc * at.inv_z, params);
    distortion_slope::lemma_distortion_values(
        value,
        at.xc * at.inv_z,
        at.yc * at.inv_z,
        params,
        a,
    );
    let row_u = (d.d00, d.d01, d.d00_dx, d.d00_dy, d.d01_dx, d.d01_dy);
    let row_w = (d.d01, d.d11, d.d01_dx, d.d01_dy, d.d11_dx, d.d11_dy);
    lemma_row(value, slope, point, limits, pinhole.fx, f.2, f.3, row_u);
    lemma_row(value, slope, point, limits, pinhole.fy, f.3, f.4, row_w);
    assert(projection::row0(j) == forward_row(pinhole.fx, f.2, f.3, point, limits));
    assert(projection::row1(j) == forward_row(pinhole.fy, f.3, f.4, point, limits));
    // The image.
    let (px, py) = (point.x / point.z, point.y / point.z);
    lemma_normalized(value, slope, point);
    distortion_slope::lemma_distorted_moves(value, slope, px, py, params);
    let image_of = distortion_slope::distorted(px, py, params);
    assert(image.x == pinhole.fx * image_of.0 + pinhole.cx);
    assert(image.y == pinhole.fy * image_of.1 + pinhole.cy);
    // The gradient.
    lemma_rational_gradient(value, slope, point, cov, limits, pinhole, v, params, j);
    let u = projection::jacobian_row(
        pinhole.fx,
        d.d00,
        d.d01,
        d.d00_dx,
        d.d00_dy,
        d.d01_dx,
        d.d01_dy,
        at,
    );
    let t = projection::jacobian_row(
        pinhole.fy,
        d.d01,
        d.d11,
        d.d01_dx,
        d.d01_dy,
        d.d11_dx,
        d.d11_dy,
        at,
    );
    lemma_gathered(
        (exact::of(value, v.v_mean2d.x), exact::of(value, v.v_mean2d.y)),
        (value3(value, u.j), value3(value, t.j)),
        (value3(value, reaching(j, cov, v).0), value3(value, reaching(j, cov, v).1)),
        (value3(value, u.by_x), value3(value, u.by_y), value3(value, u.by_z)),
        (value3(value, t.by_x), value3(value, t.by_y), value3(value, t.by_z)),
        value3(slope, point),
    );
}

/// The normalized coordinates of a point and their slopes.
proof fn lemma_normalized<S: Geometric>(
    value: spec_fn(S) -> real,
    slope: spec_fn(S) -> real,
    point: Vec3<S>,
)
    requires
        slope::is_slope(value, slope),
        exact::of(value, point.z) != 0 as real,
    ensures
        ({
            let w = way(value, slope, point);
            &&& exact::of(value, point.x / point.z) == w.x * w.i
            &&& exact::of(value, point.y / point.z) == w.y * w.i
            &&& slope::of(slope, point.x / point.z) == sx(w)
            &&& slope::of(slope, point.y / point.z) == sy(w)
        }),
{
    let w = way(value, slope, point);
    let z = exact::of(value, point.z);
    let i2 = w.i * w.i;
    projection::lemma_quotient(w.x, z);
    projection::lemma_quotient(w.y, z);
    projection::lemma_quotient(w.a - (w.x / z) * w.c, z);
    projection::lemma_quotient(w.b - (w.y / z) * w.c, z);
    lemma_coordinate_slope(w.x, w.i, w.a, w.c);
    lemma_coordinate_slope(w.y, w.i, w.b, w.c);
    exact::lemma_factor_difference(w.a, (w.x * w.i) * w.c, w.i);
    exact::lemma_factor_difference(w.b, (w.y * w.i) * w.c, w.i);
    exact::lemma_commute(w.a, w.i);
    exact::lemma_commute(w.b, w.i);
    exact::lemma_swap_last(w.x * w.i, w.c, w.i);
    exact::lemma_swap_last(w.y * w.i, w.c, w.i);
    exact::lemma_regroup(w.x, w.i, w.i);
    exact::lemma_regroup(w.y, w.i, w.i);
}

/// The Jacobian of a pinhole is the slope of its image: however a point within
/// the limits moves, its image moves by the rows of the Jacobian along that way.
pub proof fn pinhole_jacobian_is_the_slope<S: Geometric>(
    value: spec_fn(S) -> real,
    slope: spec_fn(S) -> real,
    point: Vec3<S>,
    limits: JacobianClampLimits<S>,
    params: PinholeParams<S>,
)
    requires
        slope::is_slope(value, slope),
        pinhole_rests(slope, params),
        is_free(value, point, limits),
    ensures
        ({
            let image = projection::project_pinhole(point, params);
            let j = projection::calculate_project_jacobian_pinhole(point, limits, params);
            &&& slope::of(slope, image.x) == dot(
                value3(value, projection::row0(j)),
                value3(slope, point),
            )
            &&& slope::of(slope, image.y) == dot(
                value3(value, projection::row1(j)),
                value3(slope, point),
            )
        }),
{
    slope::lemma_constants(value, slope);
    distortion_slope::lemma_inverse_slope(value, slope, point.z);
    lemma_pinhole_rows(value, slope, point, limits, params);
    let (m, d) = (value3(value, point), value3(slope, point));
    let i = (1 as real) / m.z;
    lemma_image_axis(exact::of(value, params.fx), m.x, i, d.x, d.z);
    lemma_image_axis(exact::of(value, params.fy), m.y, i, d.y, d.z);
    let zero = 0 as real;
    exact::lemma_times_zero(zero, d.x);
    exact::lemma_times_zero(zero, d.y);
}

/// One axis of it.
proof fn lemma_image_axis(f: real, x: real, i: real, a: real, c: real)
    ensures
        (f * a) * i + (f * x) * (-((i * i) * c)) == (f * i) * a + ((-(f * i)) * (x * i)) * c,
{
    let i2 = i * i;
    exact::lemma_swap_last(f, a, i);
    exact::lemma_in_front(f * x, i2 * c, i2 * c);
    exact::lemma_regroup(f * x, i2, c);
    exact::lemma_opposite(f * i, x * i);
    exact::lemma_opposite((f * i) * (x * i), c);
    assert((f * x) * i2 == (f * i) * (x * i)) by {
        exact::lemma_regroup(f, x, i2);
        exact::lemma_regroup(f, i, x * i);
        exact::lemma_swap_first(i, x, i);
    }
}

/// The Jacobian of the rational model is the slope of its image: however a point
/// within the limits moves, its image moves by the rows of the Jacobian along
/// that way.
pub proof fn rational_jacobian_is_the_slope<S: Geometric>(
    value: spec_fn(S) -> real,
    slope: spec_fn(S) -> real,
    point: Vec3<S>,
    limits: JacobianClampLimits<S>,
    pinhole: PinholeParams<S>,
    params: RadialTangential8Params<S>,
)
    requires
        slope::is_slope(value, slope),
        pinhole_rests(slope, pinhole),
        distortion_slope::lens_rests(slope, params),
        is_free(value, point, limits),
        ({
            let i = (1 as real) / exact::of(value, point.z);
            distortion_slope::divisor(
                value,
                exact::of(value, point.x) * i,
                exact::of(value, point.y) * i,
                params,
            ) != 0 as real
        }),
    ensures
        ({
            let image = projection::project_rt8(point, pinhole, params);
            let j = projection::calculate_project_jacobian_rt8(point, limits, pinhole, params);
            &&& slope::of(slope, image.x) == dot(
                value3(value, projection::row0(j)),
                value3(slope, point),
            )
            &&& slope::of(slope, image.y) == dot(
                value3(value, projection::row1(j)),
                value3(slope, point),
            )
        }),
{
    reveal(projection::spec_held_point);
    slope::lemma_constants(value, slope);
    let image = projection::project_rt8(point, pinhole, params);
    let j = projection::calculate_project_jacobian_rt8(point, limits, pinhole, params);
    let w = way(value, slope, point);
    let at = projection::held_point(point, limits);
    lemma_free_point(value, slope, point, limits);
    let f = distortion_slope::forward_entries(at.nx, at.ny, params);
    distortion_slope::lemma_forward_entries(value, slope, at.nx, at.ny, params);
    assert(projection::row0(j) == forward_row(pinhole.fx, f.2, f.3, point, limits));
    assert(projection::row1(j) == forward_row(pinhole.fy, f.3, f.4, point, limits));
    let (px, py) = (point.x / point.z, point.y / point.z);
    lemma_normalized(value, slope, point);
    distortion_slope::lemma_distorted_moves(value, slope, px, py, params);
    let image_of = distortion_slope::distorted(px, py, params);
    assert(image.x == pinhole.fx * image_of.0 + pinhole.cx);
    assert(image.y == pinhole.fy * image_of.1 + pinhole.cy);
    let (fx, fy) = (exact::of(value, pinhole.fx), exact::of(value, pinhole.fy));
    let (d00, d01, d11) = (exact::of(value, f.2), exact::of(value, f.3), exact::of(value, f.4));
    lemma_image(w, fx, d00, d01);
    lemma_image(w, fy, d01, d11);
    let i2 = w.i * w.i;
    assert(value3(value, projection::row0(j)) == (Triple {
        x: (fx * d00) * w.i,
        y: (fx * d01) * w.i,
        z: ((-fx) * (d00 * w.x + d01 * w.y)) * i2,
    }));
    assert(value3(value, projection::row1(j)) == (Triple {
        x: (fy * d01) * w.i,
        y: (fy * d11) * w.i,
        z: ((-fy) * (d01 * w.x + d11 * w.y)) * i2,
    }));
}

/// `held` is `point`, moved at its depth to where its normalized coordinates are
/// within the limits.
pub open spec fn is_moved_within<S: Geometric>(
    value: spec_fn(S) -> real,
    point: Vec3<S>,
    limits: JacobianClampLimits<S>,
    held: Vec3<S>,
) -> bool {
    let z = exact::of(value, point.z);
    let i = (1 as real) / z;
    let within = |x: Num<S>, low: Num<S>, high: Num<S>|
        exact::held_real(exact::of(value, x) * i, exact::of(value, low), exact::of(value, high));
    &&& z != 0 as real
    &&& exact::of(value, held.z) == z
    &&& exact::of(value, held.x) == within(point.x, limits.lim_neg_x, limits.lim_pos_x) * z
    &&& exact::of(value, held.y) == within(point.y, limits.lim_neg_y, limits.lim_pos_y) * z
}

/// The limits of each axis are in order.
pub open spec fn are_ordered<S: Geometric>(
    value: spec_fn(S) -> real,
    limits: JacobianClampLimits<S>,
) -> bool {
    &&& exact::of(value, limits.lim_neg_x) <= exact::of(value, limits.lim_pos_x)
    &&& exact::of(value, limits.lim_neg_y) <= exact::of(value, limits.lim_pos_y)
}

/// The Jacobian at a point is the one at the point moved to within the limits,
/// through either lens, whatever wider limits are put around that point.
pub proof fn jacobians_are_taken_within_the_limits<S: Geometric>(
    value: spec_fn(S) -> real,
    point: Vec3<S>,
    limits: JacobianClampLimits<S>,
    held: Vec3<S>,
    wider: JacobianClampLimits<S>,
    pinhole: PinholeParams<S>,
    params: RadialTangential8Params<S>,
)
    requires
        exact::is_exact(value),
        exact::chooses(value),
        are_ordered(value, limits),
        is_moved_within(value, point, limits, held),
        projection::is_unheld(value, held, wider),
    ensures
        projection::same_entries(
            value,
            projection::calculate_project_jacobian_pinhole(point, limits, pinhole),
            projection::calculate_project_jacobian_pinhole(held, wider, pinhole),
        ),
        ({
            let i = (1 as real) / exact::of(value, held.z);
            distortion_slope::divisor(
                value,
                exact::of(value, held.x) * i,
                exact::of(value, held.y) * i,
                params,
            ) != 0 as real
        }) ==> projection::same_entries(
            value,
            projection::calculate_project_jacobian_rt8(point, limits, pinhole, params),
            projection::calculate_project_jacobian_rt8(held, wider, pinhole, params),
        ),
{
    let z = exact::of(value, point.z);
    let i = (1 as real) / z;
    let nx = exact::held_real(
        exact::of(value, point.x) * i,
        exact::of(value, limits.lim_neg_x),
        exact::of(value, limits.lim_pos_x),
    );
    let ny = exact::held_real(
        exact::of(value, point.y) * i,
        exact::of(value, limits.lim_neg_y),
        exact::of(value, limits.lim_pos_y),
    );
    lemma_lowered(nx, z);
    lemma_lowered(ny, z);
    let one = Num { value: scalar::literal::<S>("1.0") };
    let (inv_p, inv_h) = (one / point.z, one / held.z);
    assert(exact::of(value, inv_p) == i && exact::of(value, inv_h) == i);
    let (px, py) = (
        (point.x * inv_p).held(limits.lim_neg_x, limits.lim_pos_x),
        (point.y * inv_p).held(limits.lim_neg_y, limits.lim_pos_y),
    );
    let (hx, hy) = (
        (held.x * inv_h).held(wider.lim_neg_x, wider.lim_pos_x),
        (held.y * inv_h).held(wider.lim_neg_y, wider.lim_pos_y),
    );
    assert(exact::of(value, px) == nx && exact::of(value, hx) == nx);
    assert(exact::of(value, py) == ny && exact::of(value, hy) == ny);
}

/// A normalized coordinate comes back from the coordinate that it was made of.
proof fn lemma_lowered(n: real, z: real)
    requires
        z != 0 as real,
    ensures
        (n * z) * ((1 as real) / z) == n,
{
    distortion_slope::lemma_inverse(z);
    exact::lemma_regroup(n, z, (1 as real) / z);
    assert(n * (1 as real) == n);
}

/// A value that is held at a limit is the limit, and moves as it does.
pub open spec fn stops_at_limits<S: Geometric>(
    value: spec_fn(S) -> real,
    slope: spec_fn(S) -> real,
) -> bool {
    &&& forall|a: Num<S>, low: Num<S>, high: Num<S>|
        exact::of(value, low) <= exact::of(value, high) && exact::of(value, a) < exact::of(
            value,
            low,
        ) ==> exact::of(value, #[trigger] a.held(low, high)) == exact::of(value, low) && slope::of(
            slope,
            a.held(low, high),
        ) == slope::of(slope, low)
    &&& forall|a: Num<S>, low: Num<S>, high: Num<S>|
        exact::of(value, low) <= exact::of(value, high) && exact::of(value, high) < exact::of(
            value,
            a,
        ) ==> exact::of(value, #[trigger] a.held(low, high)) == exact::of(value, high) && slope::of(
            slope,
            a.held(low, high),
        ) == slope::of(slope, high)
}

/// The limits stand still.
pub open spec fn limits_rest<S: Geometric>(
    slope: spec_fn(S) -> real,
    limits: JacobianClampLimits<S>,
) -> bool {
    &&& slope::of(slope, limits.lim_neg_x) == 0 as real
    &&& slope::of(slope, limits.lim_pos_x) == 0 as real
    &&& slope::of(slope, limits.lim_neg_y) == 0 as real
    &&& slope::of(slope, limits.lim_pos_y) == 0 as real
}

/// A coordinate lies strictly between two limits.
pub open spec fn lies_inside(n: real, low: real, high: real) -> bool {
    low < n && n < high
}

/// A coordinate lies at neither of two limits.
pub open spec fn lies_off(n: real, low: real, high: real) -> bool {
    n != low && n != high
}

/// What one held axis of a pinhole adds to the slope of the weighed image: `l` is
/// the limit that the normalized coordinate is held at.
proof fn lemma_held_axis(
    f: real,
    x: real,
    i: real,
    a: real,
    c: real,
    vm: real,
    sd: real,
    sz: real,
    l: real,
)
    ensures
        ({
            let i2 = i * i;
            let di = -(i2 * c);
            let image = (f * a) * i + (f * x) * di;
            let du = f * di;
            let dz = (-(f * di)) * l;
            vm * image + sd * du + sz * dz == ((f * i) * vm) * a + (((f * i2) * l) * sz - ((f * x)
                * vm) * i2 - (f * i2) * sd) * c
        }),
{
    let i2 = i * i;
    let di = -(i2 * c);
    let (p, q, r) = (f * i, f * i2, (f * x) * i2);
    let image = (f * a) * i + (f * x) * di;
    exact::lemma_swap_last(f, a, i);
    exact::lemma_in_front(f * x, i2 * c, i2 * c);
    exact::lemma_regroup(f * x, i2, c);
    assert(image == p * a - r * c);
    exact::lemma_in_front(f, i2 * c, i2 * c);
    exact::lemma_regroup(f, i2, c);
    assert(f * di == -(q * c));
    exact::lemma_swap_last(q, c, l);
    assert((-(f * di)) * l == (q * l) * c);
    exact::lemma_in_front(vm, p * a, r * c);
    exact::lemma_regroup(vm, p, a);
    exact::lemma_regroup(vm, r, c);
    exact::lemma_commute(vm, p);
    exact::lemma_commute(vm, r);
    exact::lemma_swap_last(f * x, vm, i2);
    exact::lemma_in_front(sd, q * c, q * c);
    exact::lemma_regroup(sd, q, c);
    exact::lemma_commute(sd, q);
    exact::lemma_regroup(sz, q * l, c);
    exact::lemma_commute(sz, q * l);
    exact::lemma_factor_difference((q * l) * sz, ((f * x) * vm) * i2, c);
    exact::lemma_factor_difference((q * l) * sz - ((f * x) * vm) * i2, q * sd, c);
}

/// What a held axis adds to the gradient of the depth, put together.
proof fn lemma_held_depth(f: real, z: real, i: real, l: real, sz: real)
    requires
        z * i == 1 as real,
    ensures
        ({
            let i2 = i * i;
            let i3 = i2 * i;
            let t = z * l;
            (((-f) * i3) * sz) * t + ((((2 as real) * f) * t) * i3) * sz == ((f * i2) * l) * sz
        }),
{
    let two = 2 as real;
    let i2 = i * i;
    let i3 = i2 * i;
    let t = z * l;
    let q = ((f * t) * i3) * sz;
    exact::lemma_opposite(f, i3);
    exact::lemma_opposite(f * i3, sz);
    exact::lemma_opposite((f * i3) * sz, t);
    exact::lemma_swap_last(f * i3, sz, t);
    exact::lemma_swap_last(f, i3, t);
    exact::lemma_regroup(two, f, t);
    exact::lemma_regroup(two, f * t, i3);
    exact::lemma_regroup(two, (f * t) * i3, sz);
    assert((((-f) * i3) * sz) * t + (((two * f) * t) * i3) * sz == q);
    exact::lemma_regroup(f, t, i3);
    assert(t * i3 == i2 * l) by {
        exact::lemma_commute(z, l);
        exact::lemma_regroup(l, z, i3);
        exact::lemma_swap_first(z, i2, i);
        assert(i2 * (1 as real) == i2);
        exact::lemma_commute(l, i2);
    }
    exact::lemma_regroup(f, i2, l);
}

/// The normalized coordinates that a pinhole's Jacobian is taken at, one axis:
/// those of the point, or the limit that it lies beyond.
proof fn lemma_settled<S: Geometric>(
    value: spec_fn(S) -> real,
    slope: spec_fn(S) -> real,
    n: Num<S>,
    low: Num<S>,
    high: Num<S>,
)
    requires
        slope::is_slope(value, slope),
        stops_at_limits(value, slope),
        slope::of(slope, low) == 0 as real,
        slope::of(slope, high) == 0 as real,
        exact::of(value, low) <= exact::of(value, high),
        lies_off(exact::of(value, n), exact::of(value, low), exact::of(value, high)),
    ensures
        ({
            let inside = lies_inside(
                exact::of(value, n),
                exact::of(value, low),
                exact::of(value, high),
            );
            &&& projection::within(low, n, high) == inside
            &&& inside ==> exact::of(value, n.held(low, high)) == exact::of(value, n)
            &&& inside ==> slope::of(slope, n.held(low, high)) == slope::of(slope, n)
            &&& !inside ==> slope::of(slope, n.held(low, high)) == 0 as real
        }),
{
}

/// What the gradient of a point through a pinhole is made of, one axis: its part
/// of the coordinate's and of the depth's.
spec fn axis_gradient(
    inside: bool,
    f: real,
    x: real,
    i: real,
    n: real,
    vm: real,
    sd: real,
    sz: real,
) -> (real, real) {
    let i2 = i * i;
    let i3 = i2 * i;
    if inside {
        (
            (f * i) * vm - (f * i2) * sz,
            ((((2 as real) * f) * x) * i3) * sz - ((f * x) * vm) * i2 - (f * i2) * sd,
        )
    } else {
        ((f * i) * vm, ((f * i2) * n) * sz - ((f * x) * vm) * i2 - (f * i2) * sd)
    }
}

/// The gradient of a point through a pinhole is the slope of its weighed image
/// beyond the limits too, where the Jacobian is taken at a limit: wherever no
/// normalized coordinate lies at a limit itself.
pub proof fn held_pinhole_gradient_is_the_slope<S: Geometric>(
    value: spec_fn(S) -> real,
    slope: spec_fn(S) -> real,
    point: Vec3<S>,
    cov: Sym3<S>,
    limits: JacobianClampLimits<S>,
    params: PinholeParams<S>,
    v: ImageGradient<S>,
)
    requires
        slope::is_slope(value, slope),
        stops_at_limits(value, slope),
        limits_rest(slope, limits),
        pinhole_rests(slope, params),
        weights_rest(slope, cov, v),
        are_ordered(value, limits),
        exact::of(value, point.z) != 0 as real,
        ({
            let i = (1 as real) / exact::of(value, point.z);
            &&& lies_off(
                exact::of(value, point.x) * i,
                exact::of(value, limits.lim_neg_x),
                exact::of(value, limits.lim_pos_x),
            )
            &&& lies_off(
                exact::of(value, point.y) * i,
                exact::of(value, limits.lim_neg_y),
                exact::of(value, limits.lim_pos_y),
            )
        }),
    ensures
        ({
            let j = projection::calculate_project_jacobian_pinhole(point, limits, params);
            let g = projection::calculate_projection_vjp_pinhole(j, point, cov, limits, params, v);
            slope::of(
                slope,
                weighed_image(projection::project_pinhole(point, params), j, cov, v),
            ) == dot(value3(value, g), value3(slope, point))
        }),
{
    slope::lemma_constants(value, slope);
    let image = projection::project_pinhole(point, params);
    let j = projection::calculate_project_jacobian_pinhole(point, limits, params);
    let g = projection::calculate_projection_vjp_pinhole(j, point, cov, limits, params, v);
    distortion_slope::lemma_inverse_slope(value, slope, point.z);
    lemma_weighed_slope(value, slope, image, j, cov, v);
    let (m, d) = (value3(value, point), value3(slope, point));
    let i = (1 as real) / m.z;
    let inv_z = Num { value: scalar::literal::<S>("1.0") } / point.z;
    let (raw_x, raw_y) = (point.x * inv_z, point.y * inv_z);
    lemma_settled(value, slope, raw_x, limits.lim_neg_x, limits.lim_pos_x);
    lemma_settled(value, slope, raw_y, limits.lim_neg_y, limits.lim_pos_y);
    let (nx, ny) = (
        raw_x.held(limits.lim_neg_x, limits.lim_pos_x),
        raw_y.held(limits.lim_neg_y, limits.lim_pos_y),
    );
    let (in_x, in_y) = (
        projection::within(limits.lim_neg_x, raw_x, limits.lim_pos_x),
        projection::within(limits.lim_neg_y, raw_y, limits.lim_pos_y),
    );
    let (fx, fy) = (exact::of(value, params.fx), exact::of(value, params.fy));
    let (vx, vy) = (exact::of(value, v.v_mean2d.x), exact::of(value, v.v_mean2d.y));
    let (su, sw) = (
        value3(value, reaching(j, cov, v).0),
        value3(value, reaching(j, cov, v).1),
    );
    let (lx, ly) = (exact::of(value, nx), exact::of(value, ny));
    let ax = axis_gradient(in_x, fx, m.x, i, lx, vx, su.x, su.z);
    let ay = axis_gradient(in_y, fy, m.y, i, ly, vy, sw.y, sw.z);
    lemma_axis(fx, m.x, i, d.x, d.z, vx, su.x, su.z);
    lemma_axis(fy, m.y, i, d.y, d.z, vy, sw.y, sw.z);
    lemma_held_axis(fx, m.x, i, d.x, d.z, vx, su.x, su.z, lx);
    lemma_held_axis(fy, m.y, i, d.y, d.z, vy, sw.y, sw.z, ly);
    let di = -((i * i) * d.z);
    let zero = 0 as real;
    // The rows of the Jacobian.
    exact::lemma_times_zero(-(fx * i), zero);
    exact::lemma_times_zero(-(fy * i), zero);
    let dx = if in_x {
        (-(fx * di)) * (m.x * i) + (-(fx * i)) * (d.x * i + m.x * di)
    } else {
        (-(fx * di)) * lx
    };
    let dy = if in_y {
        (-(fy * di)) * (m.y * i) + (-(fy * i)) * (d.y * i + m.y * di)
    } else {
        (-(fy * di)) * ly
    };
    assert(value3(slope, projection::row0(j)) == (Triple { x: fx * di, y: zero, z: dx }));
    assert(value3(slope, projection::row1(j)) == (Triple { x: zero, y: fy * di, z: dy }));
    exact::lemma_times_zero(su.y, zero);
    exact::lemma_times_zero(sw.x, zero);
    lemma_settled_gradient(value, j, point, cov, limits, params, v);
    exact::lemma_factor(ax.1, ay.1, d.z);
    assert(value3(value, g) == (Triple { x: ax.0, y: ay.0, z: ax.1 + ay.1 }));
}

/// The gradient through a pinhole, in numbers, by axis.
proof fn lemma_settled_gradient<S: Geometric>(
    value: spec_fn(S) -> real,
    j: Mat2x3<S>,
    point: Vec3<S>,
    cov: Sym3<S>,
    limits: JacobianClampLimits<S>,
    params: PinholeParams<S>,
    v: ImageGradient<S>,
)
    requires
        exact::is_exact(value),
        exact::of(value, point.z) != 0 as real,
    ensures
        ({
            let g = projection::calculate_projection_vjp_pinhole(j, point, cov, limits, params, v);
            let m = value3(value, point);
            let i = (1 as real) / m.z;
            let inv_z = Num { value: scalar::literal::<S>("1.0") } / point.z;
            let (raw_x, raw_y) = (point.x * inv_z, point.y * inv_z);
            let (lx, ly) = (
                exact::of(value, raw_x.held(limits.lim_neg_x, limits.lim_pos_x)),
                exact::of(value, raw_y.held(limits.lim_neg_y, limits.lim_pos_y)),
            );
            let (in_x, in_y) = (
                projection::within(limits.lim_neg_x, raw_x, limits.lim_pos_x),
                projection::within(limits.lim_neg_y, raw_y, limits.lim_pos_y),
            );
            let (fx, fy) = (exact::of(value, params.fx), exact::of(value, params.fy));
            let (vx, vy) = (exact::of(value, v.v_mean2d.x), exact::of(value, v.v_mean2d.y));
            let (su, sw) = (
                value3(value, reaching(j, cov, v).0),
                value3(value, reaching(j, cov, v).1),
            );
            let ax = axis_gradient(in_x, fx, m.x, i, lx, vx, su.x, su.z);
            let ay = axis_gradient(in_y, fy, m.y, i, ly, vy, sw.y, sw.z);
            &&& exact::of(value, g.x) == ax.0
            &&& exact::of(value, g.y) == ay.0
            &&& exact::of(value, g.z) == ax.1 + ay.1
        }),
{
    reveal(projection::spec_calculate_projection_vjp_pinhole);
    reveal(projection::spec_twice_times);
    let m = value3(value, point);
    let i = (1 as real) / m.z;
    let i2 = i * i;
    let inv_z = Num { value: scalar::literal::<S>("1.0") } / point.z;
    let (raw_x, raw_y) = (point.x * inv_z, point.y * inv_z);
    let (lx, ly) = (
        exact::of(value, raw_x.held(limits.lim_neg_x, limits.lim_pos_x)),
        exact::of(value, raw_y.held(limits.lim_neg_y, limits.lim_pos_y)),
    );
    let (fx, fy) = (exact::of(value, params.fx), exact::of(value, params.fy));
    let (vx, vy) = (exact::of(value, v.v_mean2d.x), exact::of(value, v.v_mean2d.y));
    let (su, sw) = (value3(value, reaching(j, cov, v).0), value3(value, reaching(j, cov, v).1));
    distortion_slope::lemma_inverse(m.z);
    exact::lemma_swap_first(m.z, m.x, i);
    exact::lemma_swap_first(m.z, m.y, i);
    assert(m.x * (1 as real) == m.x && m.y * (1 as real) == m.y);
    exact::lemma_opposite(fx, i2);
    exact::lemma_opposite(fy, i2);
    exact::lemma_opposite(fx * i2, su.z);
    exact::lemma_opposite(fy * i2, sw.z);
    exact::lemma_opposite(fx * i2, su.x);
    exact::lemma_opposite((fx * m.x) * vx + (fy * m.y) * vy, i2);
    exact::lemma_factor((fx * m.x) * vx, (fy * m.y) * vy, i2);
    lemma_held_depth(fx, m.z, i, lx, su.z);
    lemma_held_depth(fy, m.z, i, ly, sw.z);
}

/// How a point is held within limits: which coordinates lie within them, and
/// the normalized coordinates that it is held at.
struct Clamp {
    in_x: bool,
    in_y: bool,
    nx: real,
    ny: real,
}

/// Three numbers by coordinate, as by those that move: a held coordinate moves
/// with the depth.
spec fn through(c: Clamp, t: Triple) -> Triple {
    Triple {
        x: if c.in_x {
            t.x
        } else {
            0 as real
        },
        y: if c.in_y {
            t.y
        } else {
            0 as real
        },
        z: (if c.in_x {
            0 as real
        } else {
            c.nx * t.x
        }) + (if c.in_y {
            0 as real
        } else {
            c.ny * t.y
        }) + t.z,
    }
}

spec fn back(c: Clamp, e: Triple) -> Triple {
    Triple {
        x: if c.in_x {
            e.x
        } else {
            c.nx * e.z
        },
        y: if c.in_y {
            e.y
        } else {
            c.ny * e.z
        },
        z: e.z,
    }
}

/// The covariance of a held point.
spec fn held_sym(c: Clamp, m: Sym) -> Sym {
    let xz = if c.in_x {
        m.xz
    } else {
        c.nx * m.zz
    };
    let yz = if c.in_y {
        m.yz
    } else {
        c.ny * m.zz
    };
    Sym {
        xx: if c.in_x {
            m.xx
        } else {
            c.nx * xz
        },
        xy: if c.in_x && c.in_y {
            m.xy
        } else if c.in_y {
            c.nx * m.yz
        } else {
            c.ny * xz
        },
        xz,
        yy: if c.in_y {
            m.yy
        } else {
            c.ny * yz
        },
        yz,
        zz: m.zz,
    }
}

/// What a held coordinate adds to a sum over coordinates.
proof fn lemma_moved(n: real, a: real, c: real, m: real)
    ensures
        (n * a + c) * m == a * (n * m) + c * m,
        n * (a * m) == a * (n * m),
{
    exact::lemma_factor(n * a, c, m);
    exact::lemma_swap_first(n, a, m);
    exact::lemma_regroup(n, a, m);
}

/// Holding the numbers before a covariance and after it is holding the
/// covariance.
proof fn lemma_held_times(c: Clamp, m: Sym, t: Triple)
    ensures
        back(c, times(m, through(c, t))) == times(held_sym(c, m), t),
{
    let p = through(c, t);
    let e = times(m, p);
    let zero = 0 as real;
    if !c.in_x {
        exact::lemma_times_zero(zero, m.xx);
        exact::lemma_times_zero(zero, m.xy);
        exact::lemma_times_zero(zero, m.xz);
    }
    if !c.in_y {
        exact::lemma_times_zero(zero, m.xy);
        exact::lemma_times_zero(zero, m.yy);
        exact::lemma_times_zero(zero, m.yz);
    }
    if !c.in_x && c.in_y {
        lemma_moved(c.nx, t.x, t.z, m.yz);
        lemma_moved(c.nx, t.x, t.z, m.zz);
        lemma_three_in_front(c.nx, t.x * (c.nx * m.zz), t.y * m.yz, t.z * m.zz);
        exact::lemma_swap_first(c.nx, t.x, c.nx * m.zz);
        exact::lemma_swap_first(c.nx, t.y, m.yz);
        exact::lemma_swap_first(c.nx, t.z, m.zz);
    } else if c.in_x && !c.in_y {
        lemma_moved(c.ny, t.y, t.z, m.xz);
        lemma_moved(c.ny, t.y, t.z, m.zz);
        lemma_three_in_front(c.ny, t.x * m.xz, t.y * (c.ny * m.zz), t.z * m.zz);
        exact::lemma_swap_first(c.ny, t.x, m.xz);
        exact::lemma_swap_first(c.ny, t.y, c.ny * m.zz);
        exact::lemma_swap_first(c.ny, t.z, m.zz);
    } else if !c.in_x && !c.in_y {
        let k = m.zz;
        exact::lemma_factor(c.nx * t.x + c.ny * t.y, t.z, k);
        exact::lemma_factor(c.nx * t.x, c.ny * t.y, k);
        exact::lemma_regroup(c.nx, t.x, k);
        exact::lemma_regroup(c.ny, t.y, k);
        exact::lemma_swap_first(c.nx, t.x, k);
        exact::lemma_swap_first(c.ny, t.y, k);
        assert(e.z == t.x * (c.nx * k) + t.y * (c.ny * k) + t.z * k);
        lemma_three_in_front(c.nx, t.x * (c.nx * k), t.y * (c.ny * k), t.z * k);
        exact::lemma_swap_first(c.nx, t.x, c.nx * k);
        exact::lemma_swap_first(c.nx, t.y, c.ny * k);
        exact::lemma_swap_first(c.nx, t.z, k);
        exact::lemma_swap_first(c.nx, c.ny, k);
        lemma_three_in_front(c.ny, t.x * (c.nx * k), t.y * (c.ny * k), t.z * k);
        exact::lemma_swap_first(c.ny, t.x, c.nx * k);
        exact::lemma_swap_first(c.ny, t.y, c.ny * k);
        exact::lemma_swap_first(c.ny, t.z, k);
    }
}

/// Holding two triples and mixing them is holding the mixture.
proof fn lemma_held_mix(c: Clamp, p: real, a: Triple, q: real, b: Triple)
    ensures
        mix(p, through(c, a), q, through(c, b)) == through(c, mix(p, a, q, b)),
{
    let zero = 0 as real;
    exact::lemma_times_zero(p, zero);
    exact::lemma_times_zero(q, zero);
    let (ax, ay) = (
        if c.in_x {
            zero
        } else {
            c.nx * a.x
        },
        if c.in_y {
            zero
        } else {
            c.ny * a.y
        },
    );
    let (bx, by) = (
        if c.in_x {
            zero
        } else {
            c.nx * b.x
        },
        if c.in_y {
            zero
        } else {
            c.ny * b.y
        },
    );
    lemma_three_in_front(p, ax, ay, a.z);
    lemma_three_in_front(q, bx, by, b.z);
    exact::lemma_in_front(c.nx, p * a.x, q * b.x);
    exact::lemma_in_front(c.ny, p * a.y, q * b.y);
    exact::lemma_swap_first(c.nx, p, a.x);
    exact::lemma_swap_first(c.nx, q, b.x);
    exact::lemma_swap_first(c.ny, p, a.y);
    exact::lemma_swap_first(c.ny, q, b.y);
}

spec fn twice(t: Triple) -> Triple {
    let two = 2 as real;
    Triple { x: two * t.x, y: two * t.y, z: two * t.z }
}

/// A row of a Jacobian and how it moves, in numbers.
struct Rows {
    j: Triple,
    by_x: Triple,
    by_y: Triple,
    by_z: Triple,
}

/// The gradients that weigh an image and its covariance, in numbers.
struct Weights {
    x: real,
    y: real,
    xx: real,
    xy: real,
    yy: real,
}

/// What reaches the rows of a Jacobian, in numbers.
spec fn reached(c: Clamp, u: Rows, w: Rows, v: Weights, m: Sym) -> (Triple, Triple) {
    let (eu, ew) = (through(c, u.j), through(c, w.j));
    (
        back(c, twice(times(m, mix(v.xx, eu, v.xy, ew)))),
        back(c, twice(times(m, mix(v.xy, eu, v.yy, ew)))),
    )
}

/// The gradient of a point that is held, in numbers.
spec fn clamped_gradient(c: Clamp, u: Rows, w: Rows, v: Weights, s: (Triple, Triple)) -> Triple {
    let (eu, ew) = (through(c, u.j), through(c, w.j));
    let cx = contracted(s.0, u.by_x, s.1, w.by_x);
    let cy = contracted(s.0, u.by_y, s.1, w.by_y);
    let cz = contracted(s.0, u.by_z, s.1, w.by_z);
    Triple {
        x: (eu.x * v.x + ew.x * v.y) + if c.in_x {
            cx
        } else {
            0 as real
        },
        y: (eu.y * v.x + ew.y * v.y) + if c.in_y {
            cy
        } else {
            0 as real
        },
        z: (eu.z * v.x + ew.z * v.y) + cz + (if c.in_x {
            0 as real
        } else {
            c.nx * cx
        }) + (if c.in_y {
            0 as real
        } else {
            c.ny * cy
        }),
    }
}

/// What reaches the rows of a held point's Jacobian comes through the held
/// covariance.
proof fn lemma_held_reached(c: Clamp, free: Clamp, u: Rows, w: Rows, v: Weights, m: Sym)
    requires
        free.in_x,
        free.in_y,
    ensures
        reached(c, u, w, v, m) == reached(free, u, w, v, held_sym(c, m)),
{
    let (a, b) = (mix(v.xx, u.j, v.xy, w.j), mix(v.xy, u.j, v.yy, w.j));
    lemma_held_mix(c, v.xx, u.j, v.xy, w.j);
    lemma_held_mix(c, v.xy, u.j, v.yy, w.j);
    lemma_held_times(c, m, a);
    lemma_held_times(c, m, b);
    let (e, f) = (times(m, through(c, a)), times(m, through(c, b)));
    exact::lemma_swap_first(c.nx, 2 as real, e.z);
    exact::lemma_swap_first(c.ny, 2 as real, e.z);
    exact::lemma_swap_first(c.nx, 2 as real, f.z);
    exact::lemma_swap_first(c.ny, 2 as real, f.z);
    assert(back(c, twice(e)) == twice(back(c, e)));
    assert(back(c, twice(f)) == twice(back(c, f)));
    assert(through(free, u.j) == u.j && through(free, w.j) == w.j);
}

/// The gradient of a held point, from that of the point that it is held at.
proof fn lemma_passed_on(c: Clamp, free: Clamp, u: Rows, w: Rows, v: Weights, s: (Triple, Triple))
    requires
        free.in_x,
        free.in_y,
    ensures
        clamped_gradient(c, u, w, v, s) == through(c, clamped_gradient(free, u, w, v, s)),
{
    let zero = 0 as real;
    let g = clamped_gradient(free, u, w, v, s);
    assert(through(free, u.j) == u.j && through(free, w.j) == w.j);
    let cx = contracted(s.0, u.by_x, s.1, w.by_x);
    let cy = contracted(s.0, u.by_y, s.1, w.by_y);
    exact::lemma_times_zero(zero, v.x);
    exact::lemma_times_zero(zero, v.y);
    let (ux, uy) = (
        if c.in_x {
            zero
        } else {
            c.nx * u.j.x
        },
        if c.in_y {
            zero
        } else {
            c.ny * u.j.y
        },
    );
    let (wx, wy) = (
        if c.in_x {
            zero
        } else {
            c.nx * w.j.x
        },
        if c.in_y {
            zero
        } else {
            c.ny * w.j.y
        },
    );
    distortion_slope::lemma_sum_of_three(ux, uy, u.j.z, v.x);
    distortion_slope::lemma_sum_of_three(wx, wy, w.j.z, v.y);
    exact::lemma_in_front(c.nx, u.j.x * v.x + w.j.x * v.y, cx);
    exact::lemma_in_front(c.ny, u.j.y * v.x + w.j.y * v.y, cy);
    exact::lemma_in_front_of_two(c.nx, u.j.x, v.x, w.j.x, v.y);
    exact::lemma_in_front_of_two(c.ny, u.j.y, v.x, w.j.y, v.y);
}

spec fn clamp_of<S: Geometric>(value: spec_fn(S) -> real, at: HeldPoint<S>) -> Clamp {
    Clamp {
        in_x: at.in_x,
        in_y: at.in_y,
        nx: exact::of(value, at.nx),
        ny: exact::of(value, at.ny),
    }
}

spec fn rows_of<S: Geometric>(value: spec_fn(S) -> real, row: JacobianRow<S>) -> Rows {
    Rows {
        j: value3(value, row.j),
        by_x: value3(value, row.by_x),
        by_y: value3(value, row.by_y),
        by_z: value3(value, row.by_z),
    }
}

spec fn weights_of<S: Geometric>(value: spec_fn(S) -> real, v: ImageGradient<S>) -> Weights {
    Weights {
        x: exact::of(value, v.v_mean2d.x),
        y: exact::of(value, v.v_mean2d.y),
        xx: exact::of(value, v.v_cov2d.xx),
        xy: exact::of(value, v.v_cov2d.xy),
        yy: exact::of(value, v.v_cov2d.yy),
    }
}

/// The rows of the rational model's Jacobian at a held point.
spec fn rows_at<S: Geometric>(
    at: HeldPoint<S>,
    pinhole: PinholeParams<S>,
    params: RadialTangential8Params<S>,
) -> (JacobianRow<S>, JacobianRow<S>) {
    let d = projection::distortion(at.xc * at.inv_z, at.yc * at.inv_z, params);
    (
        projection::jacobian_row(
            pinhole.fx,
            d.d00,
            d.d01,
            d.d00_dx,
            d.d00_dy,
            d.d01_dx,
            d.d01_dy,
            at,
        ),
        projection::jacobian_row(
            pinhole.fy,
            d.d01,
            d.d11,
            d.d01_dx,
            d.d01_dy,
            d.d11_dx,
            d.d11_dy,
            at,
        ),
    )
}

/// What reaches the rows at a held point, in numbers.
proof fn lemma_reached<S: Geometric>(
    value: spec_fn(S) -> real,
    at: HeldPoint<S>,
    eu: Vec3<S>,
    ew: Vec3<S>,
    cov: Sym3<S>,
    v: ImageGradient<S>,
)
    requires
        exact::is_exact(value),
    ensures
        ({
            let held = Mat2x3 {
                c0: Vec2 { x: eu.x, y: ew.x },
                c1: Vec2 { x: eu.y, y: ew.y },
                c2: Vec2 { x: eu.z, y: ew.z },
            };
            let tmp = projection::sym_times_mat(v.v_cov2d, held);
            let c = clamp_of(value, at);
            let t = weights_of(value, v);
            let m = sym_of(value, cov);
            let (a, b) = (value3(value, eu), value3(value, ew));
            &&& value3(
                value,
                projection::back_through_clamp(
                    projection::twice_times(projection::row0(tmp), cov),
                    at,
                ),
            ) == back(c, twice(times(m, mix(t.xx, a, t.xy, b))))
            &&& value3(
                value,
                projection::back_through_clamp(
                    projection::twice_times(projection::row1(tmp), cov),
                    at,
                ),
            ) == back(c, twice(times(m, mix(t.xy, a, t.yy, b))))
        }),
{
    reveal(projection::spec_sym_times_mat);
    reveal(projection::spec_twice_times);
    let held = Mat2x3 {
        c0: Vec2 { x: eu.x, y: ew.x },
        c1: Vec2 { x: eu.y, y: ew.y },
        c2: Vec2 { x: eu.z, y: ew.z },
    };
    let tmp = projection::sym_times_mat(v.v_cov2d, held);
    let t = weights_of(value, v);
    let m = sym_of(value, cov);
    let (a, b) = (value3(value, eu), value3(value, ew));
    assert(value3(value, projection::row0(tmp)) == mix(t.xx, a, t.xy, b));
    assert(value3(value, projection::row1(tmp)) == mix(t.xy, a, t.yy, b));
    assert(value3(value, projection::twice_times(projection::row0(tmp), cov)) == twice(
        times(m, mix(t.xx, a, t.xy, b)),
    ));
    assert(value3(value, projection::twice_times(projection::row1(tmp), cov)) == twice(
        times(m, mix(t.xy, a, t.yy, b)),
    ));
}

/// The gradient through the rational model, in numbers.
proof fn lemma_clamped_gradient<S: Geometric>(
    value: spec_fn(S) -> real,
    point: Vec3<S>,
    cov: Sym3<S>,
    limits: JacobianClampLimits<S>,
    pinhole: PinholeParams<S>,
    v: ImageGradient<S>,
    params: RadialTangential8Params<S>,
)
    requires
        exact::is_exact(value),
    ensures
        ({
            let at = projection::held_point(point, limits);
            let c = clamp_of(value, at);
            let rows = rows_at(at, pinhole, params);
            let (u, w) = (rows_of(value, rows.0), rows_of(value, rows.1));
            let t = weights_of(value, v);
            value3(
                value,
                projection::calculate_projection_vjp_rt8(point, cov, limits, pinhole, v, params),
            ) == clamped_gradient(c, u, w, t, reached(c, u, w, t, sym_of(value, cov)))
        }),
{
    reveal(projection::spec_calculate_projection_vjp_rt8);
    reveal(projection::spec_contraction);
    let at = projection::held_point(point, limits);
    let c = clamp_of(value, at);
    let rows = rows_at(at, pinhole, params);
    let (eu, ew) = (
        projection::through_clamp(rows.0.j, at),
        projection::through_clamp(rows.1.j, at),
    );
    assert(value3(value, eu) == through(c, value3(value, rows.0.j)));
    assert(value3(value, ew) == through(c, value3(value, rows.1.j)));
    lemma_reached(value, at, eu, ew, cov, v);
}

/// Rows depend on the numbers that they are made of.
proof fn lemma_same_rows<S: Geometric>(
    value: spec_fn(S) -> real,
    f: Num<S>,
    d: (Num<S>, Num<S>, Num<S>, Num<S>, Num<S>, Num<S>),
    e: (Num<S>, Num<S>, Num<S>, Num<S>, Num<S>, Num<S>),
    at: HeldPoint<S>,
    to: HeldPoint<S>,
)
    requires
        exact::is_exact(value),
        exact::of(value, d.0) == exact::of(value, e.0),
        exact::of(value, d.1) == exact::of(value, e.1),
        exact::of(value, d.2) == exact::of(value, e.2),
        exact::of(value, d.3) == exact::of(value, e.3),
        exact::of(value, d.4) == exact::of(value, e.4),
        exact::of(value, d.5) == exact::of(value, e.5),
        exact::of(value, at.inv_z) == exact::of(value, to.inv_z),
        exact::of(value, at.xc) == exact::of(value, to.xc),
        exact::of(value, at.yc) == exact::of(value, to.yc),
    ensures
        rows_of(value, projection::jacobian_row(f, d.0, d.1, d.2, d.3, d.4, d.5, at)) == rows_of(
            value,
            projection::jacobian_row(f, e.0, e.1, e.2, e.3, e.4, e.5, to),
        ),
{
    reveal(projection::spec_jacobian_row);
}

/// Which normalized coordinates of a point lie within the limits, the limits
/// included, and where they are held.
spec fn clamp_at<S: Geometric>(
    value: spec_fn(S) -> real,
    point: Vec3<S>,
    limits: JacobianClampLimits<S>,
) -> Clamp {
    let i = (1 as real) / exact::of(value, point.z);
    let (x, y) = (exact::of(value, point.x) * i, exact::of(value, point.y) * i);
    let (x0, x1) = (exact::of(value, limits.lim_neg_x), exact::of(value, limits.lim_pos_x));
    let (y0, y1) = (exact::of(value, limits.lim_neg_y), exact::of(value, limits.lim_pos_y));
    Clamp {
        in_x: x0 <= x <= x1,
        in_y: y0 <= y <= y1,
        nx: exact::held_real(x, x0, x1),
        ny: exact::held_real(y, y0, y1),
    }
}

/// The held point, in numbers.
proof fn lemma_clamp_at<S: Geometric>(
    value: spec_fn(S) -> real,
    point: Vec3<S>,
    limits: JacobianClampLimits<S>,
)
    requires
        exact::is_exact(value),
        exact::chooses(value),
        are_ordered(value, limits),
        exact::of(value, point.z) != 0 as real,
    ensures
        ({
            let at = projection::held_point(point, limits);
            let z = exact::of(value, point.z);
            let c = clamp_at(value, point, limits);
            &&& clamp_of(value, at) == c
            &&& exact::of(value, at.inv_z) == (1 as real) / z
            &&& exact::of(value, at.xc) == c.nx * z
            &&& exact::of(value, at.yc) == c.ny * z
        }),
{
    reveal(projection::spec_held_point);
}

/// `carried` is the covariance `cov` of a point, carried to where the point is
/// held: a coordinate beyond its limits moves there with the depth, by the
/// normalized coordinate of the limit.
pub open spec fn is_held_covariance<S: Geometric>(
    value: spec_fn(S) -> real,
    point: Vec3<S>,
    limits: JacobianClampLimits<S>,
    cov: Sym3<S>,
    carried: Sym3<S>,
) -> bool {
    let i = (1 as real) / exact::of(value, point.z);
    let (x, y) = (exact::of(value, point.x) * i, exact::of(value, point.y) * i);
    let (x0, x1) = (exact::of(value, limits.lim_neg_x), exact::of(value, limits.lim_pos_x));
    let (y0, y1) = (exact::of(value, limits.lim_neg_y), exact::of(value, limits.lim_pos_y));
    let (nx, ny) = (exact::held_real(x, x0, x1), exact::held_real(y, y0, y1));
    let beyond_x = x < x0 || x > x1;
    let beyond_y = y < y0 || y > y1;
    let (xz, yz) = (exact::of(value, carried.xz), exact::of(value, carried.yz));
    let zz = exact::of(value, carried.zz);
    &&& zz == exact::of(value, cov.zz)
    &&& if beyond_x {
        xz == nx * zz && exact::of(value, carried.xx) == nx * xz
    } else {
        xz == exact::of(value, cov.xz) && exact::of(value, carried.xx) == exact::of(value, cov.xx)
    }
    &&& if beyond_y {
        yz == ny * zz && exact::of(value, carried.yy) == ny * yz
    } else {
        yz == exact::of(value, cov.yz) && exact::of(value, carried.yy) == exact::of(value, cov.yy)
    }
    &&& beyond_x ==> exact::of(value, carried.xy) == nx * yz
    &&& beyond_y ==> exact::of(value, carried.xy) == ny * xz
    &&& !beyond_x && !beyond_y ==> exact::of(value, carried.xy) == exact::of(value, cov.xy)
}

/// The gradient of a point beyond the limits of the rational model comes from
/// that of the point where it is held, which is a slope: a coordinate beyond its
/// limits has no gradient, and what the held coordinate has goes to the depth, by
/// the normalized coordinate of the limit.
pub proof fn held_rational_gradient_passes_to_the_depth<S: Geometric>(
    value: spec_fn(S) -> real,
    point: Vec3<S>,
    cov: Sym3<S>,
    limits: JacobianClampLimits<S>,
    held: Vec3<S>,
    carried: Sym3<S>,
    wider: JacobianClampLimits<S>,
    pinhole: PinholeParams<S>,
    v: ImageGradient<S>,
    params: RadialTangential8Params<S>,
)
    requires
        exact::is_exact(value),
        exact::chooses(value),
        are_ordered(value, limits),
        is_moved_within(value, point, limits, held),
        is_held_covariance(value, point, limits, cov, carried),
        projection::is_unheld(value, held, wider),
        ({
            let i = (1 as real) / exact::of(value, held.z);
            distortion_slope::divisor(
                value,
                exact::of(value, held.x) * i,
                exact::of(value, held.y) * i,
                params,
            ) != 0 as real
        }),
    ensures
        ({
            let g = value3(
                value,
                projection::calculate_projection_vjp_rt8(point, cov, limits, pinhole, v, params),
            );
            let h = value3(
                value,
                projection::calculate_projection_vjp_rt8(held, carried, wider, pinhole, v, params),
            );
            let i = (1 as real) / exact::of(value, point.z);
            let (x, y) = (exact::of(value, point.x) * i, exact::of(value, point.y) * i);
            let (x0, x1) = (exact::of(value, limits.lim_neg_x), exact::of(value, limits.lim_pos_x));
            let (y0, y1) = (exact::of(value, limits.lim_neg_y), exact::of(value, limits.lim_pos_y));
            let beyond_x = x < x0 || x > x1;
            let beyond_y = y < y0 || y > y1;
            let from_x = if beyond_x {
                exact::held_real(x, x0, x1) * h.x
            } else {
                0 as real
            };
            let from_y = if beyond_y {
                exact::held_real(y, y0, y1) * h.y
            } else {
                0 as real
            };
            &&& g.x == if beyond_x {
                0 as real
            } else {
                h.x
            }
            &&& g.y == if beyond_y {
                0 as real
            } else {
                h.y
            }
            &&& g.z == h.z + from_x + from_y
        }),
{
    let (at, to) = (projection::held_point(point, limits), projection::held_point(held, wider));
    let z = exact::of(value, point.z);
    let c = clamp_at(value, point, limits);
    let free = clamp_at(value, held, wider);
    lemma_clamp_at(value, point, limits);
    lemma_clamp_at(value, held, wider);
    lemma_lowered(c.nx, z);
    lemma_lowered(c.ny, z);
    assert(free == (Clamp { in_x: true, in_y: true, nx: c.nx, ny: c.ny }));
    // The rows of the Jacobian are the same.
    let a = distortion_slope::lens_at(value, params, c.nx, c.ny, 0 as real, 0 as real);
    distortion_slope::lemma_distortion_values(value, at.xc * at.inv_z, at.yc * at.inv_z, params, a);
    distortion_slope::lemma_distortion_values(value, to.xc * to.inv_z, to.yc * to.inv_z, params, a);
    let d = projection::distortion(at.xc * at.inv_z, at.yc * at.inv_z, params);
    let e = projection::distortion(to.xc * to.inv_z, to.yc * to.inv_z, params);
    lemma_same_rows(
        value,
        pinhole.fx,
        (d.d00, d.d01, d.d00_dx, d.d00_dy, d.d01_dx, d.d01_dy),
        (e.d00, e.d01, e.d00_dx, e.d00_dy, e.d01_dx, e.d01_dy),
        at,
        to,
    );
    lemma_same_rows(
        value,
        pinhole.fy,
        (d.d01, d.d11, d.d01_dx, d.d01_dy, d.d11_dx, d.d11_dy),
        (e.d01, e.d11, e.d01_dx, e.d01_dy, e.d11_dx, e.d11_dy),
        at,
        to,
    );
    let rows = rows_at(at, pinhole, params);
    let (u, w) = (rows_of(value, rows.0), rows_of(value, rows.1));
    // The covariance is the held one.
    let (m, k) = (sym_of(value, cov), sym_of(value, carried));
    exact::lemma_swap_first(c.nx, c.ny, m.zz);
    assert(k == held_sym(c, m));
    // The gradients.
    let t = weights_of(value, v);
    lemma_clamped_gradient(value, point, cov, limits, pinhole, v, params);
    lemma_clamped_gradient(value, held, carried, wider, pinhole, v, params);
    lemma_held_reached(c, free, u, w, t, m);
    lemma_passed_on(c, free, u, w, t, reached(c, u, w, t, m));
}

} // verus!
