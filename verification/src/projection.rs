//! Projection of points through a lens: image coordinates, the Jacobian of the
//! projection, and the gradient of a point from those of its image and of its
//! covariance in the image.
use vstd::prelude::*;

use crate::camera::{JacobianClampLimits, PinholeParams, RadialTangential8Params};
use crate::exact;
use crate::num::{deterministic, lit, zero, Geometric, Num, Vec2, Vec3};

verus! {

/// A matrix of two rows and three columns, by columns.
#[derive(Clone, Copy, Debug)]
pub struct Mat2x3<S> {
    pub c0: Vec2<S>,
    pub c1: Vec2<S>,
    pub c2: Vec2<S>,
}

/// A symmetric matrix of two rows.
#[derive(Clone, Copy, Debug)]
pub struct Sym2<S> {
    pub xx: Num<S>,
    pub xy: Num<S>,
    pub yy: Num<S>,
}

/// A symmetric matrix of three rows.
#[derive(Clone, Copy, Debug)]
pub struct Sym3<S> {
    pub xx: Num<S>,
    pub xy: Num<S>,
    pub xz: Num<S>,
    pub yy: Num<S>,
    pub yz: Num<S>,
    pub zz: Num<S>,
}

pub open spec fn spec_row0<S: Geometric>(m: Mat2x3<S>) -> Vec3<S> {
    Vec3 { x: m.c0.x, y: m.c1.x, z: m.c2.x }
}

/// The first row of a matrix.
#[verifier::when_used_as_spec(spec_row0)]
pub fn row0<S: Geometric>(m: Mat2x3<S>) -> (out: Vec3<S>)
    ensures
        deterministic::<S>() ==> out == row0::<S>(m),
{
    Vec3 { x: m.c0.x, y: m.c1.x, z: m.c2.x }
}

pub open spec fn spec_row1<S: Geometric>(m: Mat2x3<S>) -> Vec3<S> {
    Vec3 { x: m.c0.y, y: m.c1.y, z: m.c2.y }
}

/// The second row of a matrix.
#[verifier::when_used_as_spec(spec_row1)]
pub fn row1<S: Geometric>(m: Mat2x3<S>) -> (out: Vec3<S>)
    ensures
        deterministic::<S>() ==> out == row1::<S>(m),
{
    Vec3 { x: m.c0.y, y: m.c1.y, z: m.c2.y }
}

pub open spec fn spec_sym_times<S: Geometric>(a: Sym2<S>, v: Vec2<S>) -> Vec2<S> {
    Vec2 { x: a.xx * v.x + a.xy * v.y, y: a.xy * v.x + a.yy * v.y }
}

/// A symmetric matrix times a vector.
#[verifier::when_used_as_spec(spec_sym_times)]
pub fn sym_times<S: Geometric>(a: Sym2<S>, v: Vec2<S>) -> (out: Vec2<S>)
    ensures
        deterministic::<S>() ==> out == sym_times::<S>(a, v),
{
    Vec2 { x: a.xx * v.x + a.xy * v.y, y: a.xy * v.x + a.yy * v.y }
}

#[verifier::opaque]
pub open spec fn spec_sym_times_mat<S: Geometric>(a: Sym2<S>, m: Mat2x3<S>) -> Mat2x3<S> {
    Mat2x3 { c0: sym_times(a, m.c0), c1: sym_times(a, m.c1), c2: sym_times(a, m.c2) }
}

/// A symmetric matrix times a matrix.
#[verifier::when_used_as_spec(spec_sym_times_mat)]
pub fn sym_times_mat<S: Geometric>(a: Sym2<S>, m: Mat2x3<S>) -> (out: Mat2x3<S>)
    ensures
        deterministic::<S>() ==> out == sym_times_mat::<S>(a, m),
{
    proof {
        reveal(spec_sym_times_mat);
    }
    Mat2x3 { c0: sym_times(a, m.c0), c1: sym_times(a, m.c1), c2: sym_times(a, m.c2) }
}

pub open spec fn spec_sym_row0<S: Geometric>(a: Sym3<S>) -> Vec3<S> {
    Vec3 { x: a.xx, y: a.xy, z: a.xz }
}

/// The first row of a symmetric matrix.
#[verifier::when_used_as_spec(spec_sym_row0)]
pub fn sym_row0<S: Geometric>(a: Sym3<S>) -> (out: Vec3<S>)
    ensures
        deterministic::<S>() ==> out == sym_row0::<S>(a),
{
    Vec3 { x: a.xx, y: a.xy, z: a.xz }
}

pub open spec fn spec_sym_row1<S: Geometric>(a: Sym3<S>) -> Vec3<S> {
    Vec3 { x: a.xy, y: a.yy, z: a.yz }
}

/// The second row of a symmetric matrix.
#[verifier::when_used_as_spec(spec_sym_row1)]
pub fn sym_row1<S: Geometric>(a: Sym3<S>) -> (out: Vec3<S>)
    ensures
        deterministic::<S>() ==> out == sym_row1::<S>(a),
{
    Vec3 { x: a.xy, y: a.yy, z: a.yz }
}

pub open spec fn spec_sym_row2<S: Geometric>(a: Sym3<S>) -> Vec3<S> {
    Vec3 { x: a.xz, y: a.yz, z: a.zz }
}

/// The third row of a symmetric matrix.
#[verifier::when_used_as_spec(spec_sym_row2)]
pub fn sym_row2<S: Geometric>(a: Sym3<S>) -> (out: Vec3<S>)
    ensures
        deterministic::<S>() ==> out == sym_row2::<S>(a),
{
    Vec3 { x: a.xz, y: a.yz, z: a.zz }
}

pub open spec fn spec_project_pinhole<S: Geometric>(
    point: Vec3<S>,
    params: PinholeParams<S>,
) -> Vec2<S> {
    let inv_z = lit("1.0") / point.z;
    Vec2 {
        x: params.fx * point.x * inv_z + params.cx,
        y: params.fy * point.y * inv_z + params.cy,
    }
}

/// The image of a point through a pinhole.
#[verifier::when_used_as_spec(spec_project_pinhole)]
pub fn project_pinhole<S: Geometric>(point: Vec3<S>, params: PinholeParams<S>) -> (out: Vec2<S>)
    ensures
        deterministic::<S>() ==> out == project_pinhole(point, params),
{
    let inv_z = lit("1.0") / point.z;
    Vec2 {
        x: params.fx * point.x * inv_z + params.cx,
        y: params.fy * point.y * inv_z + params.cy,
    }
}

pub open spec fn spec_calculate_project_jacobian_pinhole<S: Geometric>(
    point: Vec3<S>,
    limits: JacobianClampLimits<S>,
    params: PinholeParams<S>,
) -> Mat2x3<S> {
    let inv_z = lit("1.0") / point.z;
    let dx = params.fx * inv_z;
    let dy = params.fy * inv_z;
    let clamped_x = (point.x * inv_z).held(limits.lim_neg_x, limits.lim_pos_x);
    let clamped_y = (point.y * inv_z).held(limits.lim_neg_y, limits.lim_pos_y);
    Mat2x3 {
        c0: Vec2 { x: dx, y: zero() },
        c1: Vec2 { x: zero(), y: dy },
        c2: Vec2 { x: dx.opposite() * clamped_x, y: dy.opposite() * clamped_y },
    }
}

/// The Jacobian of the pinhole projection, with the point held within limits.
#[verifier::when_used_as_spec(spec_calculate_project_jacobian_pinhole)]
pub fn calculate_project_jacobian_pinhole<S: Geometric>(
    point: Vec3<S>,
    limits: JacobianClampLimits<S>,
    params: PinholeParams<S>,
) -> (out: Mat2x3<S>)
    ensures
        deterministic::<S>() ==> out == calculate_project_jacobian_pinhole(point, limits, params),
{
    let inv_z = lit("1.0") / point.z;
    let dx = params.fx * inv_z;
    let dy = params.fy * inv_z;
    let clamped_x = (point.x * inv_z).held(limits.lim_neg_x, limits.lim_pos_x);
    let clamped_y = (point.y * inv_z).held(limits.lim_neg_y, limits.lim_pos_y);
    Mat2x3 {
        c0: Vec2 { x: dx, y: zero() },
        c1: Vec2 { x: zero(), y: dy },
        c2: Vec2 { x: dx.opposite() * clamped_x, y: dy.opposite() * clamped_y },
    }
}

pub open spec fn spec_within<S: Geometric>(low: Num<S>, v: Num<S>, high: Num<S>) -> bool {
    v.at_most(high) && low.at_most(v)
}

/// Whether a value lies between two others.
#[verifier::when_used_as_spec(spec_within)]
pub fn within<S: Geometric>(low: Num<S>, v: Num<S>, high: Num<S>) -> (out: bool)
    ensures
        deterministic::<S>() ==> out == within(low, v, high),
{
    v.at_most(high) && low.at_most(v)
}

/// The gradients of a point's image and of its covariance in the image.
#[derive(Clone, Copy, Debug)]
pub struct ImageGradient<S> {
    pub v_cov2d: Sym2<S>,
    pub v_mean2d: Vec2<S>,
}

#[verifier::opaque]
pub open spec fn spec_calculate_projection_vjp_pinhole<S: Geometric>(
    project_jacobian: Mat2x3<S>,
    mean_c: Vec3<S>,
    cov_c: Sym3<S>,
    limits: JacobianClampLimits<S>,
    params: PinholeParams<S>,
    v: ImageGradient<S>,
) -> Vec3<S> {
    let fx = params.fx;
    let fy = params.fy;
    let inv_z = lit("1.0") / mean_c.z;
    let mx_rz_raw = mean_c.x * inv_z;
    let my_rz_raw = mean_c.y * inv_z;
    let mx_rz = mx_rz_raw.held(limits.lim_neg_x, limits.lim_pos_x);
    let my_rz = my_rz_raw.held(limits.lim_neg_y, limits.lim_pos_y);
    let in_x = within(limits.lim_neg_x, mx_rz_raw, limits.lim_pos_x);
    let in_y = within(limits.lim_neg_y, my_rz_raw, limits.lim_pos_y);
    let inv_z2 = inv_z * inv_z;
    let inv_z3 = inv_z2 * inv_z;
    let image_x = fx * inv_z * v.v_mean2d.x;
    let image_y = fy * inv_z * v.v_mean2d.y;
    let image_z = (fx * mean_c.x * v.v_mean2d.x + fy * mean_c.y * v.v_mean2d.y).opposite() * inv_z2;
    let tmp = sym_times_mat(v.v_cov2d, project_jacobian);
    let vj00 = lit("2.0") * row0(tmp).dot(sym_row0(cov_c));
    let vj11 = lit("2.0") * row1(tmp).dot(sym_row1(cov_c));
    let vj20 = lit("2.0") * row0(tmp).dot(sym_row2(cov_c));
    let vj21 = lit("2.0") * row1(tmp).dot(sym_row2(cov_c));
    let tx = mean_c.z * mx_rz;
    let ty = mean_c.z * my_rz;
    let x = if in_x {
        image_x + fx.opposite() * inv_z2 * vj20
    } else {
        image_x
    };
    let z_of_x = if in_x {
        image_z
    } else {
        image_z + fx.opposite() * inv_z3 * vj20 * tx
    };
    let y = if in_y {
        image_y + fy.opposite() * inv_z2 * vj21
    } else {
        image_y
    };
    let z_of_y = if in_y {
        z_of_x
    } else {
        z_of_x + fy.opposite() * inv_z3 * vj21 * ty
    };
    let z = z_of_y + (fx.opposite() * inv_z2 * vj00 - fy * inv_z2 * vj11 + lit("2.0") * fx * tx
        * inv_z3 * vj20 + lit("2.0") * fy * ty * inv_z3 * vj21);
    Vec3 { x, y, z }
}

/// The gradient of a point from those of its image and of its covariance in the
/// image, through a pinhole.
#[verifier::when_used_as_spec(spec_calculate_projection_vjp_pinhole)]
pub fn calculate_projection_vjp_pinhole<S: Geometric>(
    project_jacobian: Mat2x3<S>,
    mean_c: Vec3<S>,
    cov_c: Sym3<S>,
    limits: JacobianClampLimits<S>,
    params: PinholeParams<S>,
    v: ImageGradient<S>,
) -> (out: Vec3<S>)
    ensures
        deterministic::<S>() ==> out == calculate_projection_vjp_pinhole(project_jacobian, mean_c, cov_c, limits, params, v),
{
    proof {
        reveal(spec_calculate_projection_vjp_pinhole);
    }
    let fx = params.fx;
    let fy = params.fy;
    let inv_z = lit("1.0") / mean_c.z;
    let mx_rz_raw = mean_c.x * inv_z;
    let my_rz_raw = mean_c.y * inv_z;
    let mx_rz = mx_rz_raw.held(limits.lim_neg_x, limits.lim_pos_x);
    let my_rz = my_rz_raw.held(limits.lim_neg_y, limits.lim_pos_y);
    let in_x = within(limits.lim_neg_x, mx_rz_raw, limits.lim_pos_x);
    let in_y = within(limits.lim_neg_y, my_rz_raw, limits.lim_pos_y);
    let inv_z2 = inv_z * inv_z;
    let inv_z3 = inv_z2 * inv_z;
    let image_x = fx * inv_z * v.v_mean2d.x;
    let image_y = fy * inv_z * v.v_mean2d.y;
    let image_z = (fx * mean_c.x * v.v_mean2d.x + fy * mean_c.y * v.v_mean2d.y).opposite() * inv_z2;
    let tmp = sym_times_mat(v.v_cov2d, project_jacobian);
    let vj00 = lit("2.0") * row0(tmp).dot(sym_row0(cov_c));
    let vj11 = lit("2.0") * row1(tmp).dot(sym_row1(cov_c));
    let vj20 = lit("2.0") * row0(tmp).dot(sym_row2(cov_c));
    let vj21 = lit("2.0") * row1(tmp).dot(sym_row2(cov_c));
    let tx = mean_c.z * mx_rz;
    let ty = mean_c.z * my_rz;
    let x = if in_x {
        image_x + fx.opposite() * inv_z2 * vj20
    } else {
        image_x
    };
    let z_of_x = if in_x {
        image_z
    } else {
        image_z + fx.opposite() * inv_z3 * vj20 * tx
    };
    let y = if in_y {
        image_y + fy.opposite() * inv_z2 * vj21
    } else {
        image_y
    };
    let z_of_y = if in_y {
        z_of_x
    } else {
        z_of_x + fy.opposite() * inv_z3 * vj21 * ty
    };
    let z = z_of_y + (fx.opposite() * inv_z2 * vj00 - fy * inv_z2 * vj11 + lit("2.0") * fx * tx
        * inv_z3 * vj20 + lit("2.0") * fy * ty * inv_z3 * vj21);
    Vec3 { x, y, z }
}

pub open spec fn spec_project_rt8<S: Geometric>(
    point: Vec3<S>,
    pinhole: PinholeParams<S>,
    params: RadialTangential8Params<S>,
) -> Vec2<S> {
    let PinholeParams { fx, fy, cx, cy } = pinhole;
    let RadialTangential8Params { k1, k2, k3, k4, k5, k6, p1, p2 } = params;
    let x_ = point.x / point.z;
    let y_ = point.y / point.z;
    let x_2 = x_ * x_;
    let y_2 = y_ * y_;
    let r2 = x_2 + y_2;
    let r4 = r2 * r2;
    let r6 = r4 * r2;
    let d = (lit("1.0") + k1 * r2 + k2 * r4 + k3 * r6) / (lit("1.0") + k4 * r2 + k5 * r4 + k6 * r6);
    let x_y_ = x_ * y_;
    let x__ = x_ * d + lit("2.0") * p1 * x_y_ + p2 * (r2 + lit("2.0") * x_2);
    let y__ = y_ * d + lit("2.0") * p2 * x_y_ + p1 * (r2 + lit("2.0") * y_2);
    Vec2 { x: fx * x__ + cx, y: fy * y__ + cy }
}

/// The image of a point through the rational model.
#[verifier::when_used_as_spec(spec_project_rt8)]
pub fn project_rt8<S: Geometric>(
    point: Vec3<S>,
    pinhole: PinholeParams<S>,
    params: RadialTangential8Params<S>,
) -> (out: Vec2<S>)
    ensures
        deterministic::<S>() ==> out == project_rt8(point, pinhole, params),
{
    let PinholeParams { fx, fy, cx, cy } = pinhole;
    let RadialTangential8Params { k1, k2, k3, k4, k5, k6, p1, p2 } = params;
    let x_ = point.x / point.z;
    let y_ = point.y / point.z;
    let x_2 = x_ * x_;
    let y_2 = y_ * y_;
    let r2 = x_2 + y_2;
    let r4 = r2 * r2;
    let r6 = r4 * r2;
    let d = (lit("1.0") + k1 * r2 + k2 * r4 + k3 * r6) / (lit("1.0") + k4 * r2 + k5 * r4 + k6 * r6);
    let x_y_ = x_ * y_;
    let x__ = x_ * d + lit("2.0") * p1 * x_y_ + p2 * (r2 + lit("2.0") * x_2);
    let y__ = y_ * d + lit("2.0") * p2 * x_y_ + p1 * (r2 + lit("2.0") * y_2);
    Vec2 { x: fx * x__ + cx, y: fy * y__ + cy }
}

pub open spec fn spec_calculate_project_jacobian_rt8<S: Geometric>(
    point: Vec3<S>,
    limits: JacobianClampLimits<S>,
    pinhole: PinholeParams<S>,
    params: RadialTangential8Params<S>,
) -> Mat2x3<S> {
    let PinholeParams { fx, fy, .. } = pinhole;
    let RadialTangential8Params { k1, k2, k3, k4, k5, k6, p1, p2 } = params;
    let inv_z = lit("1.0") / point.z;
    let inv_z2 = inv_z * inv_z;
    let x_n = (point.x * inv_z).held(limits.lim_neg_x, limits.lim_pos_x);
    let y_n = (point.y * inv_z).held(limits.lim_neg_y, limits.lim_pos_y);
    let xc = x_n * point.z;
    let yc = y_n * point.z;
    let r2 = x_n * x_n + y_n * y_n;
    let r4 = r2 * r2;
    let r6 = r4 * r2;
    let n_poly = lit("1.0") + k1 * r2 + k2 * r4 + k3 * r6;
    let dn_poly = lit("1.0") + k4 * r2 + k5 * r4 + k6 * r6;
    let np_poly = k1 + lit("2.0") * k2 * r2 + lit("3.0") * k3 * r4;
    let dnp_poly = k4 + lit("2.0") * k5 * r2 + lit("3.0") * k6 * r4;
    let inv_dn = lit("1.0") / dn_poly;
    let inv_dn2 = inv_dn * inv_dn;
    let r_val = n_poly * inv_dn;
    let rp_val = (np_poly * dn_poly - n_poly * dnp_poly) * inv_dn2;
    let d00 = r_val + lit("2.0") * x_n * x_n * rp_val + lit("2.0") * p1 * y_n + lit("6.0") * p2
        * x_n;
    let d01 = lit("2.0") * x_n * y_n * rp_val + lit("2.0") * p1 * x_n + lit("2.0") * p2 * y_n;
    let d10 = d01;
    let d11 = r_val + lit("2.0") * y_n * y_n * rp_val + lit("6.0") * p1 * y_n + lit("2.0") * p2
        * x_n;
    let du_dx = fx * d00 * inv_z;
    let du_dy = fx * d01 * inv_z;
    let du_dz = fx.opposite() * (d00 * xc + d01 * yc) * inv_z2;
    let dv_dx = fy * d10 * inv_z;
    let dv_dy = fy * d11 * inv_z;
    let dv_dz = fy.opposite() * (d10 * xc + d11 * yc) * inv_z2;
    Mat2x3 {
        c0: Vec2 { x: du_dx, y: dv_dx },
        c1: Vec2 { x: du_dy, y: dv_dy },
        c2: Vec2 { x: du_dz, y: dv_dz },
    }
}

/// The Jacobian of the projection through the rational model, with the point
/// held within limits.
#[verifier::when_used_as_spec(spec_calculate_project_jacobian_rt8)]
pub fn calculate_project_jacobian_rt8<S: Geometric>(
    point: Vec3<S>,
    limits: JacobianClampLimits<S>,
    pinhole: PinholeParams<S>,
    params: RadialTangential8Params<S>,
) -> (out: Mat2x3<S>)
    ensures
        deterministic::<S>() ==> out == calculate_project_jacobian_rt8(point, limits, pinhole, params),
{
    let PinholeParams { fx, fy, .. } = pinhole;
    let RadialTangential8Params { k1, k2, k3, k4, k5, k6, p1, p2 } = params;
    let inv_z = lit("1.0") / point.z;
    let inv_z2 = inv_z * inv_z;
    let x_n = (point.x * inv_z).held(limits.lim_neg_x, limits.lim_pos_x);
    let y_n = (point.y * inv_z).held(limits.lim_neg_y, limits.lim_pos_y);
    let xc = x_n * point.z;
    let yc = y_n * point.z;
    let r2 = x_n * x_n + y_n * y_n;
    let r4 = r2 * r2;
    let r6 = r4 * r2;
    let n_poly = lit("1.0") + k1 * r2 + k2 * r4 + k3 * r6;
    let dn_poly = lit("1.0") + k4 * r2 + k5 * r4 + k6 * r6;
    let np_poly = k1 + lit("2.0") * k2 * r2 + lit("3.0") * k3 * r4;
    let dnp_poly = k4 + lit("2.0") * k5 * r2 + lit("3.0") * k6 * r4;
    let inv_dn = lit("1.0") / dn_poly;
    let inv_dn2 = inv_dn * inv_dn;
    let r_val = n_poly * inv_dn;
    let rp_val = (np_poly * dn_poly - n_poly * dnp_poly) * inv_dn2;
    let d00 = r_val + lit("2.0") * x_n * x_n * rp_val + lit("2.0") * p1 * y_n + lit("6.0") * p2
        * x_n;
    let d01 = lit("2.0") * x_n * y_n * rp_val + lit("2.0") * p1 * x_n + lit("2.0") * p2 * y_n;
    let d10 = d01;
    let d11 = r_val + lit("2.0") * y_n * y_n * rp_val + lit("6.0") * p1 * y_n + lit("2.0") * p2
        * x_n;
    let du_dx = fx * d00 * inv_z;
    let du_dy = fx * d01 * inv_z;
    let du_dz = fx.opposite() * (d00 * xc + d01 * yc) * inv_z2;
    let dv_dx = fy * d10 * inv_z;
    let dv_dy = fy * d11 * inv_z;
    let dv_dz = fy.opposite() * (d10 * xc + d11 * yc) * inv_z2;
    Mat2x3 {
        c0: Vec2 { x: du_dx, y: dv_dx },
        c1: Vec2 { x: du_dy, y: dv_dy },
        c2: Vec2 { x: du_dz, y: dv_dz },
    }
}

/// A point held within limits, in normalized coordinates.
#[derive(Clone, Copy, Debug)]
pub struct HeldPoint<S> {
    /// The normalized coordinates, held.
    pub nx: Num<S>,
    pub ny: Num<S>,
    /// Whether they were within the limits.
    pub in_x: bool,
    pub in_y: bool,
    /// The held point.
    pub xc: Num<S>,
    pub yc: Num<S>,
    pub inv_z: Num<S>,
}

#[verifier::opaque]
pub open spec fn spec_held_point<S: Geometric>(
    point: Vec3<S>,
    limits: JacobianClampLimits<S>,
) -> HeldPoint<S> {
    let inv_z = lit("1.0") / point.z;
    let raw_x = point.x * inv_z;
    let raw_y = point.y * inv_z;
    let nx = raw_x.held(limits.lim_neg_x, limits.lim_pos_x);
    let ny = raw_y.held(limits.lim_neg_y, limits.lim_pos_y);
    HeldPoint {
        nx,
        ny,
        in_x: within(limits.lim_neg_x, raw_x, limits.lim_pos_x),
        in_y: within(limits.lim_neg_y, raw_y, limits.lim_pos_y),
        xc: nx * point.z,
        yc: ny * point.z,
        inv_z,
    }
}

/// A point, held within limits.
#[verifier::when_used_as_spec(spec_held_point)]
pub fn held_point<S: Geometric>(
    point: Vec3<S>,
    limits: JacobianClampLimits<S>,
) -> (out: HeldPoint<S>)
    ensures
        deterministic::<S>() ==> out == held_point(point, limits),
{
    proof {
        reveal(spec_held_point);
    }
    let inv_z = lit("1.0") / point.z;
    let raw_x = point.x * inv_z;
    let raw_y = point.y * inv_z;
    let nx = raw_x.held(limits.lim_neg_x, limits.lim_pos_x);
    let ny = raw_y.held(limits.lim_neg_y, limits.lim_pos_y);
    HeldPoint {
        nx,
        ny,
        in_x: within(limits.lim_neg_x, raw_x, limits.lim_pos_x),
        in_y: within(limits.lim_neg_y, raw_y, limits.lim_pos_y),
        xc: nx * point.z,
        yc: ny * point.z,
        inv_z,
    }
}

/// The derivatives of the rational model's distortion at a normalized point:
/// the entries of its Jacobian and their derivatives by `x` and `y`. The
/// Jacobian is symmetric.
#[derive(Clone, Copy, Debug)]
pub struct Distortion<S> {
    pub d00: Num<S>,
    pub d01: Num<S>,
    pub d11: Num<S>,
    pub d00_dx: Num<S>,
    pub d00_dy: Num<S>,
    pub d01_dx: Num<S>,
    pub d01_dy: Num<S>,
    pub d11_dx: Num<S>,
    pub d11_dy: Num<S>,
}

#[verifier::opaque]
pub open spec fn spec_distortion<S: Geometric>(
    x: Num<S>,
    y: Num<S>,
    params: RadialTangential8Params<S>,
) -> Distortion<S> {
    let RadialTangential8Params { k1, k2, k3, k4, k5, k6, p1, p2 } = params;
    let r2 = x * x + y * y;
    let r4 = r2 * r2;
    let n_poly = lit("1.0") + k1 * r2 + k2 * r4 + k3 * r2 * r4;
    let dn_poly = lit("1.0") + k4 * r2 + k5 * r4 + k6 * r2 * r4;
    let np_poly = k1 + lit("2.0") * k2 * r2 + lit("3.0") * k3 * r4;
    let dnp_poly = k4 + lit("2.0") * k5 * r2 + lit("3.0") * k6 * r4;
    let npp_poly = lit("2.0") * k2 + lit("6.0") * k3 * r2;
    let dnpp_poly = lit("2.0") * k5 + lit("6.0") * k6 * r2;
    let inv_dn = lit("1.0") / dn_poly;
    let inv_dn2 = inv_dn * inv_dn;
    let inv_dn3 = inv_dn2 * inv_dn;
    let rr = n_poly * inv_dn;
    let rrp = (np_poly * dn_poly - n_poly * dnp_poly) * inv_dn2;
    let rrpp = (npp_poly * dn_poly * dn_poly - lit("2.0") * np_poly * dn_poly * dnp_poly
        - n_poly * dnpp_poly * dn_poly + lit("2.0") * n_poly * dnp_poly * dnp_poly) * inv_dn3;
    let rx = lit("2.0") * x * rrp;
    let ry = lit("2.0") * y * rrp;
    let rpx = lit("2.0") * x * rrpp;
    let rpy = lit("2.0") * y * rrpp;
    let d00 = rr + lit("2.0") * x * x * rrp + lit("2.0") * p1 * y + lit("6.0") * p2 * x;
    let d01 = lit("2.0") * x * y * rrp + lit("2.0") * p1 * x + lit("2.0") * p2 * y;
    let d11 = rr + lit("2.0") * y * y * rrp + lit("6.0") * p1 * y + lit("2.0") * p2 * x;
    let dd00_dx = rx + lit("4.0") * x * rrp + lit("2.0") * x * x * rpx + lit("6.0") * p2;
    let dd00_dy = ry + lit("2.0") * x * x * rpy + lit("2.0") * p1;
    let dd01_dx = lit("2.0") * y * rrp + lit("2.0") * x * y * rpx + lit("2.0") * p1;
    let dd01_dy = lit("2.0") * x * rrp + lit("2.0") * x * y * rpy + lit("2.0") * p2;
    let dd11_dx = rx + lit("2.0") * y * y * rpx + lit("2.0") * p2;
    let dd11_dy = ry + lit("4.0") * y * rrp + lit("2.0") * y * y * rpy + lit("6.0") * p1;
    Distortion {
        d00,
        d01,
        d11,
        d00_dx: dd00_dx,
        d00_dy: dd00_dy,
        d01_dx: dd01_dx,
        d01_dy: dd01_dy,
        d11_dx: dd11_dx,
        d11_dy: dd11_dy,
    }
}

/// The derivatives of the rational model's distortion.
#[verifier::when_used_as_spec(spec_distortion)]
pub fn distortion<S: Geometric>(
    x: Num<S>,
    y: Num<S>,
    params: RadialTangential8Params<S>,
) -> (out: Distortion<S>)
    ensures
        deterministic::<S>() ==> out == distortion(x, y, params),
{
    proof {
        reveal(spec_distortion);
    }
    let RadialTangential8Params { k1, k2, k3, k4, k5, k6, p1, p2 } = params;
    let r2 = x * x + y * y;
    let r4 = r2 * r2;
    let n_poly = lit("1.0") + k1 * r2 + k2 * r4 + k3 * r2 * r4;
    let dn_poly = lit("1.0") + k4 * r2 + k5 * r4 + k6 * r2 * r4;
    let np_poly = k1 + lit("2.0") * k2 * r2 + lit("3.0") * k3 * r4;
    let dnp_poly = k4 + lit("2.0") * k5 * r2 + lit("3.0") * k6 * r4;
    let npp_poly = lit("2.0") * k2 + lit("6.0") * k3 * r2;
    let dnpp_poly = lit("2.0") * k5 + lit("6.0") * k6 * r2;
    let inv_dn = lit("1.0") / dn_poly;
    let inv_dn2 = inv_dn * inv_dn;
    let inv_dn3 = inv_dn2 * inv_dn;
    let rr = n_poly * inv_dn;
    let rrp = (np_poly * dn_poly - n_poly * dnp_poly) * inv_dn2;
    let rrpp = (npp_poly * dn_poly * dn_poly - lit("2.0") * np_poly * dn_poly * dnp_poly
        - n_poly * dnpp_poly * dn_poly + lit("2.0") * n_poly * dnp_poly * dnp_poly) * inv_dn3;
    let rx = lit("2.0") * x * rrp;
    let ry = lit("2.0") * y * rrp;
    let rpx = lit("2.0") * x * rrpp;
    let rpy = lit("2.0") * y * rrpp;
    let d00 = rr + lit("2.0") * x * x * rrp + lit("2.0") * p1 * y + lit("6.0") * p2 * x;
    let d01 = lit("2.0") * x * y * rrp + lit("2.0") * p1 * x + lit("2.0") * p2 * y;
    let d11 = rr + lit("2.0") * y * y * rrp + lit("6.0") * p1 * y + lit("2.0") * p2 * x;
    let dd00_dx = rx + lit("4.0") * x * rrp + lit("2.0") * x * x * rpx + lit("6.0") * p2;
    let dd00_dy = ry + lit("2.0") * x * x * rpy + lit("2.0") * p1;
    let dd01_dx = lit("2.0") * y * rrp + lit("2.0") * x * y * rpx + lit("2.0") * p1;
    let dd01_dy = lit("2.0") * x * rrp + lit("2.0") * x * y * rpy + lit("2.0") * p2;
    let dd11_dx = rx + lit("2.0") * y * y * rpx + lit("2.0") * p2;
    let dd11_dy = ry + lit("4.0") * y * rrp + lit("2.0") * y * y * rpy + lit("6.0") * p1;
    Distortion {
        d00,
        d01,
        d11,
        d00_dx: dd00_dx,
        d00_dy: dd00_dy,
        d01_dx: dd01_dx,
        d01_dy: dd01_dy,
        d11_dx: dd11_dx,
        d11_dy: dd11_dy,
    }
}

/// One row of the projection's Jacobian at a held point, and its derivatives by
/// the held point's `x`, `y` and `z`.
#[derive(Clone, Copy, Debug)]
pub struct JacobianRow<S> {
    pub j: Vec3<S>,
    pub by_x: Vec3<S>,
    pub by_y: Vec3<S>,
    pub by_z: Vec3<S>,
}

#[verifier::opaque]
pub open spec fn spec_jacobian_row<S: Geometric>(
    f: Num<S>,
    a: Num<S>,
    b: Num<S>,
    a_dx: Num<S>,
    a_dy: Num<S>,
    b_dx: Num<S>,
    b_dy: Num<S>,
    at: HeldPoint<S>,
) -> JacobianRow<S> {
    let inv_z = at.inv_z;
    let inv_z2 = inv_z * inv_z;
    let inv_z3 = inv_z2 * inv_z;
    let xc = at.xc;
    let yc = at.yc;
    let a_dxc = a_dx * inv_z;
    let a_dyc = a_dy * inv_z;
    let a_dz = (xc * a_dx + yc * a_dy).opposite() * inv_z2;
    let b_dxc = b_dx * inv_z;
    let b_dyc = b_dy * inv_z;
    let b_dz = (xc * b_dx + yc * b_dy).opposite() * inv_z2;
    JacobianRow {
        j: Vec3 {
            x: f * a * inv_z,
            y: f * b * inv_z,
            z: f.opposite() * (a * xc + b * yc) * inv_z2,
        },
        by_x: Vec3 {
            x: f * a_dxc * inv_z,
            y: f * b_dxc * inv_z,
            z: f.opposite() * (a_dxc * xc + a + b_dxc * yc) * inv_z2,
        },
        by_y: Vec3 {
            x: f * a_dyc * inv_z,
            y: f * b_dyc * inv_z,
            z: f.opposite() * (a_dyc * xc + b_dyc * yc + b) * inv_z2,
        },
        by_z: Vec3 {
            x: f * (a_dz * inv_z - a * inv_z2),
            y: f * (b_dz * inv_z - b * inv_z2),
            z: f.opposite() * ((a_dz * xc + b_dz * yc) * inv_z2 - lit("2.0") * (a * xc + b * yc)
                * inv_z3),
        },
    }
}

/// The row of focal length `f` and of the distortion's entries `a` and `b`.
#[verifier::when_used_as_spec(spec_jacobian_row)]
pub fn jacobian_row<S: Geometric>(
    f: Num<S>,
    a: Num<S>,
    b: Num<S>,
    a_dx: Num<S>,
    a_dy: Num<S>,
    b_dx: Num<S>,
    b_dy: Num<S>,
    at: HeldPoint<S>,
) -> (out: JacobianRow<S>)
    ensures
        deterministic::<S>() ==> out == jacobian_row(f, a, b, a_dx, a_dy, b_dx, b_dy, at),
{
    proof {
        reveal(spec_jacobian_row);
    }
    let inv_z = at.inv_z;
    let inv_z2 = inv_z * inv_z;
    let inv_z3 = inv_z2 * inv_z;
    let xc = at.xc;
    let yc = at.yc;
    let a_dxc = a_dx * inv_z;
    let a_dyc = a_dy * inv_z;
    let a_dz = (xc * a_dx + yc * a_dy).opposite() * inv_z2;
    let b_dxc = b_dx * inv_z;
    let b_dyc = b_dy * inv_z;
    let b_dz = (xc * b_dx + yc * b_dy).opposite() * inv_z2;
    JacobianRow {
        j: Vec3 {
            x: f * a * inv_z,
            y: f * b * inv_z,
            z: f.opposite() * (a * xc + b * yc) * inv_z2,
        },
        by_x: Vec3 {
            x: f * a_dxc * inv_z,
            y: f * b_dxc * inv_z,
            z: f.opposite() * (a_dxc * xc + a + b_dxc * yc) * inv_z2,
        },
        by_y: Vec3 {
            x: f * a_dyc * inv_z,
            y: f * b_dyc * inv_z,
            z: f.opposite() * (a_dyc * xc + b_dyc * yc + b) * inv_z2,
        },
        by_z: Vec3 {
            x: f * (a_dz * inv_z - a * inv_z2),
            y: f * (b_dz * inv_z - b * inv_z2),
            z: f.opposite() * ((a_dz * xc + b_dz * yc) * inv_z2 - lit("2.0") * (a * xc + b * yc)
                * inv_z3),
        },
    }
}

pub open spec fn spec_through_clamp<S: Geometric>(j: Vec3<S>, at: HeldPoint<S>) -> Vec3<S> {
    let x = if at.in_x {
        j.x
    } else {
        zero()
    };
    let y = if at.in_y {
        j.y
    } else {
        zero()
    };
    let from_x = if at.in_x {
        zero()
    } else {
        at.nx * j.x
    };
    let from_y = if at.in_y {
        zero()
    } else {
        at.ny * j.y
    };
    Vec3 { x, y, z: from_x + from_y + j.z }
}

/// A row of the held point's Jacobian as one of the point's: a coordinate that
/// was held moves with `z` alone.
#[verifier::when_used_as_spec(spec_through_clamp)]
pub fn through_clamp<S: Geometric>(j: Vec3<S>, at: HeldPoint<S>) -> (out: Vec3<S>)
    ensures
        deterministic::<S>() ==> out == through_clamp(j, at),
{
    let x = if at.in_x {
        j.x
    } else {
        zero()
    };
    let y = if at.in_y {
        j.y
    } else {
        zero()
    };
    let from_x = if at.in_x {
        zero()
    } else {
        at.nx * j.x
    };
    let from_y = if at.in_y {
        zero()
    } else {
        at.ny * j.y
    };
    Vec3 { x, y, z: from_x + from_y + j.z }
}

pub open spec fn spec_back_through_clamp<S: Geometric>(e: Vec3<S>, at: HeldPoint<S>) -> Vec3<S> {
    let x = if at.in_x {
        e.x
    } else {
        at.nx * e.z
    };
    let y = if at.in_y {
        e.y
    } else {
        at.ny * e.z
    };
    Vec3 { x, y, z: e.z }
}

/// The gradient of a row of the held point's Jacobian, from that of the point's.
#[verifier::when_used_as_spec(spec_back_through_clamp)]
pub fn back_through_clamp<S: Geometric>(e: Vec3<S>, at: HeldPoint<S>) -> (out: Vec3<S>)
    ensures
        deterministic::<S>() ==> out == back_through_clamp(e, at),
{
    let x = if at.in_x {
        e.x
    } else {
        at.nx * e.z
    };
    let y = if at.in_y {
        e.y
    } else {
        at.ny * e.z
    };
    Vec3 { x, y, z: e.z }
}

#[verifier::opaque]
pub open spec fn spec_contraction<S: Geometric>(
    u: Vec3<S>,
    du: Vec3<S>,
    w: Vec3<S>,
    dw: Vec3<S>,
) -> Num<S> {
    u.x * du.x + u.y * du.y + u.z * du.z + w.x * dw.x + w.y * dw.y + w.z * dw.z
}

/// The sum of the products of two pairs of rows.
#[verifier::when_used_as_spec(spec_contraction)]
pub fn contraction<S: Geometric>(
    u: Vec3<S>,
    du: Vec3<S>,
    w: Vec3<S>,
    dw: Vec3<S>,
) -> (out: Num<S>)
    ensures
        deterministic::<S>() ==> out == contraction(u, du, w, dw),
{
    proof {
        reveal(spec_contraction);
    }
    u.x * du.x + u.y * du.y + u.z * du.z + w.x * dw.x + w.y * dw.y + w.z * dw.z
}

#[verifier::opaque]
pub open spec fn spec_twice_times<S: Geometric>(row: Vec3<S>, cov_c: Sym3<S>) -> Vec3<S> {
    Vec3 {
        x: lit("2.0") * row.dot(sym_row0(cov_c)),
        y: lit("2.0") * row.dot(sym_row1(cov_c)),
        z: lit("2.0") * row.dot(sym_row2(cov_c)),
    }
}

/// Twice a row times a symmetric matrix.
#[verifier::when_used_as_spec(spec_twice_times)]
pub fn twice_times<S: Geometric>(row: Vec3<S>, cov_c: Sym3<S>) -> (out: Vec3<S>)
    ensures
        deterministic::<S>() ==> out == twice_times(row, cov_c),
{
    proof {
        reveal(spec_twice_times);
    }
    Vec3 {
        x: lit("2.0") * row.dot(sym_row0(cov_c)),
        y: lit("2.0") * row.dot(sym_row1(cov_c)),
        z: lit("2.0") * row.dot(sym_row2(cov_c)),
    }
}

#[verifier::opaque]
pub open spec fn spec_calculate_projection_vjp_rt8<S: Geometric>(
    mean_c: Vec3<S>,
    cov_c: Sym3<S>,
    limits: JacobianClampLimits<S>,
    pinhole: PinholeParams<S>,
    v: ImageGradient<S>,
    params: RadialTangential8Params<S>,
) -> Vec3<S> {
    let at = held_point(mean_c, limits);
    let d = distortion(at.xc * at.inv_z, at.yc * at.inv_z, params);
    let u = jacobian_row(pinhole.fx, d.d00, d.d01, d.d00_dx, d.d00_dy, d.d01_dx, d.d01_dy, at);
    let w = jacobian_row(pinhole.fy, d.d01, d.d11, d.d01_dx, d.d01_dy, d.d11_dx, d.d11_dy, at);
    let eu = through_clamp(u.j, at);
    let ew = through_clamp(w.j, at);
    let image_x = eu.x * v.v_mean2d.x + ew.x * v.v_mean2d.y;
    let image_y = eu.y * v.v_mean2d.x + ew.y * v.v_mean2d.y;
    let image_z = eu.z * v.v_mean2d.x + ew.z * v.v_mean2d.y;
    let tmp = sym_times_mat(
        v.v_cov2d,
        Mat2x3 {
            c0: Vec2 { x: eu.x, y: ew.x },
            c1: Vec2 { x: eu.y, y: ew.y },
            c2: Vec2 { x: eu.z, y: ew.z },
        },
    );
    let su = back_through_clamp(twice_times(row0(tmp), cov_c), at);
    let sw = back_through_clamp(twice_times(row1(tmp), cov_c), at);
    let c_xc = contraction(su, u.by_x, sw, w.by_x);
    let c_yc = contraction(su, u.by_y, sw, w.by_y);
    let c_z = contraction(su, u.by_z, sw, w.by_z);
    let x = if at.in_x {
        image_x + c_xc
    } else {
        image_x
    };
    let y = if at.in_y {
        image_y + c_yc
    } else {
        image_y
    };
    let z_of_x = if at.in_x {
        image_z + c_z
    } else {
        image_z + c_z + at.nx * c_xc
    };
    let z = if at.in_y {
        z_of_x
    } else {
        z_of_x + at.ny * c_yc
    };
    Vec3 { x, y, z }
}

/// The gradient of a point from those of its image and of its covariance in the
/// image, through the rational model.
#[verifier::when_used_as_spec(spec_calculate_projection_vjp_rt8)]
pub fn calculate_projection_vjp_rt8<S: Geometric>(
    mean_c: Vec3<S>,
    cov_c: Sym3<S>,
    limits: JacobianClampLimits<S>,
    pinhole: PinholeParams<S>,
    v: ImageGradient<S>,
    params: RadialTangential8Params<S>,
) -> (out: Vec3<S>)
    ensures
        deterministic::<S>() ==> out == calculate_projection_vjp_rt8(mean_c, cov_c, limits, pinhole, v, params),
{
    proof {
        reveal(spec_calculate_projection_vjp_rt8);
    }
    let at = held_point(mean_c, limits);
    let d = distortion(at.xc * at.inv_z, at.yc * at.inv_z, params);
    let u = jacobian_row(pinhole.fx, d.d00, d.d01, d.d00_dx, d.d00_dy, d.d01_dx, d.d01_dy, at);
    let w = jacobian_row(pinhole.fy, d.d01, d.d11, d.d01_dx, d.d01_dy, d.d11_dx, d.d11_dy, at);
    let eu = through_clamp(u.j, at);
    let ew = through_clamp(w.j, at);
    let image_x = eu.x * v.v_mean2d.x + ew.x * v.v_mean2d.y;
    let image_y = eu.y * v.v_mean2d.x + ew.y * v.v_mean2d.y;
    let image_z = eu.z * v.v_mean2d.x + ew.z * v.v_mean2d.y;
    let tmp = sym_times_mat(
        v.v_cov2d,
        Mat2x3 {
            c0: Vec2 { x: eu.x, y: ew.x },
            c1: Vec2 { x: eu.y, y: ew.y },
            c2: Vec2 { x: eu.z, y: ew.z },
        },
    );
    let su = back_through_clamp(twice_times(row0(tmp), cov_c), at);
    let sw = back_through_clamp(twice_times(row1(tmp), cov_c), at);
    let c_xc = contraction(su, u.by_x, sw, w.by_x);
    let c_yc = contraction(su, u.by_y, sw, w.by_y);
    let c_z = contraction(su, u.by_z, sw, w.by_z);
    let x = if at.in_x {
        image_x + c_xc
    } else {
        image_x
    };
    let y = if at.in_y {
        image_y + c_yc
    } else {
        image_y
    };
    let z_of_x = if at.in_x {
        image_z + c_z
    } else {
        image_z + c_z + at.nx * c_xc
    };
    let z = if at.in_y {
        z_of_x
    } else {
        z_of_x + at.ny * c_yc
    };
    Vec3 { x, y, z }
}

/// A point whose normalized `x` is held moves its image along `x` not at all: the
/// gradient of its `x` is zero times the image's gradients, added up.
pub proof fn held_coordinates_have_no_gradient<S: Geometric>(
    mean_c: Vec3<S>,
    cov_c: Sym3<S>,
    limits: JacobianClampLimits<S>,
    pinhole: PinholeParams<S>,
    v: ImageGradient<S>,
    params: RadialTangential8Params<S>,
)
    ensures
        !held_point(mean_c, limits).in_x ==> calculate_projection_vjp_rt8(
            mean_c,
            cov_c,
            limits,
            pinhole,
            v,
            params,
        ).x == zero::<S>() * v.v_mean2d.x + zero::<S>() * v.v_mean2d.y,
        !held_point(mean_c, limits).in_y ==> calculate_projection_vjp_rt8(
            mean_c,
            cov_c,
            limits,
            pinhole,
            v,
            params,
        ).y == zero::<S>() * v.v_mean2d.x + zero::<S>() * v.v_mean2d.y,
{
    reveal(spec_calculate_projection_vjp_rt8);
}

/// The rational model distorts nothing.
pub open spec fn no_distortion<S: Geometric>(
    value: spec_fn(S) -> real,
    params: RadialTangential8Params<S>,
) -> bool {
    let zero = 0 as real;
    &&& exact::of(value, params.k1) == zero
    &&& exact::of(value, params.k2) == zero
    &&& exact::of(value, params.k3) == zero
    &&& exact::of(value, params.k4) == zero
    &&& exact::of(value, params.k5) == zero
    &&& exact::of(value, params.k6) == zero
    &&& exact::of(value, params.p1) == zero
    &&& exact::of(value, params.p2) == zero
}

/// A point in front of or behind the lens whose image is within the limits.
pub open spec fn is_unheld<S: Geometric>(
    value: spec_fn(S) -> real,
    point: Vec3<S>,
    limits: JacobianClampLimits<S>,
) -> bool {
    let z = exact::of(value, point.z);
    let x = exact::of(value, point.x) * ((1 as real) / z);
    let y = exact::of(value, point.y) * ((1 as real) / z);
    &&& z != 0 as real
    &&& exact::of(value, limits.lim_neg_x) <= x <= exact::of(value, limits.lim_pos_x)
    &&& exact::of(value, limits.lim_neg_y) <= y <= exact::of(value, limits.lim_pos_y)
}

/// Two vectors stand for the same numbers.
pub open spec fn same3<S: Geometric>(value: spec_fn(S) -> real, a: Vec3<S>, b: Vec3<S>) -> bool {
    &&& exact::of(value, a.x) == exact::of(value, b.x)
    &&& exact::of(value, a.y) == exact::of(value, b.y)
    &&& exact::of(value, a.z) == exact::of(value, b.z)
}

/// Without distortion the derivatives of the distortion are those of the
/// identity.
proof fn lemma_identity<S: Geometric>(
    value: spec_fn(S) -> real,
    x: Num<S>,
    y: Num<S>,
    params: RadialTangential8Params<S>,
)
    requires
        exact::is_exact(value),
        no_distortion(value, params),
    ensures
        ({
            let d = distortion(x, y, params);
            let zero = 0 as real;
            &&& exact::of(value, d.d00) == 1 as real
            &&& exact::of(value, d.d01) == zero
            &&& exact::of(value, d.d11) == 1 as real
            &&& exact::of(value, d.d00_dx) == zero
            &&& exact::of(value, d.d00_dy) == zero
            &&& exact::of(value, d.d01_dx) == zero
            &&& exact::of(value, d.d01_dy) == zero
            &&& exact::of(value, d.d11_dx) == zero
            &&& exact::of(value, d.d11_dy) == zero
        }),
{
    reveal(spec_distortion);
    exact::products_with_zero_and_one(value);
}

/// Where a held point's coordinates were within the limits, they are its own.
proof fn lemma_unheld<S: Geometric>(
    value: spec_fn(S) -> real,
    point: Vec3<S>,
    limits: JacobianClampLimits<S>,
)
    requires
        exact::is_exact(value),
        is_unheld(value, point, limits),
    ensures
        ({
            let at = held_point(point, limits);
            let z = exact::of(value, point.z);
            &&& at.in_x
            &&& at.in_y
            &&& exact::of(value, at.inv_z) == (1 as real) / z
            &&& exact::of(value, at.nx) == exact::of(value, point.x) * ((1 as real) / z)
            &&& exact::of(value, at.ny) == exact::of(value, point.y) * ((1 as real) / z)
            &&& exact::of(value, at.xc) == exact::of(value, point.x)
            &&& exact::of(value, at.yc) == exact::of(value, point.y)
        }),
{
    reveal(spec_held_point);
    let z = exact::of(value, point.z);
    lemma_there_and_back(exact::of(value, point.x), z);
    lemma_there_and_back(exact::of(value, point.y), z);
}

proof fn lemma_there_and_back(m: real, z: real)
    by (nonlinear_arith)
    requires
        z != 0 as real,
    ensures
        (m * ((1 as real) / z)) * z == m,
{
}

/// A row of the Jacobian without distortion along its own axis: `a` is one.
proof fn lemma_plain_row<S: Geometric>(
    value: spec_fn(S) -> real,
    f: Num<S>,
    d: (Num<S>, Num<S>, Num<S>, Num<S>, Num<S>, Num<S>),
    at: HeldPoint<S>,
)
    requires
        exact::is_exact(value),
        exact::of(value, d.0) == 1 as real && exact::of(value, d.1) == 0 as real || exact::of(
            value,
            d.0,
        ) == 0 as real && exact::of(value, d.1) == 1 as real,
        exact::of(value, d.2) == 0 as real,
        exact::of(value, d.3) == 0 as real,
        exact::of(value, d.4) == 0 as real,
        exact::of(value, d.5) == 0 as real,
    ensures
        ({
            let row = jacobian_row(f, d.0, d.1, d.2, d.3, d.4, d.5, at);
            let first = exact::of(value, d.0) == 1 as real;
            let zero = 0 as real;
            let fv = exact::of(value, f);
            let iz = exact::of(value, at.inv_z);
            let xc = exact::of(value, at.xc);
            let yc = exact::of(value, at.yc);
            let c = if first {
                xc
            } else {
                yc
            };
            &&& exact::of(value, row.j.x) == (if first {
                fv * iz
            } else {
                zero
            })
            &&& exact::of(value, row.j.y) == (if first {
                zero
            } else {
                fv * iz
            })
            &&& exact::of(value, row.j.z) == -fv * c * (iz * iz)
            &&& exact::of(value, row.by_x.x) == zero
            &&& exact::of(value, row.by_x.y) == zero
            &&& exact::of(value, row.by_x.z) == (if first {
                -fv * (iz * iz)
            } else {
                zero
            })
            &&& exact::of(value, row.by_y.x) == zero
            &&& exact::of(value, row.by_y.y) == zero
            &&& exact::of(value, row.by_y.z) == (if first {
                zero
            } else {
                -fv * (iz * iz)
            })
            &&& exact::of(value, row.by_z.x) == (if first {
                fv * (zero - iz * iz)
            } else {
                zero
            })
            &&& exact::of(value, row.by_z.y) == (if first {
                zero
            } else {
                fv * (zero - iz * iz)
            })
            &&& exact::of(value, row.by_z.z) == -fv * (zero - (2 as real) * c * (iz * iz * iz))
        }),
{
    reveal(spec_jacobian_row);
    exact::products_with_zero_and_one(value);
    let zero = 0 as real;
    assert(zero - zero == zero && -zero == zero);
}

/// The entries of the Jacobian's last column, written either way.
proof fn lemma_last_column(f: real, m: real, iz: real)
    ensures
        -f * m * (iz * iz) == -(f * iz) * (m * iz),
{
    exact::lemma_opposite(f, m);
    exact::lemma_opposite(f * m, iz * iz);
    exact::lemma_opposite(f * iz, m * iz);
    exact::lemma_regroup(f, iz, m * iz);
    exact::lemma_regroup(iz, m, iz);
    exact::lemma_commute(iz, m);
    exact::lemma_regroup(m, iz, iz);
    exact::lemma_regroup(f, m, iz * iz);
}

/// What the image adds to the gradient along the depth, written either way.
proof fn lemma_image_depth(fx: real, fy: real, mx: real, my: real, vx: real, vy: real, iz2: real)
    ensures
        (-fx * mx * iz2) * vx + (-fy * my * iz2) * vy == -(fx * mx * vx + fy * my * vy) * iz2,
{
    let a = fx * mx;
    let b = fy * my;
    exact::lemma_opposite(fx, mx);
    exact::lemma_opposite(a, iz2);
    exact::lemma_opposite(a * iz2, vx);
    exact::lemma_swap_last(a, iz2, vx);
    exact::lemma_opposite(fy, my);
    exact::lemma_opposite(b, iz2);
    exact::lemma_opposite(b * iz2, vy);
    exact::lemma_swap_last(b, iz2, vy);
    exact::lemma_opposite(a * vx + b * vy, iz2);
    exact::lemma_factor(a * vx, b * vy, iz2);
}

/// What the depth adds to the gradient along one axis, written either way.
proof fn lemma_depth_terms(f: real, m: real, iz2: real, iz3: real, own: real, last: real)
    ensures
        own * (f * (0 as real - iz2)) == -f * iz2 * own,
        own * (f * (0 as real - iz2)) == -(f * iz2 * own),
        last * (-f * (0 as real - (2 as real) * m * iz3)) == (2 as real) * f * m * iz3 * last,
{
    let zero = 0 as real;
    let two = 2 as real;
    let n = zero - iz2;
    assert(n == -iz2);
    exact::lemma_commute(f, n);
    exact::lemma_opposite(iz2, f);
    exact::lemma_commute(iz2, f);
    assert(f * n == -(f * iz2));
    exact::lemma_commute(own, f * n);
    exact::lemma_opposite(f * iz2, own);
    exact::lemma_opposite(f, iz2);
    let t = two * m * iz3;
    let q = zero - t;
    assert(q == -t);
    exact::lemma_opposite(f, q);
    exact::lemma_commute(f, q);
    exact::lemma_opposite(t, f);
    assert(-f * q == t * f);
    exact::lemma_commute(last, t * f);
    exact::lemma_swap_last(two * m, iz3, f);
    exact::lemma_swap_last(two, m, f);
}

/// Matrices that stand for the same numbers.
pub open spec fn same_entries<S: Geometric>(
    value: spec_fn(S) -> real,
    a: Mat2x3<S>,
    b: Mat2x3<S>,
) -> bool {
    &&& exact::of(value, a.c0.x) == exact::of(value, b.c0.x)
    &&& exact::of(value, a.c0.y) == exact::of(value, b.c0.y)
    &&& exact::of(value, a.c1.x) == exact::of(value, b.c1.x)
    &&& exact::of(value, a.c1.y) == exact::of(value, b.c1.y)
    &&& exact::of(value, a.c2.x) == exact::of(value, b.c2.x)
    &&& exact::of(value, a.c2.y) == exact::of(value, b.c2.y)
}

/// What the covariance adds to the gradients of the Jacobian's two rows.
spec fn row_gradients<S: Geometric>(v_cov2d: Sym2<S>, cov_c: Sym3<S>, j: Mat2x3<S>) -> (
    Vec3<S>,
    Vec3<S>,
) {
    let tmp = sym_times_mat(v_cov2d, j);
    (twice_times(row0(tmp), cov_c), twice_times(row1(tmp), cov_c))
}

proof fn lemma_rows_agree<S: Geometric>(
    value: spec_fn(S) -> real,
    v_cov2d: Sym2<S>,
    cov_c: Sym3<S>,
    a: Mat2x3<S>,
    b: Mat2x3<S>,
)
    requires
        exact::is_exact(value),
        same_entries(value, a, b),
    ensures
        same3(value, row_gradients(v_cov2d, cov_c, a).0, row_gradients(v_cov2d, cov_c, b).0),
        same3(value, row_gradients(v_cov2d, cov_c, a).1, row_gradients(v_cov2d, cov_c, b).1),
{
    reveal(spec_sym_times_mat);
    reveal(spec_twice_times);
    let p = sym_times_mat(v_cov2d, a);
    let q = sym_times_mat(v_cov2d, b);
    assert(same3(value, row0(p), row0(q)));
    assert(same3(value, row1(p), row1(q)));
}

proof fn lemma_contraction<S: Geometric>(
    value: spec_fn(S) -> real,
    u: Vec3<S>,
    du: Vec3<S>,
    w: Vec3<S>,
    dw: Vec3<S>,
)
    requires
        exact::is_exact(value),
    ensures
        exact::of(value, contraction(u, du, w, dw)) == exact::of(value, u.x) * exact::of(value, du.x)
            + exact::of(value, u.y) * exact::of(value, du.y) + exact::of(value, u.z) * exact::of(
            value,
            du.z,
        ) + exact::of(value, w.x) * exact::of(value, dw.x) + exact::of(value, w.y) * exact::of(
            value,
            dw.y,
        ) + exact::of(value, w.z) * exact::of(value, dw.z),
{
    reveal(spec_contraction);
}

/// The gradient through the pinhole, as numbers.
proof fn lemma_pinhole_gradient<S: Geometric>(
    value: spec_fn(S) -> real,
    jacobian: Mat2x3<S>,
    mean_c: Vec3<S>,
    cov_c: Sym3<S>,
    limits: JacobianClampLimits<S>,
    pinhole: PinholeParams<S>,
    v: ImageGradient<S>,
)
    requires
        exact::is_exact(value),
        is_unheld(value, mean_c, limits),
    ensures
        ({
            let r = calculate_projection_vjp_pinhole(
                jacobian,
                mean_c,
                cov_c,
                limits,
                pinhole,
                v,
            );
            let g = row_gradients(v.v_cov2d, cov_c, jacobian);
            let fx = exact::of(value, pinhole.fx);
            let fy = exact::of(value, pinhole.fy);
            let mx = exact::of(value, mean_c.x);
            let my = exact::of(value, mean_c.y);
            let vx = exact::of(value, v.v_mean2d.x);
            let vy = exact::of(value, v.v_mean2d.y);
            let iz = (1 as real) / exact::of(value, mean_c.z);
            let two = 2 as real;
            &&& exact::of(value, r.x) == fx * iz * vx + -fx * (iz * iz) * exact::of(value, g.0.z)
            &&& exact::of(value, r.y) == fy * iz * vy + -fy * (iz * iz) * exact::of(value, g.1.z)
            &&& exact::of(value, r.z) == -(fx * mx * vx + fy * my * vy) * (iz * iz) + (-fx * (iz
                * iz) * exact::of(value, g.0.x) - fy * (iz * iz) * exact::of(value, g.1.y) + two
                * fx * mx * (iz * iz * iz) * exact::of(value, g.0.z) + two * fy * my * (iz * iz
                * iz) * exact::of(value, g.1.z))
        }),
{
    reveal(spec_calculate_projection_vjp_pinhole);
    reveal(spec_twice_times);
    let z = exact::of(value, mean_c.z);
    let iz = (1 as real) / z;
    let mx = exact::of(value, mean_c.x);
    let my = exact::of(value, mean_c.y);
    exact::lemma_commute(z, mx * iz);
    exact::lemma_commute(z, my * iz);
    lemma_there_and_back(mx, z);
    lemma_there_and_back(my, z);
}

/// The two rows of the Jacobian of the rational model at a held point.
spec fn lens_rows<S: Geometric>(
    at: HeldPoint<S>,
    pinhole: PinholeParams<S>,
    params: RadialTangential8Params<S>,
) -> (JacobianRow<S>, JacobianRow<S>) {
    let d = distortion(at.xc * at.inv_z, at.yc * at.inv_z, params);
    (
        jacobian_row(pinhole.fx, d.d00, d.d01, d.d00_dx, d.d00_dy, d.d01_dx, d.d01_dy, at),
        jacobian_row(pinhole.fy, d.d01, d.d11, d.d01_dx, d.d01_dy, d.d11_dx, d.d11_dy, at),
    )
}

/// The Jacobian of the rational model, as its gradient uses it.
spec fn lens_jacobian<S: Geometric>(
    at: HeldPoint<S>,
    pinhole: PinholeParams<S>,
    params: RadialTangential8Params<S>,
) -> Mat2x3<S> {
    let rows = lens_rows(at, pinhole, params);
    let eu = through_clamp(rows.0.j, at);
    let ew = through_clamp(rows.1.j, at);
    Mat2x3 {
        c0: Vec2 { x: eu.x, y: ew.x },
        c1: Vec2 { x: eu.y, y: ew.y },
        c2: Vec2 { x: eu.z, y: ew.z },
    }
}

/// The gradient through the rational model, of a point that was not held.
proof fn lemma_lens_gradient<S: Geometric>(
    value: spec_fn(S) -> real,
    mean_c: Vec3<S>,
    cov_c: Sym3<S>,
    limits: JacobianClampLimits<S>,
    pinhole: PinholeParams<S>,
    v: ImageGradient<S>,
    params: RadialTangential8Params<S>,
)
    requires
        exact::is_exact(value),
        held_point(mean_c, limits).in_x,
        held_point(mean_c, limits).in_y,
    ensures
        ({
            let at = held_point(mean_c, limits);
            let rows = lens_rows(at, pinhole, params);
            let j = lens_jacobian(at, pinhole, params);
            let g = row_gradients(v.v_cov2d, cov_c, j);
            let r = calculate_projection_vjp_rt8(mean_c, cov_c, limits, pinhole, v, params);
            let vx = exact::of(value, v.v_mean2d.x);
            let vy = exact::of(value, v.v_mean2d.y);
            &&& exact::of(value, r.x) == exact::of(value, j.c0.x) * vx + exact::of(value, j.c0.y) * vy
                + exact::of(value, contraction(g.0, rows.0.by_x, g.1, rows.1.by_x))
            &&& exact::of(value, r.y) == exact::of(value, j.c1.x) * vx + exact::of(value, j.c1.y) * vy
                + exact::of(value, contraction(g.0, rows.0.by_y, g.1, rows.1.by_y))
            &&& exact::of(value, r.z) == exact::of(value, j.c2.x) * vx + exact::of(value, j.c2.y) * vy
                + exact::of(value, contraction(g.0, rows.0.by_z, g.1, rows.1.by_z))
        }),
{
    reveal(spec_calculate_projection_vjp_rt8);
    let at = held_point(mean_c, limits);
    let j = lens_jacobian(at, pinhole, params);
    let g = row_gradients(v.v_cov2d, cov_c, j);
    assert(back_through_clamp(g.0, at) == g.0);
    assert(back_through_clamp(g.1, at) == g.1);
}

/// Without distortion the two Jacobians stand for the same numbers.
proof fn lemma_jacobians_agree<S: Geometric>(
    value: spec_fn(S) -> real,
    mean_c: Vec3<S>,
    limits: JacobianClampLimits<S>,
    pinhole: PinholeParams<S>,
    params: RadialTangential8Params<S>,
)
    requires
        exact::is_exact(value),
        no_distortion(value, params),
        is_unheld(value, mean_c, limits),
    ensures
        same_entries(
            value,
            lens_jacobian(held_point(mean_c, limits), pinhole, params),
            calculate_project_jacobian_pinhole(mean_c, limits, pinhole),
        ),
{
    lemma_unheld(value, mean_c, limits);
    let at = held_point(mean_c, limits);
    let x = at.xc * at.inv_z;
    let y = at.yc * at.inv_z;
    let d = distortion(x, y, params);
    lemma_identity(value, x, y, params);
    lemma_plain_row(
        value,
        pinhole.fx,
        (d.d00, d.d01, d.d00_dx, d.d00_dy, d.d01_dx, d.d01_dy),
        at,
    );
    lemma_plain_row(
        value,
        pinhole.fy,
        (d.d01, d.d11, d.d01_dx, d.d01_dy, d.d11_dx, d.d11_dy),
        at,
    );
    let iz = exact::of(value, at.inv_z);
    lemma_last_column(exact::of(value, pinhole.fx), exact::of(value, mean_c.x), iz);
    lemma_last_column(exact::of(value, pinhole.fy), exact::of(value, mean_c.y), iz);
}

/// Products with zero vanish.
proof fn lemma_sparse(a: real, b: real, c: real)
    ensures
        a * (0 as real) == 0 as real,
        b * (0 as real) == 0 as real,
        c * (0 as real) == 0 as real,
{
    exact::lemma_times_zero(a, 0 as real);
    exact::lemma_times_zero(b, 0 as real);
    exact::lemma_times_zero(c, 0 as real);
}

/// Without distortion the rational model is the pinhole: where nothing is
/// rounded and the point is within the limits, the gradient of a point is the
/// same through both.
pub proof fn undistorted_lens_is_the_pinhole<S: Geometric>(
    value: spec_fn(S) -> real,
    mean_c: Vec3<S>,
    cov_c: Sym3<S>,
    limits: JacobianClampLimits<S>,
    pinhole: PinholeParams<S>,
    v: ImageGradient<S>,
    params: RadialTangential8Params<S>,
)
    requires
        exact::is_exact(value),
        no_distortion(value, params),
        is_unheld(value, mean_c, limits),
    ensures
        ({
            let jacobian = calculate_project_jacobian_pinhole(mean_c, limits, pinhole);
            same3(
                value,
                calculate_projection_vjp_rt8(mean_c, cov_c, limits, pinhole, v, params),
                calculate_projection_vjp_pinhole(jacobian, mean_c, cov_c, limits, pinhole, v),
            )
        }),
{
    let jacobian = calculate_project_jacobian_pinhole(mean_c, limits, pinhole);
    let at = held_point(mean_c, limits);
    let rows = lens_rows(at, pinhole, params);
    let j = lens_jacobian(at, pinhole, params);
    let g = row_gradients(v.v_cov2d, cov_c, j);
    lemma_unheld(value, mean_c, limits);
    lemma_jacobians_agree(value, mean_c, limits, pinhole, params);
    lemma_rows_agree(value, v.v_cov2d, cov_c, j, jacobian);
    lemma_pinhole_gradient(value, jacobian, mean_c, cov_c, limits, pinhole, v);
    lemma_lens_gradient(value, mean_c, cov_c, limits, pinhole, v, params);
    lemma_contraction(value, g.0, rows.0.by_x, g.1, rows.1.by_x);
    lemma_contraction(value, g.0, rows.0.by_y, g.1, rows.1.by_y);
    lemma_contraction(value, g.0, rows.0.by_z, g.1, rows.1.by_z);
    let x = at.xc * at.inv_z;
    let y = at.yc * at.inv_z;
    let d = distortion(x, y, params);
    lemma_identity(value, x, y, params);
    lemma_plain_row(
        value,
        pinhole.fx,
        (d.d00, d.d01, d.d00_dx, d.d00_dy, d.d01_dx, d.d01_dy),
        at,
    );
    lemma_plain_row(
        value,
        pinhole.fy,
        (d.d01, d.d11, d.d01_dx, d.d01_dy, d.d11_dx, d.d11_dy),
        at,
    );
    lemma_combine(
        (exact::of(value, pinhole.fx), exact::of(value, pinhole.fy)),
        (exact::of(value, mean_c.x), exact::of(value, mean_c.y)),
        (exact::of(value, v.v_mean2d.x), exact::of(value, v.v_mean2d.y)),
        exact::of(value, at.inv_z),
        (exact::of(value, g.0.x), exact::of(value, g.0.y), exact::of(value, g.0.z)),
        (exact::of(value, g.1.x), exact::of(value, g.1.y), exact::of(value, g.1.z)),
    );
}

/// The gradient through an undistorted lens, as numbers: sums of products, of
/// which most are zero, against the pinhole's.
proof fn lemma_combine(
    f: (real, real),
    m: (real, real),
    v: (real, real),
    iz: real,
    a: (real, real, real),
    b: (real, real, real),
)
    ensures
        ({
            let zero = 0 as real;
            let two = 2 as real;
            let iz2 = iz * iz;
            let iz3 = iz * iz * iz;
            &&& f.0 * iz * v.0 + zero * v.1 + (a.0 * zero + a.1 * zero + a.2 * (-f.0 * iz2) + b.0
                * zero + b.1 * zero + b.2 * zero) == f.0 * iz * v.0 + -f.0 * iz2 * a.2
            &&& zero * v.0 + f.1 * iz * v.1 + (a.0 * zero + a.1 * zero + a.2 * zero + b.0 * zero
                + b.1 * zero + b.2 * (-f.1 * iz2)) == f.1 * iz * v.1 + -f.1 * iz2 * b.2
            &&& (-f.0 * m.0 * iz2) * v.0 + (-f.1 * m.1 * iz2) * v.1 + (a.0 * (f.0 * (zero - iz2))
                + a.1 * zero + a.2 * (-f.0 * (zero - two * m.0 * iz3)) + b.0 * zero + b.1 * (f.1
                * (zero - iz2)) + b.2 * (-f.1 * (zero - two * m.1 * iz3))) == -(f.0 * m.0 * v.0
                + f.1 * m.1 * v.1) * iz2 + (-f.0 * iz2 * a.0 - f.1 * iz2 * b.1 + two * f.0 * m.0
                * iz3 * a.2 + two * f.1 * m.1 * iz3 * b.2)
        }),
{
    let zero = 0 as real;
    let iz2 = iz * iz;
    let iz3 = iz * iz * iz;
    exact::lemma_times_zero(zero, v.0);
    exact::lemma_times_zero(zero, v.1);
    lemma_sparse(a.0, a.1, a.2);
    lemma_sparse(b.0, b.1, b.2);
    exact::lemma_commute(a.2, -f.0 * iz2);
    exact::lemma_commute(b.2, -f.1 * iz2);
    lemma_image_depth(f.0, f.1, m.0, m.1, v.0, v.1, iz2);
    lemma_depth_terms(f.0, m.0, iz2, iz3, a.0, a.2);
    lemma_depth_terms(f.1, m.1, iz2, iz3, b.1, b.2);
}

pub(crate) proof fn lemma_quotient(m: real, z: real)
    by (nonlinear_arith)
    requires
        z != 0 as real,
    ensures
        m / z == m * ((1 as real) / z),
{
}

/// Without distortion, and where nothing is rounded, a point has the same image
/// through the rational model and through the pinhole.
pub proof fn undistorted_images_agree<S: Geometric>(
    value: spec_fn(S) -> real,
    point: Vec3<S>,
    pinhole: PinholeParams<S>,
    params: RadialTangential8Params<S>,
)
    requires
        exact::is_exact(value),
        no_distortion(value, params),
        exact::of(value, point.z) != 0 as real,
    ensures
        exact::of(value, project_rt8(point, pinhole, params).x) == exact::of(
            value,
            project_pinhole(point, pinhole).x,
        ),
        exact::of(value, project_rt8(point, pinhole, params).y) == exact::of(
            value,
            project_pinhole(point, pinhole).y,
        ),
{
    exact::products_with_zero_and_one(value);
    let z = exact::of(value, point.z);
    let mx = exact::of(value, point.x);
    let my = exact::of(value, point.y);
    lemma_quotient(mx, z);
    lemma_quotient(my, z);
    exact::lemma_regroup(exact::of(value, pinhole.fx), mx, (1 as real) / z);
    exact::lemma_regroup(exact::of(value, pinhole.fy), my, (1 as real) / z);
}

} // verus!
