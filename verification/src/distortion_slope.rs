//! The slopes of the rational lens: how its distortion and the derivatives of
//! its distortion move with a normalized point.
use vstd::prelude::*;

use crate::camera::RadialTangential8Params;
use crate::exact;
use crate::num::{Geometric, Num};
use crate::projection;
use crate::scalar;
use crate::slope;

verus! {

pub(crate) proof fn lemma_sum_of_three(a: real, b: real, c: real, s: real)
    ensures
        (a + b + c) * s == a * s + b * s + c * s,
{
    exact::lemma_factor(a, b, s);
    exact::lemma_factor(a + b, c, s);
}

/// A cubic in the squared radius moves by its derivative.
proof fn lemma_cubic_slope(k1: real, k2: real, k3: real, r2: real, s: real)
    ensures
        ({
            let r4 = r2 * r2;
            let dr4 = s * r2 + r2 * s;
            let dr6 = dr4 * r2 + r4 * s;
            k1 * s + k2 * dr4 + k3 * dr6 == (k1 + ((2 as real) * k2) * r2 + ((3 as real) * k3) * r4)
                * s
        }),
{
    let (two, three) = (2 as real, 3 as real);
    let r4 = r2 * r2;
    let t = r2 * s;
    let dr4 = s * r2 + t;
    exact::lemma_commute(s, r2);
    assert(dr4 == two * t);
    // The sixth power moves by three of the fourth.
    exact::lemma_factor(t, t, r2);
    exact::lemma_swap_last(r2, s, r2);
    assert(dr4 == t + t);
    let dr6 = dr4 * r2 + r4 * s;
    let u = r4 * s;
    assert(dr6 == three * u);
    exact::lemma_swap_first(k2, two, t);
    exact::lemma_regroup(k2, r2, s);
    exact::lemma_regroup(two, k2, r2);
    exact::lemma_regroup(two, k2 * r2, s);
    exact::lemma_swap_first(k3, three, u);
    exact::lemma_regroup(k3, r4, s);
    exact::lemma_regroup(three, k3, r4);
    exact::lemma_regroup(three, k3 * r4, s);
    lemma_sum_of_three(k1, (two * k2) * r2, (three * k3) * r4, s);
}

/// So does that derivative.
proof fn lemma_quadratic_slope(k2: real, k3: real, r2: real, s: real)
    ensures
        ({
            let dr4 = s * r2 + r2 * s;
            ((2 as real) * k2) * s + ((3 as real) * k3) * dr4 == ((2 as real) * k2 + ((6 as real)
                * k3) * r2) * s
        }),
{
    let (two, three, six) = (2 as real, 3 as real, 6 as real);
    let t = r2 * s;
    exact::lemma_commute(s, r2);
    assert(s * r2 + t == two * t);
    exact::lemma_swap_first(three * k3, two, t);
    exact::lemma_regroup(three, k3, t);
    exact::lemma_regroup(k3, r2, s);
    exact::lemma_regroup(six, k3, r2);
    exact::lemma_regroup(six, k3 * r2, s);
    exact::lemma_factor(two * k2, (six * k3) * r2, s);
}

/// A quotient moves by its derivative: `n` and `d` by `np` and `dnp` times `s`,
/// and `i` is the inverse of `d`.
proof fn lemma_ratio_slope(n: real, d: real, np: real, dnp: real, i: real, s: real)
    requires
        d * i == 1 as real,
    ensures
        ({
            let di = -((i * i) * (dnp * s));
            (np * s) * i + n * di == ((np * d - n * dnp) * (i * i)) * s
        }),
        (np * s - (n * i) * (dnp * s)) * i == ((np * d - n * dnp) * (i * i)) * s,
{
    let i2 = i * i;
    let one = 1 as real;
    // The first part.
    exact::lemma_swap_last(np, s, i);
    assert((np * d) * i2 == np * i) by {
        exact::lemma_regroup(np, d, i2);
        exact::lemma_regroup(d, i, i);
        assert(one * i == i);
    }
    // The second part.
    let q = n * dnp;
    exact::lemma_in_front(n, i2 * (dnp * s), i2 * (dnp * s));
    assert(n * (i2 * (dnp * s)) == (q * i2) * s) by {
        exact::lemma_swap_first(i2, dnp, s);
        exact::lemma_regroup(n, dnp, i2 * s);
        exact::lemma_regroup(q, i2, s);
    }
    exact::lemma_factor_difference(np * d, q, i2);
    exact::lemma_factor_difference((np * d) * i2, q * i2, s);
    // The form of a quotient.
    let t = dnp * s;
    exact::lemma_factor_difference(np * s, (n * i) * t, i);
    assert(((n * i) * t) * i == n * (i2 * t)) by {
        exact::lemma_swap_last(n * i, t, i);
        exact::lemma_regroup(n, i, i);
        exact::lemma_regroup(n, i2, t);
    }
}

/// The derivative of a quotient moves by its own derivative.
proof fn lemma_second_slope(
    n: real,
    d: real,
    np: real,
    dnp: real,
    npp: real,
    dnpp: real,
    i: real,
    s: real,
)
    requires
        d * i == 1 as real,
    ensures
        ({
            let two = 2 as real;
            let i2 = i * i;
            let i3 = i2 * i;
            let di = -(i2 * (dnp * s));
            let e = np * d - n * dnp;
            let de = ((npp * s) * d + np * (dnp * s)) - ((np * s) * dnp + n * (dnpp * s));
            let second = ((npp * d) * d - ((two * np) * d) * dnp - (n * dnpp) * d + ((two * n)
                * dnp) * dnp) * i3;
            de * i2 + e * (di * i + i * di) == second * s
        }),
{
    let (one, two) = (1 as real, 2 as real);
    let i2 = i * i;
    let i3 = i2 * i;
    let di = -(i2 * (dnp * s));
    let e = np * d - n * dnp;
    let de = ((npp * s) * d + np * (dnp * s)) - ((np * s) * dnp + n * (dnpp * s));
    let h = npp * d - n * dnpp;
    assert(de == h * s) by {
        exact::lemma_swap_last(npp, s, d);
        exact::lemma_regroup(np, s, dnp);
        exact::lemma_commute(s, dnp);
        exact::lemma_regroup(n, dnpp, s);
        exact::lemma_factor_difference(npp * d, n * dnpp, s);
    }
    let g = i3 * dnp;
    assert(di * i == -(g * s)) by {
        exact::lemma_opposite(i2 * (dnp * s), i);
        exact::lemma_swap_last(i2, dnp * s, i);
        exact::lemma_regroup(i3, dnp, s);
    }
    exact::lemma_commute(i, di);
    assert(di * i + i * di == -(two * (g * s)));
    exact::lemma_in_front(e, two * (g * s), two * (g * s));
    exact::lemma_swap_first(e, two, g * s);
    exact::lemma_regroup(e, g, s);
    assert(e * (di * i + i * di) == -(two * ((e * g) * s)));
    // The first part, over the third power of the divisor.
    exact::lemma_swap_last(h, s, i2);
    assert(d * i3 == i2) by {
        exact::lemma_swap_first(d, i2, i);
        assert(i2 * one == i2);
    }
    let (a, c) = ((npp * d) * d, (n * dnpp) * d);
    exact::lemma_regroup(npp * d, d, i3);
    exact::lemma_regroup(n * dnpp, d, i3);
    exact::lemma_factor_difference(npp * d, n * dnpp, i2);
    assert(a * i3 - c * i3 == h * i2);
    // The other part.
    let (b, f) = (((two * np) * d) * dnp, ((two * n) * dnp) * dnp);
    assert(b - f == two * (e * dnp)) by {
        exact::lemma_regroup(two, np, d);
        exact::lemma_regroup(two, np * d, dnp);
        exact::lemma_regroup(two, n, dnp);
        exact::lemma_regroup(two, n * dnp, dnp);
        exact::lemma_factor_difference(np * d, n * dnp, dnp);
    }
    assert((b - f) * i3 == two * (e * g)) by {
        exact::lemma_regroup(two, e * dnp, i3);
        exact::lemma_regroup(e, dnp, i3);
        exact::lemma_commute(dnp, i3);
    }
    exact::lemma_factor_difference(b, f, i3);
    exact::lemma_factor_difference(a, b, i3);
    exact::lemma_factor_difference(a - b, c, i3);
    exact::lemma_factor(a - b - c, f, i3);
    let second = (a - b - c + f) * i3;
    assert(second == h * i2 - two * (e * g));
    exact::lemma_factor_difference(h * i2, two * (e * g), s);
    exact::lemma_regroup(two, e * g, s);
}

/// Numbers that a normalized point and its lens stand for, with the slopes of
/// the point.
pub struct At {
    pub x: real,
    pub y: real,
    pub sx: real,
    pub sy: real,
    pub p1: real,
    pub p2: real,
    /// The radial factor and its first two derivatives by the squared radius.
    pub rr: real,
    pub rrp: real,
    pub rrpp: real,
}

/// The slope of the squared radius.
pub open spec fn radius_slope(a: At) -> real {
    (a.sx * a.x + a.x * a.sx) + (a.sy * a.y + a.y * a.sy)
}

proof fn lemma_radius_slope(a: At)
    ensures
        radius_slope(a) == ((2 as real) * a.x) * a.sx + ((2 as real) * a.y) * a.sy,
{
    let two = 2 as real;
    exact::lemma_commute(a.sx, a.x);
    exact::lemma_commute(a.sy, a.y);
    exact::lemma_regroup(two, a.x, a.sx);
    exact::lemma_regroup(two, a.y, a.sy);
}

/// A multiple of the radius's slope, by coordinate.
proof fn lemma_radial(a: At, k: real)
    ensures
        k * radius_slope(a) == (((2 as real) * a.x) * k) * a.sx + (((2 as real) * a.y) * k) * a.sy,
{
    let two = 2 as real;
    lemma_radius_slope(a);
    exact::lemma_in_front_of_two(k, two * a.x, a.sx, two * a.y, a.sy);
    exact::lemma_commute(k, two * a.x);
    exact::lemma_commute(k, two * a.y);
}

pub open spec fn d00(a: At) -> real {
    a.rr + (((2 as real) * a.x) * a.x) * a.rrp + ((2 as real) * a.p1) * a.y + ((6 as real) * a.p2)
        * a.x
}

pub open spec fn d01(a: At) -> real {
    (((2 as real) * a.x) * a.y) * a.rrp + ((2 as real) * a.p1) * a.x + ((2 as real) * a.p2) * a.y
}

pub open spec fn d11(a: At) -> real {
    a.rr + (((2 as real) * a.y) * a.y) * a.rrp + ((6 as real) * a.p1) * a.y + ((2 as real) * a.p2)
        * a.x
}

pub open spec fn d00_dx(a: At) -> real {
    ((2 as real) * a.x) * a.rrp + ((4 as real) * a.x) * a.rrp + (((2 as real) * a.x) * a.x) * (((
    2 as real) * a.x) * a.rrpp) + (6 as real) * a.p2
}

pub open spec fn d00_dy(a: At) -> real {
    ((2 as real) * a.y) * a.rrp + (((2 as real) * a.x) * a.x) * (((2 as real) * a.y) * a.rrpp) + (
    2 as real) * a.p1
}

pub open spec fn d01_dx(a: At) -> real {
    ((2 as real) * a.y) * a.rrp + (((2 as real) * a.x) * a.y) * (((2 as real) * a.x) * a.rrpp) + (
    2 as real) * a.p1
}

pub open spec fn d01_dy(a: At) -> real {
    ((2 as real) * a.x) * a.rrp + (((2 as real) * a.x) * a.y) * (((2 as real) * a.y) * a.rrpp) + (
    2 as real) * a.p2
}

pub open spec fn d11_dx(a: At) -> real {
    ((2 as real) * a.x) * a.rrp + (((2 as real) * a.y) * a.y) * (((2 as real) * a.x) * a.rrpp) + (
    2 as real) * a.p2
}

pub open spec fn d11_dy(a: At) -> real {
    ((2 as real) * a.y) * a.rrp + ((4 as real) * a.y) * a.rrp + (((2 as real) * a.y) * a.y) * (((
    2 as real) * a.y) * a.rrpp) + (6 as real) * a.p1
}

/// A square of a coordinate times the derivative of the radial factor.
proof fn lemma_square_term(a: At, x: real, sx: real)
    ensures
        ({
            let two = 2 as real;
            let s = radius_slope(a);
            let xx = (two * x) * x;
            ((two * sx) * x + (two * x) * sx) * a.rrp + xx * (a.rrpp * s) == (((4 as real) * x)
                * a.rrp) * sx + (xx * ((two * a.x) * a.rrpp)) * a.sx + (xx * ((two * a.y)
                * a.rrpp)) * a.sy
        }),
{
    let (two, four) = (2 as real, 4 as real);
    let xx = (two * x) * x;
    lemma_radial(a, a.rrpp);
    exact::lemma_in_front_of_two(
        xx,
        (two * a.x) * a.rrpp,
        a.sx,
        (two * a.y) * a.rrpp,
        a.sy,
    );
    exact::lemma_regroup(two, sx, x);
    exact::lemma_regroup(two, x, sx);
    exact::lemma_commute(sx, x);
    exact::lemma_regroup(four, x, sx);
    exact::lemma_swap_last(four * x, sx, a.rrp);
}

/// A product of the coordinates times the derivative of the radial factor.
proof fn lemma_cross_term(a: At)
    ensures
        ({
            let two = 2 as real;
            let s = radius_slope(a);
            let xy = (two * a.x) * a.y;
            ((two * a.sx) * a.y + (two * a.x) * a.sy) * a.rrp + xy * (a.rrpp * s) == ((two * a.y)
                * a.rrp) * a.sx + ((two * a.x) * a.rrp) * a.sy + (xy * ((two * a.x) * a.rrpp))
                * a.sx + (xy * ((two * a.y) * a.rrpp)) * a.sy
        }),
{
    let two = 2 as real;
    let xy = (two * a.x) * a.y;
    lemma_radial(a, a.rrpp);
    exact::lemma_in_front_of_two(
        xy,
        (two * a.x) * a.rrpp,
        a.sx,
        (two * a.y) * a.rrpp,
        a.sy,
    );
    exact::lemma_swap_last(two, a.sx, a.y);
    exact::lemma_factor((two * a.y) * a.sx, (two * a.x) * a.sy, a.rrp);
    exact::lemma_swap_last(two * a.y, a.sx, a.rrp);
    exact::lemma_swap_last(two * a.x, a.sy, a.rrp);
}

proof fn lemma_sum_of_four(a: real, b: real, c: real, d: real, s: real)
    ensures
        (a + b + c + d) * s == a * s + b * s + c * s + d * s,
{
    lemma_sum_of_three(a, b, c, s);
    exact::lemma_factor(a + b + c, d, s);
}

/// The entries of the distortion's Jacobian move by their derivatives.
pub(crate) proof fn lemma_entries_move(a: At)
    ensures
        ({
            let (two, six) = (2 as real, 6 as real);
            let s = radius_slope(a);
            let (drr, drrp) = (a.rrp * s, a.rrpp * s);
            let (xx, xy, yy) = ((two * a.x) * a.x, (two * a.x) * a.y, (two * a.y) * a.y);
            &&& drr + (((two * a.sx) * a.x + (two * a.x) * a.sx) * a.rrp + xx * drrp) + (two * a.p1)
                * a.sy + (six * a.p2) * a.sx == d00_dx(a) * a.sx + d00_dy(a) * a.sy
            &&& (((two * a.sx) * a.y + (two * a.x) * a.sy) * a.rrp + xy * drrp) + (two * a.p1)
                * a.sx + (two * a.p2) * a.sy == d01_dx(a) * a.sx + d01_dy(a) * a.sy
            &&& drr + (((two * a.sy) * a.y + (two * a.y) * a.sy) * a.rrp + yy * drrp) + (six * a.p1)
                * a.sy + (two * a.p2) * a.sx == d11_dx(a) * a.sx + d11_dy(a) * a.sy
        }),
{
    let (two, four, six) = (2 as real, 4 as real, 6 as real);
    let (rx, ry) = ((two * a.x) * a.rrp, (two * a.y) * a.rrp);
    let (rpx, rpy) = ((two * a.x) * a.rrpp, (two * a.y) * a.rrpp);
    let (xx, xy, yy) = ((two * a.x) * a.x, (two * a.x) * a.y, (two * a.y) * a.y);
    lemma_radial(a, a.rrp);
    lemma_square_term(a, a.x, a.sx);
    lemma_square_term(a, a.y, a.sy);
    lemma_cross_term(a);
    lemma_sum_of_four(rx, (four * a.x) * a.rrp, xx * rpx, six * a.p2, a.sx);
    lemma_sum_of_three(ry, xx * rpy, two * a.p1, a.sy);
    lemma_sum_of_three(ry, xy * rpx, two * a.p1, a.sx);
    lemma_sum_of_three(rx, xy * rpy, two * a.p2, a.sy);
    lemma_sum_of_three(rx, yy * rpx, two * a.p2, a.sx);
    lemma_sum_of_four(ry, (four * a.y) * a.rrp, yy * rpy, six * a.p1, a.sy);
}

/// The distorted coordinates move by the entries of the Jacobian.
pub(crate) proof fn lemma_coordinates_move(a: At)
    ensures
        ({
            let two = 2 as real;
            let s = radius_slope(a);
            let drr = a.rrp * s;
            let dxy = a.sx * a.y + a.x * a.sy;
            let (dx2, dy2) = (a.sx * a.x + a.x * a.sx, a.sy * a.y + a.y * a.sy);
            &&& (a.sx * a.rr + a.x * drr) + (two * a.p1) * dxy + a.p2 * (s + two * dx2) == d00(a)
                * a.sx + d01(a) * a.sy
            &&& (a.sy * a.rr + a.y * drr) + (two * a.p2) * dxy + a.p1 * (s + two * dy2) == d01(a)
                * a.sx + d11(a) * a.sy
        }),
{
    let two = 2 as real;
    lemma_coordinate(a, a.x, a.sx, a.y, a.sy, a.p1, a.p2);
    lemma_coordinate(a, a.y, a.sy, a.x, a.sx, a.p2, a.p1);
    // The second coordinate's entries are those of the first with the
    // coordinates exchanged.
    exact::lemma_commute(a.sx, a.y);
    exact::lemma_commute(a.x, a.sy);
    exact::lemma_commute(a.sy, a.x);
    exact::lemma_commute(a.y, a.sx);
    exact::lemma_swap_last(two, a.x, a.y);
}

/// One distorted coordinate: `x` is its own and `y` the other one.
proof fn lemma_coordinate(
    a: At,
    x: real,
    sx: real,
    y: real,
    sy: real,
    p: real,
    q: real,
)
    requires
        (x, sx, y, sy) == (a.x, a.sx, a.y, a.sy) || (x, sx, y, sy) == (a.y, a.sy, a.x, a.sx),
    ensures
        ({
            let (two, six) = (2 as real, 6 as real);
            let s = radius_slope(a);
            let dxy = sx * y + x * sy;
            (sx * a.rr + x * (a.rrp * s)) + (two * p) * dxy + q * (s + two * (sx * x + x * sx)) == (
            a.rr + ((two * x) * x) * a.rrp + (two * p) * y + (six * q) * x) * sx + (((two * x) * y)
                * a.rrp + (two * p) * x + (two * q) * y) * sy
        }),
{
    let (two, six) = (2 as real, 6 as real);
    let s = radius_slope(a);
    exact::lemma_commute(sx, x);
    exact::lemma_commute(sy, y);
    exact::lemma_regroup(two, x, sx);
    exact::lemma_regroup(two, y, sy);
    lemma_radius_slope(a);
    assert(s == (two * x) * sx + (two * y) * sy);
    exact::lemma_commute(sx, a.rr);
    // The radial factor.
    let k = x * a.rrp;
    exact::lemma_regroup(x, a.rrp, s);
    exact::lemma_in_front_of_two(k, two * x, sx, two * y, sy);
    assert(k * (two * x) == ((two * x) * x) * a.rrp && k * (two * y) == ((two * x) * y) * a.rrp) by {
        exact::lemma_commute(k, two * x);
        exact::lemma_regroup(two * x, x, a.rrp);
        exact::lemma_commute(k, two * y);
        exact::lemma_swap_last(two, x, y);
        exact::lemma_regroup(two * y, x, a.rrp);
    }
    // The product of the coordinates.
    exact::lemma_commute(sx, y);
    exact::lemma_in_front_of_two(two * p, y, sx, x, sy);
    // The square of the coordinate.
    assert(s + two * (sx * x + x * sx) == (six * x) * sx + (two * y) * sy) by {
        exact::lemma_regroup(six, x, sx);
    }
    exact::lemma_in_front_of_two(q, six * x, sx, two * y, sy);
    assert(q * (six * x) == (six * q) * x && q * (two * y) == (two * q) * y) by {
        exact::lemma_swap_first(q, six, x);
        exact::lemma_regroup(six, q, x);
        exact::lemma_swap_first(q, two, y);
        exact::lemma_regroup(two, q, y);
    }
    lemma_sum_of_four(a.rr, ((two * x) * x) * a.rrp, (two * p) * y, (six * q) * x, sx);
    lemma_sum_of_three(((two * x) * y) * a.rrp, (two * p) * x, (two * q) * y, sy);
}

/// A lens stands still.
pub open spec fn lens_rests<S: Geometric>(
    slope: spec_fn(S) -> real,
    p: RadialTangential8Params<S>,
) -> bool {
    &&& slope::of(slope, p.k1) == 0 as real
    &&& slope::of(slope, p.k2) == 0 as real
    &&& slope::of(slope, p.k3) == 0 as real
    &&& slope::of(slope, p.k4) == 0 as real
    &&& slope::of(slope, p.k5) == 0 as real
    &&& slope::of(slope, p.k6) == 0 as real
    &&& slope::of(slope, p.p1) == 0 as real
    &&& slope::of(slope, p.p2) == 0 as real
}

/// A cubic in the squared radius.
pub open spec fn cubic(k1: real, k2: real, k3: real, r2: real) -> real {
    (1 as real) + k1 * r2 + k2 * (r2 * r2) + k3 * ((r2 * r2) * r2)
}

/// The derivative of a cubic in the squared radius.
pub open spec fn cubic_slope(k1: real, k2: real, k3: real, r2: real) -> real {
    k1 + ((2 as real) * k2) * r2 + ((3 as real) * k3) * (r2 * r2)
}

/// The divisor of the radial factor at a normalized point.
pub open spec fn divisor<S: Geometric>(
    value: spec_fn(S) -> real,
    x: real,
    y: real,
    p: RadialTangential8Params<S>,
) -> real {
    cubic(exact::of(value, p.k4), exact::of(value, p.k5), exact::of(value, p.k6), x * x + y * y)
}

/// The numbers of a lens at a normalized point that moves.
pub open spec fn lens_at<S: Geometric>(
    value: spec_fn(S) -> real,
    p: RadialTangential8Params<S>,
    x: real,
    y: real,
    sx: real,
    sy: real,
) -> At {
    let (two, six) = (2 as real, 6 as real);
    let r2 = x * x + y * y;
    let (k1, k2, k3) = (exact::of(value, p.k1), exact::of(value, p.k2), exact::of(value, p.k3));
    let (k4, k5, k6) = (exact::of(value, p.k4), exact::of(value, p.k5), exact::of(value, p.k6));
    let (n, d) = (cubic(k1, k2, k3, r2), cubic(k4, k5, k6, r2));
    let (np, dnp) = (cubic_slope(k1, k2, k3, r2), cubic_slope(k4, k5, k6, r2));
    let (npp, dnpp) = (two * k2 + (six * k3) * r2, two * k5 + (six * k6) * r2);
    let i = (1 as real) / d;
    let i2 = i * i;
    let i3 = i2 * i;
    At {
        x,
        y,
        sx,
        sy,
        p1: exact::of(value, p.p1),
        p2: exact::of(value, p.p2),
        rr: n * i,
        rrp: (np * d - n * dnp) * i2,
        rrpp: ((npp * d) * d - ((two * np) * d) * dnp - (n * dnpp) * d + ((two * n) * dnp) * dnp)
            * i3,
    }
}

/// The entries of the distortion's Jacobian, as the forward pass computes them,
/// with the radial factor before them.
pub open spec fn forward_entries<S: Geometric>(
    x: Num<S>,
    y: Num<S>,
    p: RadialTangential8Params<S>,
) -> (Num<S>, Num<S>, Num<S>, Num<S>, Num<S>) {
    let lit = |text: &'static str| Num { value: scalar::literal::<S>(text) };
    let r2 = x * x + y * y;
    let r4 = r2 * r2;
    let r6 = r4 * r2;
    let n_poly = lit("1.0") + p.k1 * r2 + p.k2 * r4 + p.k3 * r6;
    let dn_poly = lit("1.0") + p.k4 * r2 + p.k5 * r4 + p.k6 * r6;
    let np_poly = p.k1 + lit("2.0") * p.k2 * r2 + lit("3.0") * p.k3 * r4;
    let dnp_poly = p.k4 + lit("2.0") * p.k5 * r2 + lit("3.0") * p.k6 * r4;
    let inv_dn = lit("1.0") / dn_poly;
    let inv_dn2 = inv_dn * inv_dn;
    let rr = n_poly * inv_dn;
    let rrp = (np_poly * dn_poly - n_poly * dnp_poly) * inv_dn2;
    (
        rr,
        rrp,
        rr + lit("2.0") * x * x * rrp + lit("2.0") * p.p1 * y + lit("6.0") * p.p2 * x,
        lit("2.0") * x * y * rrp + lit("2.0") * p.p1 * x + lit("2.0") * p.p2 * y,
        rr + lit("2.0") * y * y * rrp + lit("6.0") * p.p1 * y + lit("2.0") * p.p2 * x,
    )
}

pub(crate) proof fn lemma_inverse(z: real)
    by (nonlinear_arith)
    requires
        z != 0 as real,
    ensures
        z * ((1 as real) / z) == 1 as real,
{
}

/// The slope of an inverse, from that of its number.
pub(crate) proof fn lemma_inverse_slope<S: Geometric>(
    value: spec_fn(S) -> real,
    slope: spec_fn(S) -> real,
    d: Num<S>,
)
    requires
        slope::is_slope(value, slope),
        exact::of(value, d) != 0 as real,
    ensures
        ({
            let inverse = Num { value: scalar::literal::<S>("1.0") } / d;
            let i = exact::of(value, inverse);
            &&& i == (1 as real) / exact::of(value, d)
            &&& exact::of(value, d) * i == 1 as real
            &&& slope::of(slope, inverse) == -((i * i) * slope::of(slope, d))
        }),
{
    let (z, dz) = (exact::of(value, d), slope::of(slope, d));
    let i = (1 as real) / z;
    lemma_inverse(z);
    projection::lemma_quotient((0 as real) - i * dz, z);
    exact::lemma_swap_last(i, dz, i);
    exact::lemma_opposite(i * dz, i);
}

/// A cubic of the formulas and its slope.
proof fn lemma_cubic_moves<S: Geometric>(
    value: spec_fn(S) -> real,
    slope: spec_fn(S) -> real,
    r2: Num<S>,
    k1: Num<S>,
    k2: Num<S>,
    k3: Num<S>,
)
    requires
        slope::is_slope(value, slope),
        slope::of(slope, k1) == 0 as real,
        slope::of(slope, k2) == 0 as real,
        slope::of(slope, k3) == 0 as real,
    ensures
        ({
            let lit = |text: &'static str| Num { value: scalar::literal::<S>(text) };
            let (two, six) = (2 as real, 6 as real);
            let r4 = r2 * r2;
            let r6 = r4 * r2;
            let n = lit("1.0") + k1 * r2 + k2 * r4 + k3 * r6;
            let np = k1 + lit("2.0") * k2 * r2 + lit("3.0") * k3 * r4;
            let (v1, v2, v3) = (exact::of(value, k1), exact::of(value, k2), exact::of(value, k3));
            let (r, s) = (exact::of(value, r2), slope::of(slope, r2));
            &&& exact::of(value, n) == cubic(v1, v2, v3, r)
            &&& slope::of(slope, n) == cubic_slope(v1, v2, v3, r) * s
            &&& exact::of(value, np) == cubic_slope(v1, v2, v3, r)
            &&& slope::of(slope, np) == (two * v2 + (six * v3) * r) * s
        }),
{
    slope::lemma_constants(value, slope);
    let (v1, v2, v3) = (exact::of(value, k1), exact::of(value, k2), exact::of(value, k3));
    let (r, s) = (exact::of(value, r2), slope::of(slope, r2));
    lemma_cubic_slope(v1, v2, v3, r, s);
    lemma_quadratic_slope(v2, v3, r, s);
}

/// The radial factor and its derivative move by the derivatives of each.
proof fn lemma_radial_moves<S: Geometric>(
    value: spec_fn(S) -> real,
    slope: spec_fn(S) -> real,
    x: Num<S>,
    y: Num<S>,
    p: RadialTangential8Params<S>,
)
    requires
        slope::is_slope(value, slope),
        lens_rests(slope, p),
        divisor(value, exact::of(value, x), exact::of(value, y), p) != 0 as real,
    ensures
        ({
            let a = lens_at(
                value,
                p,
                exact::of(value, x),
                exact::of(value, y),
                slope::of(slope, x),
                slope::of(slope, y),
            );
            let lit = |text: &'static str| Num { value: scalar::literal::<S>(text) };
            let s = radius_slope(a);
            let f = forward_entries(x, y, p);
            let r2 = x * x + y * y;
            let r4 = r2 * r2;
            let r6 = r4 * r2;
            let ratio = (lit("1.0") + p.k1 * r2 + p.k2 * r4 + p.k3 * r6) / (lit("1.0") + p.k4 * r2
                + p.k5 * r4 + p.k6 * r6);
            &&& slope::of(slope, r2) == s
            &&& exact::of(value, f.0) == a.rr
            &&& exact::of(value, f.1) == a.rrp
            &&& slope::of(slope, f.0) == a.rrp * s
            &&& slope::of(slope, f.1) == a.rrpp * s
            &&& exact::of(value, ratio) == a.rr
            &&& slope::of(slope, ratio) == a.rrp * s
        }),
{
    slope::lemma_constants(value, slope);
    let lit = |text: &'static str| Num { value: scalar::literal::<S>(text) };
    let r2 = x * x + y * y;
    let r4 = r2 * r2;
    let r6 = r4 * r2;
    lemma_cubic_moves(value, slope, r2, p.k1, p.k2, p.k3);
    lemma_cubic_moves(value, slope, r2, p.k4, p.k5, p.k6);
    let n_poly = lit("1.0") + p.k1 * r2 + p.k2 * r4 + p.k3 * r6;
    let dn_poly = lit("1.0") + p.k4 * r2 + p.k5 * r4 + p.k6 * r6;
    let np_poly = p.k1 + lit("2.0") * p.k2 * r2 + lit("3.0") * p.k3 * r4;
    let dnp_poly = p.k4 + lit("2.0") * p.k5 * r2 + lit("3.0") * p.k6 * r4;
    let (two, six) = (2 as real, 6 as real);
    let r = exact::of(value, r2);
    let s = slope::of(slope, r2);
    let (n, d) = (exact::of(value, n_poly), exact::of(value, dn_poly));
    let (np, dnp) = (exact::of(value, np_poly), exact::of(value, dnp_poly));
    let npp = two * exact::of(value, p.k2) + (six * exact::of(value, p.k3)) * r;
    let dnpp = two * exact::of(value, p.k5) + (six * exact::of(value, p.k6)) * r;
    lemma_inverse_slope(value, slope, dn_poly);
    let i = (1 as real) / d;
    lemma_ratio_slope(n, d, np, dnp, i, s);
    lemma_second_slope(n, d, np, dnp, npp, dnpp, i, s);
    projection::lemma_quotient(n, d);
    projection::lemma_quotient(np * s - (n / d) * (dnp * s), d);
}

/// The entries of the forward pass and their slopes.
pub(crate) proof fn lemma_forward_entries<S: Geometric>(
    value: spec_fn(S) -> real,
    slope: spec_fn(S) -> real,
    x: Num<S>,
    y: Num<S>,
    p: RadialTangential8Params<S>,
)
    requires
        slope::is_slope(value, slope),
        lens_rests(slope, p),
        divisor(value, exact::of(value, x), exact::of(value, y), p) != 0 as real,
    ensures
        ({
            let a = lens_at(
                value,
                p,
                exact::of(value, x),
                exact::of(value, y),
                slope::of(slope, x),
                slope::of(slope, y),
            );
            let f = forward_entries(x, y, p);
            &&& exact::of(value, f.2) == d00(a)
            &&& exact::of(value, f.3) == d01(a)
            &&& exact::of(value, f.4) == d11(a)
            &&& slope::of(slope, f.2) == d00_dx(a) * a.sx + d00_dy(a) * a.sy
            &&& slope::of(slope, f.3) == d01_dx(a) * a.sx + d01_dy(a) * a.sy
            &&& slope::of(slope, f.4) == d11_dx(a) * a.sx + d11_dy(a) * a.sy
        }),
{
    slope::lemma_constants(value, slope);
    lemma_radial_moves(value, slope, x, y, p);
    let a = lens_at(
        value,
        p,
        exact::of(value, x),
        exact::of(value, y),
        slope::of(slope, x),
        slope::of(slope, y),
    );
    lemma_entries_move(a);
}

/// The distorted coordinates of the rational model.
pub open spec fn distorted<S: Geometric>(
    x: Num<S>,
    y: Num<S>,
    p: RadialTangential8Params<S>,
) -> (Num<S>, Num<S>) {
    let lit = |text: &'static str| Num { value: scalar::literal::<S>(text) };
    let x2 = x * x;
    let y2 = y * y;
    let r2 = x2 + y2;
    let r4 = r2 * r2;
    let r6 = r4 * r2;
    let d = (lit("1.0") + p.k1 * r2 + p.k2 * r4 + p.k3 * r6) / (lit("1.0") + p.k4 * r2 + p.k5 * r4
        + p.k6 * r6);
    let xy = x * y;
    (
        x * d + lit("2.0") * p.p1 * xy + p.p2 * (r2 + lit("2.0") * x2),
        y * d + lit("2.0") * p.p2 * xy + p.p1 * (r2 + lit("2.0") * y2),
    )
}

/// The slopes of the distorted coordinates.
pub(crate) proof fn lemma_distorted_moves<S: Geometric>(
    value: spec_fn(S) -> real,
    slope: spec_fn(S) -> real,
    x: Num<S>,
    y: Num<S>,
    p: RadialTangential8Params<S>,
)
    requires
        slope::is_slope(value, slope),
        lens_rests(slope, p),
        divisor(value, exact::of(value, x), exact::of(value, y), p) != 0 as real,
    ensures
        ({
            let a = lens_at(
                value,
                p,
                exact::of(value, x),
                exact::of(value, y),
                slope::of(slope, x),
                slope::of(slope, y),
            );
            let f = distorted(x, y, p);
            &&& slope::of(slope, f.0) == d00(a) * a.sx + d01(a) * a.sy
            &&& slope::of(slope, f.1) == d01(a) * a.sx + d11(a) * a.sy
        }),
{
    slope::lemma_constants(value, slope);
    lemma_radial_moves(value, slope, x, y, p);
    let a = lens_at(
        value,
        p,
        exact::of(value, x),
        exact::of(value, y),
        slope::of(slope, x),
        slope::of(slope, y),
    );
    lemma_coordinates_move(a);
}

/// The derivatives that the gradient is made of, in numbers.
pub(crate) proof fn lemma_distortion_values<S: Geometric>(
    value: spec_fn(S) -> real,
    x: Num<S>,
    y: Num<S>,
    p: RadialTangential8Params<S>,
    a: At,
)
    requires
        exact::is_exact(value),
        divisor(value, exact::of(value, x), exact::of(value, y), p) != 0 as real,
        a == lens_at(value, p, exact::of(value, x), exact::of(value, y), a.sx, a.sy),
    ensures
        ({
            let d = projection::distortion(x, y, p);
            &&& exact::of(value, d.d00) == d00(a)
            &&& exact::of(value, d.d01) == d01(a)
            &&& exact::of(value, d.d11) == d11(a)
            &&& exact::of(value, d.d00_dx) == d00_dx(a)
            &&& exact::of(value, d.d00_dy) == d00_dy(a)
            &&& exact::of(value, d.d01_dx) == d01_dx(a)
            &&& exact::of(value, d.d01_dy) == d01_dy(a)
            &&& exact::of(value, d.d11_dx) == d11_dx(a)
            &&& exact::of(value, d.d11_dy) == d11_dy(a)
        }),
{
    reveal(projection::spec_distortion);
    let r2 = a.x * a.x + a.y * a.y;
    let (k3, k6) = (exact::of(value, p.k3), exact::of(value, p.k6));
    exact::lemma_regroup(k3, r2, r2 * r2);
    exact::lemma_regroup(k6, r2, r2 * r2);
    exact::lemma_commute(r2, r2 * r2);
}

} // verus!
