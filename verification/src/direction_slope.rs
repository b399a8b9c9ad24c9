//! The gradient of a color by its view direction is the color's slope: the
//! partial derivatives of the basis functions, band by band.
use vstd::prelude::*;

use crate::exact;
use crate::num::{Geometric, Num, Vec3};
use crate::scalar;
use crate::sh;
use crate::sh_color;
use crate::sh_color::ShProducts;
use crate::slope;

verus! {

/// The literals of the gradient's formulas are the numbers that they denote.
pub open spec fn reads_factors<S: Geometric>(value: spec_fn(S) -> real) -> bool {
    &&& value(scalar::literal("-2.0")) == -(2 as real)
    &&& value(scalar::literal("-3.0")) == -(3 as real)
    &&& value(scalar::literal("-4.0")) == -(4 as real)
    &&& value(scalar::literal("-6.0")) == -(6 as real)
    &&& value(scalar::literal("-4.683326")) * (1_000_000 as real) == -(4_683_326 as real)
    &&& value(scalar::literal("-14.049978")) * (1_000_000 as real) == -(14_049_978 as real)
}

/// A direction moves: its coordinates and their slopes.
struct Moving {
    x: real,
    y: real,
    z: real,
    dx: real,
    dy: real,
    dz: real,
}

spec fn moving<S: Geometric>(
    value: spec_fn(S) -> real,
    slope: spec_fn(S) -> real,
    v: Vec3<S>,
) -> Moving {
    Moving {
        x: value(v.x.value),
        y: value(v.y.value),
        z: value(v.z.value),
        dx: slope(v.x.value),
        dy: slope(v.y.value),
        dz: slope(v.z.value),
    }
}

/// The slope of the power after `cn + i sn`, whose own slope is `k` times the
/// power `c + i s` before it.
proof fn lemma_next_power(x: real, y: real, dx: real, dy: real, c: real, s: real, k: real)
    ensures
        ({
            let cn = x * c - y * s;
            let sn = x * s + y * c;
            let dcn = (k * c) * dx - (k * s) * dy;
            let dsn = (k * s) * dx + (k * c) * dy;
            let next = k + (1 as real);
            &&& (dx * cn + x * dcn) - (dy * sn + y * dsn) == (next * cn) * dx - (next * sn) * dy
            &&& (dx * sn + x * dsn) + (dy * cn + y * dcn) == (next * sn) * dx + (next * cn) * dy
        }),
{
    let cn = x * c - y * s;
    let sn = x * s + y * c;
    let one = 1 as real;
    let (p, q) = (k * c, k * s);
    exact::lemma_in_front_of_two(x, p, dx, q, dy);
    exact::lemma_in_front_of_two(x, q, dx, p, dy);
    exact::lemma_in_front_of_two(y, p, dx, q, dy);
    exact::lemma_in_front_of_two(y, q, dx, p, dy);
    exact::lemma_swap_first(x, k, c);
    exact::lemma_swap_first(x, k, s);
    exact::lemma_swap_first(y, k, c);
    exact::lemma_swap_first(y, k, s);
    exact::lemma_in_front(k, x * c, y * s);
    exact::lemma_in_front(k, x * s, y * c);
    // Gathers what moves with `x` and what moves with `y`.
    exact::lemma_factor_difference(x * p, y * q, dx);
    exact::lemma_factor(x * q, y * p, dx);
    exact::lemma_factor(x * q, y * p, dy);
    exact::lemma_factor_difference(x * p, y * q, dy);
    exact::lemma_factor(k, one, cn);
    exact::lemma_factor(k, one, sn);
    exact::lemma_factor(k * cn, one * cn, dx);
    exact::lemma_factor(k * cn, one * cn, dy);
    exact::lemma_factor(k * sn, one * sn, dx);
    exact::lemma_factor(k * sn, one * sn, dy);
    exact::lemma_commute(dx, cn);
    exact::lemma_commute(dx, sn);
    exact::lemma_commute(dy, cn);
    exact::lemma_commute(dy, sn);
    assert(one * cn == cn && one * sn == sn);
}

/// The powers of `x + iy` and their slopes.
proof fn lemma_powers<S: Geometric>(
    value: spec_fn(S) -> real,
    slope: spec_fn(S) -> real,
    v: Vec3<S>,
)
    requires
        slope::is_slope(value, slope),
    ensures
        ({
            let m = moving(value, slope, v);
            let (two, three, four) = (2 as real, 3 as real, 4 as real);
            let (c1, s1) = (exact::of(value, sh_color::fc1(v)), exact::of(value, sh_color::fs1(v)));
            let (c2, s2) = (exact::of(value, sh_color::fc2(v)), exact::of(value, sh_color::fs2(v)));
            &&& slope::of(slope, sh_color::fc1(v)) == (two * m.x) * m.dx - (two * m.y) * m.dy
            &&& slope::of(slope, sh_color::fs1(v)) == (two * m.y) * m.dx + (two * m.x) * m.dy
            &&& slope::of(slope, sh_color::fc2(v)) == (three * c1) * m.dx - (three * s1) * m.dy
            &&& slope::of(slope, sh_color::fs2(v)) == (three * s1) * m.dx + (three * c1) * m.dy
            &&& slope::of(slope, sh_color::fc3(v)) == (four * c2) * m.dx - (four * s2) * m.dy
            &&& slope::of(slope, sh_color::fs3(v)) == (four * s2) * m.dx + (four * c2) * m.dy
        }),
{
    let m = moving(value, slope, v);
    let (x, y, dx, dy) = (m.x, m.y, m.dx, m.dy);
    let (one, two, three) = (1 as real, 2 as real, 3 as real);
    let (c1, s1) = (exact::of(value, sh_color::fc1(v)), exact::of(value, sh_color::fs1(v)));
    slope::lemma_constants(value, slope);
    // The first power moves by one.
    exact::lemma_commute(dx, x);
    exact::lemma_commute(dy, y);
    exact::lemma_regroup(two, x, dx);
    exact::lemma_regroup(two, y, dy);
    exact::lemma_regroup(two, x, y);
    exact::lemma_regroup(two, y, dx);
    exact::lemma_regroup(two, x, dy);
    exact::lemma_regroup(two, dx, y);
    exact::lemma_commute(dx, y);
    exact::lemma_commute(x, y);
    assert(s1 == x * y + y * x);
    lemma_next_power(x, y, dx, dy, x, y, two);
    lemma_next_power(x, y, dx, dy, c1, s1, three);
}

/// A slope by one coordinate, weighed.
proof fn lemma_weigh(a: real, x: real, dx: real)
    ensures
        a * (x * dx) == (x * a) * dx,
{
    exact::lemma_regroup(a, x, dx);
    exact::lemma_commute(a, x);
}

/// A slope by three coordinates, weighed.
proof fn lemma_weigh_three(a: real, x: real, dx: real, y: real, dy: real, z: real, dz: real)
    ensures
        a * (x * dx + y * dy + z * dz) == (x * a) * dx + (y * a) * dy + (z * a) * dz,
        a * (x * dx + y * dy) == (x * a) * dx + (y * a) * dy,
        a * (x * dx - y * dy) == (x * a) * dx - (y * a) * dy,
        a * (x * dx - y * dy + z * dz) == (x * a) * dx - (y * a) * dy + (z * a) * dz,
        a * (y * dy + z * dz) == (y * a) * dy + (z * a) * dz,
        a * (x * dx + z * dz) == (x * a) * dx + (z * a) * dz,
{
    let (p, q, r) = (x * dx, y * dy, z * dz);
    lemma_weigh(a, x, dx);
    lemma_weigh(a, y, dy);
    lemma_weigh(a, z, dz);
    exact::lemma_in_front(a, p + q, r);
    exact::lemma_in_front(a, p - q, r);
    exact::lemma_in_front(a, p, q);
    exact::lemma_in_front(a, q, r);
    exact::lemma_in_front(a, p, r);
}

proof fn lemma_gather_three(t1: real, t2: real, t3: real, d: real)
    ensures
        (t1 + t2 + t3) * d == t1 * d + t2 * d + t3 * d,
        (t1 + t2 - t3) * d == t1 * d + t2 * d - t3 * d,
{
    exact::lemma_factor(t1, t2, d);
    exact::lemma_factor(t1 + t2, t3, d);
    exact::lemma_factor_difference(t1 + t2, t3, d);
}

proof fn lemma_gather_five(t1: real, t2: real, t3: real, t4: real, t5: real, d: real)
    ensures
        (t1 + t2 + t3 + t4 + t5) * d == t1 * d + t2 * d + t3 * d + t4 * d + t5 * d,
{
    lemma_gather_three(t1, t2, t3, d);
    exact::lemma_factor(t1 + t2 + t3, t4, d);
    exact::lemma_factor(t1 + t2 + t3 + t4, t5, d);
}

/// What the bands' gradients are measured by: the gradient along the way that
/// the direction moves.
spec fn along<S: Geometric>(value: spec_fn(S) -> real, g: Vec3<S>, m: Moving) -> real {
    exact::of(value, g.x) * m.dx + exact::of(value, g.y) * m.dy + exact::of(value, g.z) * m.dz
}

/// The slope of a basis function, weighed.
spec fn part<S: Geometric>(
    value: spec_fn(S) -> real,
    slope: spec_fn(S) -> real,
    a: Num<S>,
    index: u32,
    v: Vec3<S>,
) -> real {
    exact::of(value, a) * slope::of(slope, sh_color::color_weight(index, v))
}

proof fn lemma_band_one<S: Geometric>(
    value: spec_fn(S) -> real,
    slope: spec_fn(S) -> real,
    a: ShProducts<S>,
    v: Vec3<S>,
)
    requires
        slope::is_slope(value, slope),
    ensures
        part(value, slope, a.n1, 1, v) + part(value, slope, a.z0, 2, v) + part(
            value,
            slope,
            a.p1,
            3,
            v,
        ) == along(value, sh_color::band1_gradient(a, v), moving(value, slope, v)),
{
    let m = moving(value, slope, v);
    let k = value(scalar::literal("0.4886025"));
    slope::lemma_constants(value, slope);
    lemma_weigh(exact::of(value, a.n1), -k, m.dy);
    lemma_weigh(exact::of(value, a.z0), k, m.dz);
    lemma_weigh(exact::of(value, a.p1), -k, m.dx);
}

/// The slope of a square.
proof fn lemma_square(k: real, z: real, dz: real)
    ensures
        k * (dz * z + z * dz) == (((2 as real) * k) * z) * dz,
{
    let two = 2 as real;
    exact::lemma_commute(dz, z);
    exact::lemma_in_front(k, z * dz, z * dz);
    exact::lemma_regroup(k, z, dz);
    exact::lemma_regroup(two, k, z);
    exact::lemma_regroup(two, k * z, dz);
}

proof fn lemma_band_two<S: Geometric>(
    value: spec_fn(S) -> real,
    slope: spec_fn(S) -> real,
    a: ShProducts<S>,
    v: Vec3<S>,
)
    requires
        slope::is_slope(value, slope),
    ensures
        part(value, slope, a.n2, 4, v) + part(value, slope, a.n1, 5, v) + part(
            value,
            slope,
            a.z0,
            6,
            v,
        ) + part(value, slope, a.p1, 7, v) + part(value, slope, a.p2, 8, v) == along(
            value,
            sh_color::band2_gradient(a, v),
            moving(value, slope, v),
        ),
{
    let m = moving(value, slope, v);
    let (x, y, z, dx, dy, dz) = (m.x, m.y, m.z, m.dx, m.dy, m.dz);
    let two = 2 as real;
    let f = value(scalar::literal("0.54627424"));
    let c = value(scalar::literal("-1.0925485"));
    let k = value(scalar::literal("0.9461747"));
    let (n2, n1, z0) = (exact::of(value, a.n2), exact::of(value, a.n1), exact::of(value, a.z0));
    let (p1, p2) = (exact::of(value, a.p1), exact::of(value, a.p2));
    slope::lemma_constants(value, slope);
    lemma_powers(value, slope, v);
    let (fx, fy) = ((two * f) * x, (two * f) * y);
    assert(f * (two * x) == fx) by {
        exact::lemma_swap_first(f, two, x);
        exact::lemma_regroup(two, f, x);
    }
    assert(f * (two * y) == fy) by {
        exact::lemma_swap_first(f, two, y);
        exact::lemma_regroup(two, f, y);
    }
    exact::lemma_in_front_of_two(f, two * y, dx, two * x, dy);
    exact::lemma_in_front_of_two(f, two * x, dx, two * y, dy);
    exact::lemma_swap_last(c, dz, y);
    exact::lemma_swap_last(c, dz, x);
    lemma_square(k, z, dz);
    let zero = 0 as real;
    lemma_weigh_three(n2, fy, dx, fx, dy, zero, dz);
    lemma_weigh_three(n1, zero, dx, c * z, dy, c * y, dz);
    lemma_weigh(z0, (two * k) * z, dz);
    lemma_weigh_three(p1, c * z, dx, zero, dy, c * x, dz);
    lemma_weigh_three(p2, fx, dx, fy, dy, zero, dz);
    lemma_gather_three(fy * n2, (c * z) * p1, fx * p2, dx);
    lemma_gather_three(fx * n2, (c * z) * n1, fy * p2, dy);
    lemma_gather_three((c * y) * n1, ((two * k) * z) * z0, (c * x) * p1, dz);
}

/// The slope of `z` times a quadratic in `z`.
proof fn lemma_cubic(k: real, c: real, z: real, dz: real)
    ensures
        dz * (k * (z * z) - c) + z * (k * (dz * z + z * dz)) == (((3 as real) * k) * (z * z) - c)
            * dz,
        dz * (k * (z * z) + c) + z * (k * (dz * z + z * dz)) == (((3 as real) * k) * (z * z) + c)
            * dz,
{
    let (two, three) = (2 as real, 3 as real);
    let q = k * (z * z);
    exact::lemma_commute(dz, q - c);
    exact::lemma_commute(dz, q + c);
    exact::lemma_factor_difference(q, c, dz);
    exact::lemma_factor(q, c, dz);
    // The other part is twice the quadratic's.
    exact::lemma_commute(dz, z);
    exact::lemma_in_front(k, z * dz, z * dz);
    exact::lemma_in_front(z, k * (z * dz), k * (z * dz));
    exact::lemma_swap_first(z, k, z * dz);
    exact::lemma_regroup(z, z, dz);
    exact::lemma_regroup(k, z * z, dz);
    exact::lemma_regroup(three, k, z * z);
    exact::lemma_factor_difference(three * q, c, dz);
    exact::lemma_factor(three * q, c, dz);
    exact::lemma_regroup(three, q, dz);
}

/// What band three adds, seen apart from its weights.
proof fn lemma_band_three_slopes<S: Geometric>(
    value: spec_fn(S) -> real,
    slope: spec_fn(S) -> real,
    v: Vec3<S>,
)
    requires
        slope::is_slope(value, slope),
    ensures
        ({
            let m = moving(value, slope, v);
            let (x, y, z, dx, dy, dz) = (m.x, m.y, m.z, m.dx, m.dy, m.dz);
            let (two, three, six) = (2 as real, 3 as real, 6 as real);
            let f = value(scalar::literal("-0.5900436"));
            let c = value(scalar::literal("1.4453057"));
            let b = value(scalar::literal("-2.285229"));
            let e = value(scalar::literal("1.8658817"));
            let flat = exact::of(value, sh_color::f0c(v.z));
            let c1 = x * x - y * y;
            let fxy = ((f * six) * x) * y;
            let fc = (f * three) * c1;
            let (gx, gy) = ((two * (c * z)) * x, (two * (c * z)) * y);
            let gxy = ((two * c) * x) * y;
            let by_z = (two * b) * z;
            let w = |i: u32| slope::of(slope, sh_color::color_weight(i, v));
            &&& w(9) == fxy * dx + fc * dy
            &&& w(10) == gy * dx + gx * dy + gxy * dz
            &&& w(11) == flat * dy + (by_z * y) * dz
            &&& w(12) == ((three * e) * (z * z) - value(scalar::literal("1.119529"))) * dz
            &&& w(13) == flat * dx + (by_z * x) * dz
            &&& w(14) == gx * dx - gy * dy + (c * c1) * dz
            &&& w(15) == fc * dx - fxy * dy
        }),
{
    let m = moving(value, slope, v);
    let (x, y, z, dx, dy, dz) = (m.x, m.y, m.z, m.dx, m.dy, m.dz);
    let (two, three, six) = (2 as real, 3 as real, 6 as real);
    let f = value(scalar::literal("-0.5900436"));
    let c = value(scalar::literal("1.4453057"));
    let b = value(scalar::literal("-2.285229"));
    let e = value(scalar::literal("1.8658817"));
    let (c1, s1) = (x * x - y * y, (two * x) * y);
    let xy = x * y;
    slope::lemma_constants(value, slope);
    lemma_powers(value, slope, v);
    exact::lemma_regroup(two, x, y);
    // The powers times a constant.
    exact::lemma_in_front_of_two(f, three * s1, dx, three * c1, dy);
    exact::lemma_in_front_of_two(f, three * c1, dx, three * s1, dy);
    exact::lemma_regroup(f, three, c1);
    assert(f * (three * s1) == ((f * six) * x) * y) by {
        assert(three * s1 == six * xy);
        exact::lemma_regroup(f, six, xy);
        exact::lemma_regroup(f * six, x, y);
    }
    // The squares times a multiple of `z`.
    let g = c * z;
    exact::lemma_in_front_of_two(g, two * y, dx, two * x, dy);
    exact::lemma_in_front_of_two(g, two * x, dx, two * y, dy);
    assert(g * (two * x) == (two * g) * x && g * (two * y) == (two * g) * y) by {
        exact::lemma_swap_first(g, two, x);
        exact::lemma_regroup(two, g, x);
        exact::lemma_swap_first(g, two, y);
        exact::lemma_regroup(two, g, y);
    }
    exact::lemma_swap_last(c, dz, s1);
    exact::lemma_swap_last(c, dz, c1);
    assert(c * s1 == ((two * c) * x) * y) by {
        exact::lemma_swap_first(c, two, xy);
        exact::lemma_regroup(two * c, x, y);
        exact::lemma_regroup(two, c, xy);
    }
    // What depends on `z` alone, times a coordinate.
    lemma_square(b, z, dz);
    exact::lemma_swap_last((two * b) * z, dz, x);
    exact::lemma_swap_last((two * b) * z, dz, y);
    lemma_cubic(e, value(scalar::literal("1.119529")), z, dz);
}

proof fn lemma_band_three<S: Geometric>(
    value: spec_fn(S) -> real,
    slope: spec_fn(S) -> real,
    a: ShProducts<S>,
    v: Vec3<S>,
)
    requires
        slope::is_slope(value, slope),
        reads_factors(value),
    ensures
        part(value, slope, a.n3, 9, v) + part(value, slope, a.n2, 10, v) + part(
            value,
            slope,
            a.n1,
            11,
            v,
        ) + part(value, slope, a.z0, 12, v) + part(value, slope, a.p1, 13, v) + part(
            value,
            slope,
            a.p2,
            14,
            v,
        ) + part(value, slope, a.p3, 15, v) == along(
            value,
            sh_color::band3_gradient(a, v),
            moving(value, slope, v),
        ),
{
    let m = moving(value, slope, v);
    let (x, y, z, dx, dy, dz) = (m.x, m.y, m.z, m.dx, m.dy, m.dz);
    let (zero, two, three, six) = (0 as real, 2 as real, 3 as real, 6 as real);
    let f = value(scalar::literal("-0.5900436"));
    let c = value(scalar::literal("1.4453057"));
    let b = value(scalar::literal("-2.285229"));
    let e = value(scalar::literal("1.8658817"));
    let flat = exact::of(value, sh_color::f0c(v.z));
    let c1 = x * x - y * y;
    let fxy = ((f * six) * x) * y;
    let fc = (f * three) * c1;
    let g = c * z;
    let (gx, gy) = ((two * g) * x, (two * g) * y);
    let gxy = ((two * c) * x) * y;
    let by_z = (two * b) * z;
    let d12 = (three * e) * (z * z) - value(scalar::literal("1.119529"));
    let (n3, n2, n1) = (exact::of(value, a.n3), exact::of(value, a.n2), exact::of(value, a.n1));
    let (z0, p1) = (exact::of(value, a.z0), exact::of(value, a.p1));
    let (p2, p3) = (exact::of(value, a.p2), exact::of(value, a.p3));
    lemma_band_three_slopes(value, slope, v);
    lemma_weigh_three(n3, fxy, dx, fc, dy, zero, dz);
    lemma_weigh_three(n2, gy, dx, gx, dy, gxy, dz);
    lemma_weigh_three(n1, zero, dx, flat, dy, by_z * y, dz);
    lemma_weigh(z0, d12, dz);
    lemma_weigh_three(p1, flat, dx, zero, dy, by_z * x, dz);
    lemma_weigh_three(p2, gx, dx, gy, dy, c * c1, dz);
    lemma_weigh_three(p3, fc, dx, fxy, dy, zero, dz);
    // The two terms that the gradient holds with their sign turned.
    assert((((-two) * g) * y) * p2 == -(gy * p2)) by {
        exact::lemma_opposite(two, g);
        exact::lemma_opposite(two * g, y);
        exact::lemma_opposite(gy, p2);
    }
    assert((((f * (-six)) * x) * y) * p3 == -(fxy * p3)) by {
        exact::lemma_in_front(f, six, zero);
        exact::lemma_opposite(f * six, x);
        exact::lemma_opposite((f * six) * x, y);
        exact::lemma_opposite(fxy, p3);
    }
    exact::lemma_opposite(gy * p2, dy);
    exact::lemma_opposite(fxy * p3, dy);
    lemma_gather_five(fxy * n3, gy * n2, flat * p1, gx * p2, fc * p3, dx);
    lemma_gather_five(fc * n3, gx * n2, flat * n1, -(gy * p2), -(fxy * p3), dy);
    lemma_gather_five(gxy * n2, (by_z * y) * n1, d12 * z0, (by_z * x) * p1, (c * c1) * p2, dz);
    let grad = sh_color::band3_gradient(a, v);
    assert(exact::of(value, grad.x) == fxy * n3 + gy * n2 + flat * p1 + gx * p2 + fc * p3);
    assert(exact::of(value, grad.y) == fc * n3 + gx * n2 + flat * n1 + (((-two) * g) * y) * p2 + (((
    f * (-six)) * x) * y) * p3);
    assert(exact::of(value, grad.z) == gxy * n2 + (by_z * y) * n1 + d12 * z0 + (by_z * x) * p1 + (c
        * c1) * p2);
}

/// The slope of the basis function of order zero in band four.
proof fn lemma_order_zero<S: Geometric>(
    value: spec_fn(S) -> real,
    slope: spec_fn(S) -> real,
    v: Vec3<S>,
)
    requires
        slope::is_slope(value, slope),
    ensures
        ({
            let z = value(v.z.value);
            let (two, three) = (2 as real, 3 as real);
            let k = value(scalar::literal("1.9843135"));
            let l = value(scalar::literal("1.0062306"));
            let d12 = (three * value(scalar::literal("1.8658817"))) * (z * z) - value(
                scalar::literal("1.119529"),
            );
            let d6 = (two * value(scalar::literal("0.9461747"))) * z;
            slope::of(slope, sh_color::color_weight(20, v)) == (k * (exact::of(
                value,
                sh_color::p_sh12(v.z),
            ) + z * d12) - l * d6) * slope(v.z.value)
        }),
{
    let (z, dz) = (value(v.z.value), slope(v.z.value));
    let (two, three) = (2 as real, 3 as real);
    let k = value(scalar::literal("1.9843135"));
    let l = value(scalar::literal("1.0062306"));
    let e = value(scalar::literal("1.8658817"));
    let q = value(scalar::literal("0.9461747"));
    let d12 = (three * e) * (z * z) - value(scalar::literal("1.119529"));
    let d6 = (two * q) * z;
    let p12 = exact::of(value, sh_color::p_sh12(v.z));
    slope::lemma_constants(value, slope);
    lemma_cubic(e, value(scalar::literal("1.119529")), z, dz);
    lemma_square(q, z, dz);
    assert(slope::of(slope, sh_color::p_sh12(v.z)) == d12 * dz);
    assert(slope::of(slope, sh_color::p_sh6(v.z)) == d6 * dz);
    // `k z p12 - l p6` moves by both factors of the product.
    exact::lemma_swap_last(k, dz, p12);
    exact::lemma_regroup(k * z, d12, dz);
    exact::lemma_regroup(k, z, d12);
    exact::lemma_in_front(k, p12, z * d12);
    exact::lemma_regroup(l, d6, dz);
    exact::lemma_factor(k * p12, k * (z * d12), dz);
    exact::lemma_factor_difference(k * (p12 + z * d12), l * d6, dz);
}

/// The slopes of the basis functions of band four, but for order zero.
proof fn lemma_band_four_slopes<S: Geometric>(
    value: spec_fn(S) -> real,
    slope: spec_fn(S) -> real,
    v: Vec3<S>,
)
    requires
        slope::is_slope(value, slope),
        reads_factors(value),
    ensures
        ({
            let m = moving(value, slope, v);
            let (x, y, z, dx, dy, dz) = (m.x, m.y, m.z, m.dx, m.dy, m.dz);
            let (two, three, four) = (2 as real, 3 as real, 4 as real);
            let h = value(scalar::literal("0.62583575")) * four;
            let b = value(scalar::literal("-1.7701308"));
            let t = (b * z) * three;
            let (c1, s1) = (exact::of(value, sh_color::fc1(v)), exact::of(value, sh_color::fs1(v)));
            let (c2, s2) = (exact::of(value, sh_color::fc2(v)), exact::of(value, sh_color::fs2(v)));
            let f1 = exact::of(value, sh_color::f1c(v.z));
            let f0 = exact::of(value, sh_color::f0d(v.z));
            let d1 = (two * value(scalar::literal("3.3116114"))) * z;
            let d0 = value(scalar::literal("-14.049978")) * (z * z) + value(
                scalar::literal("2.0071396"),
            );
            let w = |i: u32| slope::of(slope, sh_color::color_weight(i, v));
            &&& w(16) == (h * s2) * dx + (h * c2) * dy
            &&& w(17) == (t * s1) * dx + (t * c1) * dy + (b * s2) * dz
            &&& w(18) == ((f1 * two) * y) * dx + ((f1 * two) * x) * dy + (d1 * s1) * dz
            &&& w(19) == f0 * dy + (d0 * y) * dz
            &&& w(21) == f0 * dx + (d0 * x) * dz
            &&& w(22) == ((f1 * two) * x) * dx - ((f1 * two) * y) * dy + (d1 * c1) * dz
            &&& w(23) == (t * c1) * dx - (t * s1) * dy + (b * c2) * dz
            &&& w(24) == (h * c2) * dx - (h * s2) * dy
        }),
{
    let m = moving(value, slope, v);
    let (x, y, z, dx, dy, dz) = (m.x, m.y, m.z, m.dx, m.dy, m.dz);
    let (two, three, four) = (2 as real, 3 as real, 4 as real);
    let f3 = value(scalar::literal("0.62583575"));
    let b = value(scalar::literal("-1.7701308"));
    let g = b * z;
    let (c1, s1) = (exact::of(value, sh_color::fc1(v)), exact::of(value, sh_color::fs1(v)));
    let (c2, s2) = (exact::of(value, sh_color::fc2(v)), exact::of(value, sh_color::fs2(v)));
    let f1 = exact::of(value, sh_color::f1c(v.z));
    let k = value(scalar::literal("3.3116114"));
    let e = value(scalar::literal("-4.683326"));
    let d1 = (two * k) * z;
    let d0 = value(scalar::literal("-14.049978")) * (z * z) + value(scalar::literal("2.0071396"));
    slope::lemma_constants(value, slope);
    lemma_powers(value, slope, v);
    exact::lemma_in_front_of_two(f3, four * s2, dx, four * c2, dy);
    exact::lemma_in_front_of_two(f3, four * c2, dx, four * s2, dy);
    exact::lemma_regroup(f3, four, c2);
    exact::lemma_regroup(f3, four, s2);
    exact::lemma_in_front_of_two(g, three * s1, dx, three * c1, dy);
    exact::lemma_in_front_of_two(g, three * c1, dx, three * s1, dy);
    exact::lemma_regroup(g, three, c1);
    exact::lemma_regroup(g, three, s1);
    exact::lemma_swap_last(b, dz, s2);
    exact::lemma_swap_last(b, dz, c2);
    exact::lemma_in_front_of_two(f1, two * y, dx, two * x, dy);
    exact::lemma_in_front_of_two(f1, two * x, dx, two * y, dy);
    exact::lemma_regroup(f1, two, x);
    exact::lemma_regroup(f1, two, y);
    lemma_square(k, z, dz);
    exact::lemma_swap_last(d1, dz, s1);
    exact::lemma_swap_last(d1, dz, c1);
    lemma_cubic(e, value(scalar::literal("2.0071396")), z, dz);
    assert(three * e == value(scalar::literal("-14.049978")));
    assert(slope::of(slope, sh_color::f0d(v.z)) == d0 * dz);
    exact::lemma_swap_last(d0, dz, x);
    exact::lemma_swap_last(d0, dz, y);
}

proof fn lemma_gather_seven(
    t: (real, real, real, real, real, real, real),
    d: real,
)
    ensures
        (t.0 + t.1 + t.2 + t.3 + t.4 + t.5 + t.6) * d == t.0 * d + t.1 * d + t.2 * d + t.3 * d + t.4
            * d + t.5 * d + t.6 * d,
{
    lemma_gather_five(t.0, t.1, t.2, t.3, t.4, d);
    exact::lemma_factor(t.0 + t.1 + t.2 + t.3 + t.4, t.5, d);
    exact::lemma_factor(t.0 + t.1 + t.2 + t.3 + t.4 + t.5, t.6, d);
}

/// A product whose middle factor has its sign turned.
proof fn lemma_turned(a: real, n: real, b: real, c: real)
    ensures
        ((a * (-n)) * b) * c == -(((a * n) * b) * c),
{
    exact::lemma_in_front(a, n, n);
    exact::lemma_opposite(a * n, b);
    exact::lemma_opposite((a * n) * b, c);
}

proof fn lemma_band_four<S: Geometric>(
    value: spec_fn(S) -> real,
    slope: spec_fn(S) -> real,
    a: ShProducts<S>,
    v: Vec3<S>,
)
    requires
        slope::is_slope(value, slope),
        reads_factors(value),
    ensures
        part(value, slope, a.n4, 16, v) + part(value, slope, a.n3, 17, v) + part(
            value,
            slope,
            a.n2,
            18,
            v,
        ) + part(value, slope, a.n1, 19, v) + part(value, slope, a.z0, 20, v) + part(
            value,
            slope,
            a.p1,
            21,
            v,
        ) + part(value, slope, a.p2, 22, v) + part(value, slope, a.p3, 23, v) + part(
            value,
            slope,
            a.p4,
            24,
            v,
        ) == along(value, sh_color::band4_gradient(a, v), moving(value, slope, v)),
{
    let m = moving(value, slope, v);
    let (x, y, z, dx, dy, dz) = (m.x, m.y, m.z, m.dx, m.dy, m.dz);
    let (zero, two, three, four) = (0 as real, 2 as real, 3 as real, 4 as real);
    let f3 = value(scalar::literal("0.62583575"));
    let h = f3 * four;
    let b = value(scalar::literal("-1.7701308"));
    let g = b * z;
    let t = g * three;
    let (c1, s1) = (exact::of(value, sh_color::fc1(v)), exact::of(value, sh_color::fs1(v)));
    let (c2, s2) = (exact::of(value, sh_color::fc2(v)), exact::of(value, sh_color::fs2(v)));
    let f1 = exact::of(value, sh_color::f1c(v.z));
    let f0 = exact::of(value, sh_color::f0d(v.z));
    let d1 = (two * value(scalar::literal("3.3116114"))) * z;
    let d0 = value(scalar::literal("-14.049978")) * (z * z) + value(scalar::literal("2.0071396"));
    let d12 = (three * value(scalar::literal("1.8658817"))) * (z * z) - value(
        scalar::literal("1.119529"),
    );
    let d6 = (two * value(scalar::literal("0.9461747"))) * z;
    let d20 = value(scalar::literal("1.9843135")) * (exact::of(value, sh_color::p_sh12(v.z)) + z
        * d12) - value(scalar::literal("1.0062306")) * d6;
    let (n4, n3, n2) = (exact::of(value, a.n4), exact::of(value, a.n3), exact::of(value, a.n2));
    let (n1, z0, p1) = (exact::of(value, a.n1), exact::of(value, a.z0), exact::of(value, a.p1));
    let (p2, p3, p4) = (exact::of(value, a.p2), exact::of(value, a.p3), exact::of(value, a.p4));
    let (fx, fy) = ((f1 * two) * x, (f1 * two) * y);
    lemma_band_four_slopes(value, slope, v);
    lemma_order_zero(value, slope, v);
    lemma_weigh_three(n4, h * s2, dx, h * c2, dy, zero, dz);
    lemma_weigh_three(n3, t * s1, dx, t * c1, dy, b * s2, dz);
    lemma_weigh_three(n2, fy, dx, fx, dy, d1 * s1, dz);
    lemma_weigh_three(n1, zero, dx, f0, dy, d0 * y, dz);
    lemma_weigh(z0, d20, dz);
    lemma_weigh_three(p1, f0, dx, zero, dy, d0 * x, dz);
    lemma_weigh_three(p2, fx, dx, fy, dy, d1 * c1, dz);
    lemma_weigh_three(p3, t * c1, dx, t * s1, dy, b * c2, dz);
    lemma_weigh_three(p4, h * c2, dx, h * s2, dy, zero, dz);
    // The terms that the gradient holds with their sign turned.
    lemma_turned(f1, two, y, p2);
    lemma_turned(g, three, s1, p3);
    lemma_turned(f3, four, s2, p4);
    exact::lemma_opposite(fy * p2, dy);
    exact::lemma_opposite((t * s1) * p3, dy);
    exact::lemma_opposite((h * s2) * p4, dy);
    let by_x = (
        (h * s2) * n4,
        (t * s1) * n3,
        fy * n2,
        f0 * p1,
        fx * p2,
        (t * c1) * p3,
        (h * c2) * p4,
    );
    let by_y = (
        (h * c2) * n4,
        (t * c1) * n3,
        fx * n2,
        f0 * n1,
        -(fy * p2),
        -((t * s1) * p3),
        -((h * s2) * p4),
    );
    let by_z = (
        (b * s2) * n3,
        (d1 * s1) * n2,
        (d0 * y) * n1,
        d20 * z0,
        (d0 * x) * p1,
        (d1 * c1) * p2,
        (b * c2) * p3,
    );
    lemma_gather_seven(by_x, dx);
    lemma_gather_seven(by_y, dy);
    lemma_gather_seven(by_z, dz);
    let grad = sh_color::band4_gradient(a, v);
    assert(exact::of(value, grad.x) == by_x.0 + by_x.1 + by_x.2 + by_x.3 + by_x.4 + by_x.5
        + by_x.6);
    assert(exact::of(value, grad.y) == by_y.0 + by_y.1 + by_y.2 + by_y.3 + ((f1 * (-two)) * y) * p2
        + ((g * (-three)) * s1) * p3 + ((f3 * (-four)) * s2) * p4);
    assert(exact::of(value, grad.z) == by_z.0 + by_z.1 + by_z.2 + by_z.3 + by_z.4 + by_z.5
        + by_z.6);
}

/// The coefficients of a row and the color's gradient stand still.
pub open spec fn row_rests<S: Geometric>(
    slope: spec_fn(S) -> real,
    coeffs: Seq<S>,
    base: int,
    vc: Vec3<S>,
) -> bool {
    &&& forall|k: int| base <= k < base + 75 ==> slope(#[trigger] coeffs[k]) == 0 as real
    &&& slope::of(slope, vc.x) == 0 as real
    &&& slope::of(slope, vc.y) == 0 as real
    &&& slope::of(slope, vc.z) == 0 as real
}

/// One channel of a color that gets one more coefficient.
proof fn lemma_channel(dc: real, k: real, dw: real, g: real)
    ensures
        (dc + k * dw) * g == dc * g + (k * g) * dw,
{
    exact::lemma_factor(dc, k * dw, g);
    exact::lemma_swap_last(k, dw, g);
}

/// The slope of a color grows with each coefficient by that of its weight.
proof fn lemma_color_step<S: Geometric>(
    value: spec_fn(S) -> real,
    slope: spec_fn(S) -> real,
    coeffs: Seq<S>,
    base: int,
    n: int,
    v: Vec3<S>,
    vc: Vec3<S>,
)
    requires
        slope::is_slope(value, slope),
        row_rests(slope, coeffs, base, vc),
        1 <= n < 25,
    ensures
        slope::of(slope, sh_color::color_of(coeffs, base, n + 1, v).dot(vc)) == slope::of(
            slope,
            sh_color::color_of(coeffs, base, n, v).dot(vc),
        ) + exact::of(value, sh_color::coeff(coeffs, base, n).dot(vc)) * slope::of(
            slope,
            sh_color::color_weight(n as u32, v),
        ),
{
    slope::lemma_constants(value, slope);
    let before = sh_color::color_of(coeffs, base, n, v);
    let after = sh_color::color_of(coeffs, base, n + 1, v);
    let c = sh_color::coeff(coeffs, base, n);
    let w = sh_color::color_weight(n as u32, v);
    let dw = slope::of(slope, w);
    assert(after == before.plus(c.scale(w)));
    assert(slope(coeffs[base + 3 * n]) == 0 as real);
    assert(slope(coeffs[base + 3 * n + 1]) == 0 as real);
    assert(slope(coeffs[base + 3 * n + 2]) == 0 as real);
    let (kx, ky, kz) = (exact::of(value, c.x), exact::of(value, c.y), exact::of(value, c.z));
    let (gx, gy, gz) = (exact::of(value, vc.x), exact::of(value, vc.y), exact::of(value, vc.z));
    lemma_channel(slope::of(slope, before.x), kx, dw, gx);
    lemma_channel(slope::of(slope, before.y), ky, dw, gy);
    lemma_channel(slope::of(slope, before.z), kz, dw, gz);
    assert(slope::of(slope, after.dot(vc)) == (slope::of(slope, before.x) + kx * dw) * gx + (
    slope::of(slope, before.y) + ky * dw) * gy + (slope::of(slope, before.z) + kz * dw) * gz);
    lemma_gather_three(kx * gx, ky * gy, kz * gz, dw);
}

proof fn lemma_base_color_rests<S: Geometric>(
    value: spec_fn(S) -> real,
    slope: spec_fn(S) -> real,
    coeffs: Seq<S>,
    base: int,
    v: Vec3<S>,
    vc: Vec3<S>,
)
    requires
        slope::is_slope(value, slope),
        row_rests(slope, coeffs, base, vc),
    ensures
        slope::of(slope, sh_color::color_of(coeffs, base, 1, v).dot(vc)) == 0 as real,
{
    slope::lemma_constants(value, slope);
    assert(slope(coeffs[base + 3 * 0]) == 0 as real);
    assert(slope(coeffs[base + 3 * 0 + 1]) == 0 as real);
    assert(slope(coeffs[base + 3 * 0 + 2]) == 0 as real);
}

/// What one band adds to a color's slope.
proof fn lemma_band<S: Geometric>(
    value: spec_fn(S) -> real,
    slope: spec_fn(S) -> real,
    coeffs: Seq<S>,
    base: int,
    band: int,
    v: Vec3<S>,
    vc: Vec3<S>,
)
    requires
        slope::is_slope(value, slope),
        reads_factors(value),
        row_rests(slope, coeffs, base, vc),
        1 <= band <= 4,
    ensures
        slope::of(
            slope,
            sh_color::color_of(coeffs, base, sh::coeffs_of_degree(band), v).dot(vc),
        ) == slope::of(
            slope,
            sh_color::color_of(coeffs, base, sh::coeffs_of_degree(band - 1), v).dot(vc),
        ) + along(
            value,
            sh_color::band_gradient(coeffs, base, band, v, vc),
            moving(value, slope, v),
        ),
{
    let a = sh_color::band_products(coeffs, base, band, vc);
    let step = |n: int|
        slope::of(slope, sh_color::color_of(coeffs, base, n + 1, v).dot(vc)) == slope::of(
            slope,
            sh_color::color_of(coeffs, base, n, v).dot(vc),
        ) + exact::of(value, sh_color::coeff(coeffs, base, n).dot(vc)) * slope::of(
            slope,
            sh_color::color_weight(n as u32, v),
        );
    assert forall|n: int| 1 <= n < 25 implies #[trigger] step(n) by {
        lemma_color_step(value, slope, coeffs, base, n, v, vc);
    }
    assert(sh::coeffs_of_degree(0) == 1 && sh::coeffs_of_degree(1) == 4 && sh::coeffs_of_degree(2)
        == 9 && sh::coeffs_of_degree(3) == 16 && sh::coeffs_of_degree(4) == 25)
        by (nonlinear_arith);
    assert(2 * 2 == 4 && 3 * 3 == 9 && 4 * 4 == 16);
    let product = |m: int| sh_color::band_product(coeffs, base, band, m, vc);
    if band == 1 {
        assert(product(-1) == sh_color::coeff(coeffs, base, 1).dot(vc));
        assert(product(0) == sh_color::coeff(coeffs, base, 2).dot(vc));
        assert(product(1) == sh_color::coeff(coeffs, base, 3).dot(vc));
        assert(step(1) && step(2) && step(3));
        lemma_band_one(value, slope, a, v);
    } else if band == 2 {
        assert forall|m: int| -2 <= m <= 2 implies #[trigger] product(m) == sh_color::coeff(
            coeffs,
            base,
            6 + m,
        ).dot(vc) by {}
        assert(product(-2) == a.n2 && product(-1) == a.n1 && product(0) == a.z0);
        assert(product(1) == a.p1 && product(2) == a.p2);
        assert(step(4) && step(5) && step(6) && step(7) && step(8));
        lemma_band_two(value, slope, a, v);
    } else if band == 3 {
        assert forall|m: int| -3 <= m <= 3 implies #[trigger] product(m) == sh_color::coeff(
            coeffs,
            base,
            12 + m,
        ).dot(vc) by {}
        assert(product(-3) == a.n3 && product(-2) == a.n2 && product(-1) == a.n1);
        assert(product(0) == a.z0 && product(1) == a.p1);
        assert(product(2) == a.p2 && product(3) == a.p3);
        assert(step(9) && step(10) && step(11) && step(12) && step(13) && step(14) && step(15));
        lemma_band_three(value, slope, a, v);
    } else {
        assert forall|m: int| -4 <= m <= 4 implies #[trigger] product(m) == sh_color::coeff(
            coeffs,
            base,
            20 + m,
        ).dot(vc) by {}
        assert(product(-4) == a.n4 && product(-3) == a.n3 && product(-2) == a.n2);
        assert(product(-1) == a.n1 && product(0) == a.z0 && product(1) == a.p1);
        assert(product(2) == a.p2 && product(3) == a.p3 && product(4) == a.p4);
        assert(step(16) && step(17) && step(18) && step(19) && step(20));
        assert(step(21) && step(22) && step(23) && step(24));
        lemma_band_four(value, slope, a, v);
    }
}

/// The gradient of the view direction is the slope of the color: however the
/// direction moves, the color, weighed by its gradient, moves by the gradient of
/// the direction along that way. With one coordinate moving at speed one and the
/// others at rest, this is the partial derivative by that coordinate.
pub proof fn direction_gradient_is_the_slope<S: Geometric>(
    value: spec_fn(S) -> real,
    slope: spec_fn(S) -> real,
    coeffs: Seq<S>,
    base: int,
    band: int,
    v: Vec3<S>,
    vc: Vec3<S>,
)
    requires
        slope::is_slope(value, slope),
        reads_factors(value),
        row_rests(slope, coeffs, base, vc),
        0 <= band <= 4,
    ensures
        ({
            let g = sh_color::direction_gradient(coeffs, base, band, v, vc);
            slope::of(
                slope,
                sh_color::color_of(coeffs, base, sh::coeffs_of_degree(band), v).dot(vc),
            ) == exact::of(value, g.x) * slope::of(slope, v.x) + exact::of(value, g.y)
                * slope::of(slope, v.y) + exact::of(value, g.z) * slope::of(slope, v.z)
        }),
    decreases band,
{
    let m = moving(value, slope, v);
    if band == 0 {
        lemma_base_color_rests(value, slope, coeffs, base, v, vc);
        let zero = 0 as real;
        exact::lemma_times_zero(zero, m.dx);
        exact::lemma_times_zero(zero, m.dy);
        exact::lemma_times_zero(zero, m.dz);
    } else {
        direction_gradient_is_the_slope(value, slope, coeffs, base, band - 1, v, vc);
        lemma_band(value, slope, coeffs, base, band, v, vc);
        let g = sh_color::direction_gradient(coeffs, base, band - 1, v, vc);
        let b = sh_color::band_gradient(coeffs, base, band, v, vc);
        exact::lemma_factor(exact::of(value, g.x), exact::of(value, b.x), m.dx);
        exact::lemma_factor(exact::of(value, g.y), exact::of(value, b.y), m.dy);
        exact::lemma_factor(exact::of(value, g.z), exact::of(value, b.z), m.dz);
    }
}

} // verus!
