//! What the color of a splat is, in plain numbers: the direction that it is seen
//! in, the basis functions of that direction, and the sum that they weigh.
use vstd::prelude::*;

use crate::distortion_slope;
use crate::exact;
use crate::num;
use crate::num::{Geometric, Num, Vec3};
use crate::projection;
use crate::scalar;
use crate::sh_color;
use crate::sh_grad_materialize;
use crate::sum_slope;

verus! {

/// From `camera`, `t` steps in the direction `d` lead to `mean`.
pub open spec fn leads<S: Geometric>(
    value: spec_fn(S) -> real,
    camera: Vec3<S>,
    d: Vec3<S>,
    t: real,
    mean: Vec3<S>,
) -> bool {
    &&& exact::of(value, camera.x) + t * exact::of(value, d.x) == exact::of(value, mean.x)
    &&& exact::of(value, camera.y) + t * exact::of(value, d.y) == exact::of(value, mean.y)
    &&& exact::of(value, camera.z) + t * exact::of(value, d.z) == exact::of(value, mean.z)
}

/// The square of the length of what leads from `a` to `b`.
pub open spec fn squared_distance<S: Geometric>(
    value: spec_fn(S) -> real,
    a: Vec3<S>,
    b: Vec3<S>,
) -> real {
    let dx = exact::of(value, b.x) - exact::of(value, a.x);
    let dy = exact::of(value, b.y) - exact::of(value, a.y);
    let dz = exact::of(value, b.z) - exact::of(value, a.z);
    dx * dx + dy * dy + dz * dz
}

/// The square of the length of a vector.
pub open spec fn squared_length<S: Geometric>(value: spec_fn(S) -> real, d: Vec3<S>) -> real {
    let (x, y, z) = (exact::of(value, d.x), exact::of(value, d.y), exact::of(value, d.z));
    x * x + y * y + z * z
}

proof fn lemma_not_negative(x: real)
    by (nonlinear_arith)
    ensures
        x * x >= 0 as real,
        x != 0 as real ==> x * x > 0 as real,
{
}

proof fn lemma_one_root(a: real, b: real)
    by (nonlinear_arith)
    requires
        a >= 0 as real,
        b >= 0 as real,
        a * a == b * b,
    ensures
        a == b,
{
}

/// A component over the length, and back.
proof fn lemma_component(x: real, r: real)
    requires
        r != 0 as real,
    ensures
        r * (x * ((1 as real) / r)) == x,
        (x * ((1 as real) / r)) * (x * ((1 as real) / r)) == (x * x) * (((1 as real) / r) * ((
        1 as real) / r)),
{
    let i = (1 as real) / r;
    distortion_slope::lemma_inverse(r);
    exact::lemma_swap_first(r, x, i);
    assert(x * (1 as real) == x);
    exact::lemma_regroup(x, i, x * i);
    exact::lemma_swap_first(i, x, i);
    exact::lemma_regroup(x, x, i * i);
}

/// The length that a view direction is divided by.
proof fn lemma_length<S: Geometric>(value: spec_fn(S) -> real, mean: Vec3<S>, camera: Vec3<S>)
    requires
        exact::is_exact(value),
        exact::takes_roots(value),
        squared_distance(value, camera, mean) > 0 as real,
    ensures
        ({
            let (dx, dy, dz) = (mean.x - camera.x, mean.y - camera.y, mean.z - camera.z);
            let r = exact::of(value, (dx * dx + dy * dy + dz * dz).root());
            r > 0 as real && r * r == squared_distance(value, camera, mean)
        }),
{
    let (dx, dy, dz) = (mean.x - camera.x, mean.y - camera.y, mean.z - camera.z);
    let n = dx * dx + dy * dy + dz * dz;
    assert(exact::of(value, n) == squared_distance(value, camera, mean));
    let r = exact::of(value, n.root());
    if r == 0 as real {
        exact::lemma_times_zero(r, r);
    }
}

/// The view direction of a splat apart from the camera has length one and leads
/// from the camera to the splat, by as many steps as their distance.
pub proof fn direction_leads_to_the_splat<S: Geometric>(
    value: spec_fn(S) -> real,
    mean: Vec3<S>,
    camera: Vec3<S>,
)
    requires
        exact::is_exact(value),
        exact::takes_roots(value),
        squared_distance(value, camera, mean) > 0 as real,
    ensures
        ({
            let d = sh_color::view_direction(mean, camera);
            &&& squared_length(value, d) == 1 as real
            &&& exists|t: real|
                t > 0 as real && t * t == squared_distance(value, camera, mean) && #[trigger] leads(
                    value,
                    camera,
                    d,
                    t,
                    mean,
                )
        }),
{
    let d = sh_color::view_direction(mean, camera);
    let (dx, dy, dz) = (mean.x - camera.x, mean.y - camera.y, mean.z - camera.z);
    let r = exact::of(value, (dx * dx + dy * dy + dz * dz).root());
    lemma_length(value, mean, camera);
    let (x, y, z) = (exact::of(value, dx), exact::of(value, dy), exact::of(value, dz));
    lemma_component(x, r);
    lemma_component(y, r);
    lemma_component(z, r);
    let i = (1 as real) / r;
    assert(exact::of(value, d.x) == x * i);
    assert(exact::of(value, d.y) == y * i);
    assert(exact::of(value, d.z) == z * i);
    assert(leads(value, camera, d, r, mean));
    exact::lemma_factor(x * x, y * y, i * i);
    exact::lemma_factor(x * x + y * y, z * z, i * i);
    assert((r * r) * (i * i) == 1 as real) by {
        distortion_slope::lemma_inverse(r);
        exact::lemma_regroup(r, r, i * i);
        exact::lemma_regroup(r, i, i);
        assert((1 as real) * i == i);
    }
}

/// Moving the camera and the splat by the same way leaves the direction as it
/// is.
pub proof fn direction_moves_along<S: Geometric>(
    value: spec_fn(S) -> real,
    mean: Vec3<S>,
    camera: Vec3<S>,
    moved_mean: Vec3<S>,
    moved_camera: Vec3<S>,
    way: (real, real, real),
)
    requires
        exact::is_exact(value),
        exact::takes_roots(value),
        squared_distance(value, camera, mean) > 0 as real,
        exact::of(value, moved_mean.x) == exact::of(value, mean.x) + way.0,
        exact::of(value, moved_mean.y) == exact::of(value, mean.y) + way.1,
        exact::of(value, moved_mean.z) == exact::of(value, mean.z) + way.2,
        exact::of(value, moved_camera.x) == exact::of(value, camera.x) + way.0,
        exact::of(value, moved_camera.y) == exact::of(value, camera.y) + way.1,
        exact::of(value, moved_camera.z) == exact::of(value, camera.z) + way.2,
    ensures
        ({
            let d = sh_color::view_direction(mean, camera);
            let moved = sh_color::view_direction(moved_mean, moved_camera);
            &&& exact::of(value, moved.x) == exact::of(value, d.x)
            &&& exact::of(value, moved.y) == exact::of(value, d.y)
            &&& exact::of(value, moved.z) == exact::of(value, d.z)
        }),
{
    let n = squared_distance(value, camera, mean);
    let x = exact::of(value, mean.x) - exact::of(value, camera.x);
    let y = exact::of(value, mean.y) - exact::of(value, camera.y);
    let z = exact::of(value, mean.z) - exact::of(value, camera.z);
    assert(exact::of(value, moved_mean.x) - exact::of(value, moved_camera.x) == x);
    assert(exact::of(value, moved_mean.y) - exact::of(value, moved_camera.y) == y);
    assert(exact::of(value, moved_mean.z) - exact::of(value, moved_camera.z) == z);
    assert(squared_distance(value, moved_camera, moved_mean) == n);
    lemma_length(value, mean, camera);
    lemma_length(value, moved_mean, moved_camera);
    let (dx, dy, dz) = (mean.x - camera.x, mean.y - camera.y, mean.z - camera.z);
    let (mx, my, mz) = (
        moved_mean.x - moved_camera.x,
        moved_mean.y - moved_camera.y,
        moved_mean.z - moved_camera.z,
    );
    lemma_one_root(
        exact::of(value, (dx * dx + dy * dy + dz * dz).root()),
        exact::of(value, (mx * mx + my * my + mz * mz).root()),
    );
}

/// The coefficients of the basis functions are the numbers that they denote.
pub open spec fn reads_basis<S: Geometric>(value: spec_fn(S) -> real) -> bool {
    &&& exact::reads(value, "0.2820948", 2_820_948, 10_000_000)
    &&& exact::reads(value, "0.4886025", 4_886_025, 10_000_000)
    &&& exact::reads(value, "0.54627424", 54_627_424, 100_000_000)
    &&& exact::reads(value, "-1.0925485", -10_925_485, 10_000_000)
    &&& exact::reads(value, "0.9461747", 9_461_747, 10_000_000)
    &&& exact::reads(value, "0.31539157", 31_539_157, 100_000_000)
    &&& exact::reads(value, "1.8658817", 18_658_817, 10_000_000)
    &&& exact::reads(value, "1.119529", 1_119_529, 1_000_000)
    &&& exact::reads(value, "-2.285229", -2_285_229, 1_000_000)
    &&& exact::reads(value, "0.4570458", 4_570_458, 10_000_000)
    &&& exact::reads(value, "-4.683326", -4_683_326, 1_000_000)
    &&& exact::reads(value, "2.0071396", 20_071_396, 10_000_000)
    &&& exact::reads(value, "3.3116114", 33_116_114, 10_000_000)
    &&& exact::reads(value, "0.47308735", 47_308_735, 100_000_000)
    &&& exact::reads(value, "-0.5900436", -5_900_436, 10_000_000)
    &&& exact::reads(value, "1.4453057", 14_453_057, 10_000_000)
    &&& exact::reads(value, "0.62583575", 62_583_575, 100_000_000)
    &&& exact::reads(value, "-1.7701308", -17_701_308, 10_000_000)
    &&& exact::reads(value, "1.9843135", 19_843_135, 10_000_000)
    &&& exact::reads(value, "-1.0062306", -10_062_306, 10_000_000)
    &&& exact::reads(value, "1.0062306", 10_062_306, 10_000_000)
}

/// The basis functions of bands up to four, as polynomials of the direction.
pub open spec fn basis_number(index: int, x: real, y: real, z: real) -> real {
    let (two, three) = (2 as real, 3 as real);
    let (four, six) = (4 as real, 6 as real);
    // Real and imaginary parts of the powers of `x + iy`.
    let (c2, s2) = (x * x - y * y, two * (x * y));
    let (c3, s3) = ((x * x) * x - three * (x * (y * y)), three * ((x * x) * y) - (y * y) * y);
    let (c4, s4) = (
        (x * x) * (x * x) - six * ((x * x) * (y * y)) + (y * y) * (y * y),
        four * (((x * x) * x) * y) - four * (x * ((y * y) * y)),
    );
    let tenth = |n: int, d: int| (n as real) / (d as real);
    let zonal2 = tenth(9_461_747, 10_000_000) * (z * z) - tenth(31_539_157, 100_000_000);
    let zonal3 = z * (tenth(18_658_817, 10_000_000) * (z * z) - tenth(1_119_529, 1_000_000));
    let first3 = tenth(-2_285_229, 1_000_000) * (z * z) + tenth(4_570_458, 10_000_000);
    let first4 = z * (tenth(-4_683_326, 1_000_000) * (z * z) + tenth(20_071_396, 10_000_000));
    let second4 = tenth(33_116_114, 10_000_000) * (z * z) - tenth(47_308_735, 100_000_000);
    if index == 0 {
        tenth(2_820_948, 10_000_000)
    } else if index == 1 {
        -(tenth(4_886_025, 10_000_000) * y)
    } else if index == 2 {
        tenth(4_886_025, 10_000_000) * z
    } else if index == 3 {
        -(tenth(4_886_025, 10_000_000) * x)
    } else if index == 4 {
        tenth(54_627_424, 100_000_000) * s2
    } else if index == 5 {
        tenth(-10_925_485, 10_000_000) * (z * y)
    } else if index == 6 {
        zonal2
    } else if index == 7 {
        tenth(-10_925_485, 10_000_000) * (z * x)
    } else if index == 8 {
        tenth(54_627_424, 100_000_000) * c2
    } else if index == 9 {
        tenth(-5_900_436, 10_000_000) * s3
    } else if index == 10 {
        tenth(14_453_057, 10_000_000) * (z * s2)
    } else if index == 11 {
        first3 * y
    } else if index == 12 {
        zonal3
    } else if index == 13 {
        first3 * x
    } else if index == 14 {
        tenth(14_453_057, 10_000_000) * (z * c2)
    } else if index == 15 {
        tenth(-5_900_436, 10_000_000) * c3
    } else if index == 16 {
        tenth(62_583_575, 100_000_000) * s4
    } else if index == 17 {
        tenth(-17_701_308, 10_000_000) * (z * s3)
    } else if index == 18 {
        second4 * s2
    } else if index == 19 {
        first4 * y
    } else if index == 20 {
        tenth(19_843_135, 10_000_000) * (z * zonal3) - tenth(10_062_306, 10_000_000) * zonal2
    } else if index == 21 {
        first4 * x
    } else if index == 22 {
        second4 * c2
    } else if index == 23 {
        tenth(-17_701_308, 10_000_000) * (z * c3)
    } else if index == 24 {
        tenth(62_583_575, 100_000_000) * c4
    } else {
        0 as real
    }
}

/// The powers of `x + iy`, multiplied out.
proof fn lemma_powers(x: real, y: real)
    ensures
        ({
            let (two, three, four, six) = (2 as real, 3 as real, 4 as real, 6 as real);
            let (c2, s2) = (x * x - y * y, (two * x) * y);
            let (c3, s3) = (x * c2 - y * s2, x * s2 + y * c2);
            &&& s2 == two * (x * y)
            &&& c3 == (x * x) * x - three * (x * (y * y))
            &&& s3 == three * ((x * x) * y) - (y * y) * y
            &&& x * c3 - y * s3 == (x * x) * (x * x) - six * ((x * x) * (y * y)) + (y * y) * (y * y)
            &&& x * s3 + y * c3 == four * (((x * x) * x) * y) - four * (x * ((y * y) * y))
        }),
{
    let (two, three, four, six) = (2 as real, 3 as real, 4 as real, 6 as real);
    let (x2, y2, xy) = (x * x, y * y, x * y);
    let (c2, s2) = (x2 - y2, (two * x) * y);
    exact::lemma_regroup(two, x, y);
    let (x3, y3) = (x2 * x, y2 * y);
    let (xyy, xxy) = (x * y2, x2 * y);
    // The cube.
    exact::lemma_in_front(x, x2, y2);
    exact::lemma_commute(x, x2);
    exact::lemma_swap_first(y, two, xy);
    exact::lemma_swap_first(y, x, y);
    let c3 = x * c2 - y * s2;
    assert(c3 == x3 - three * xyy);
    exact::lemma_swap_first(x, two, xy);
    exact::lemma_regroup(x, x, y);
    exact::lemma_in_front(y, x2, y2);
    exact::lemma_commute(y, x2);
    exact::lemma_commute(y, y2);
    let s3 = x * s2 + y * c2;
    assert(s3 == three * xxy - y3);
    // The fourth power.
    exact::lemma_in_front(x, x3, three * xyy);
    exact::lemma_swap_first(x, three, xyy);
    exact::lemma_commute(x, x3);
    exact::lemma_regroup(x2, x, x);
    exact::lemma_regroup(x, x, y2);
    exact::lemma_in_front(y, three * xxy, y3);
    exact::lemma_swap_first(y, three, xxy);
    exact::lemma_swap_first(y, x2, y);
    exact::lemma_commute(y, y3);
    exact::lemma_regroup(y2, y, y);
    exact::lemma_in_front(x, three * xxy, y3);
    exact::lemma_swap_first(x, three, xxy);
    exact::lemma_regroup(x, x2, y);
    exact::lemma_in_front(y, x3, three * xyy);
    exact::lemma_commute(y, x3);
    exact::lemma_swap_first(y, three, xyy);
    exact::lemma_swap_first(y, x, y2);
}

/// The basis functions are the polynomials of the spherical harmonics.
pub proof fn basis_functions_are_polynomials<S: Geometric>(
    value: spec_fn(S) -> real,
    index: u32,
    v: Vec3<S>,
)
    requires
        exact::is_exact(value),
        reads_basis(value),
    ensures
        ({
            let n = basis_number(
                index as int,
                exact::of(value, v.x),
                exact::of(value, v.y),
                exact::of(value, v.z),
            );
            &&& exact::of(value, sh_color::basis_value(index, v)) == n
            &&& exact::of(value, sh_color::color_weight(index, v)) == n
        }),
{
    let (x, y, z) = (exact::of(value, v.x), exact::of(value, v.y), exact::of(value, v.z));
    lemma_powers(x, y);
    let (c2, s2) = (exact::of(value, sh_color::fc1(v)), exact::of(value, sh_color::fs1(v)));
    let (c3, s3) = (exact::of(value, sh_color::fc2(v)), exact::of(value, sh_color::fs2(v)));
    let k = value(scalar::literal::<S>("0.4886025"));
    if index == 1 || index == 3 {
        exact::lemma_opposite(k, y);
        exact::lemma_opposite(k, x);
    } else if index == 5 || index == 7 {
        let k = value(scalar::literal::<S>("-1.0925485"));
        exact::lemma_regroup(k, z, y);
        exact::lemma_regroup(k, z, x);
    } else if index == 10 || index == 14 {
        let k = value(scalar::literal::<S>("1.4453057"));
        exact::lemma_regroup(k, z, s2);
        exact::lemma_regroup(k, z, c2);
    } else if index == 17 || index == 23 {
        let k = value(scalar::literal::<S>("-1.7701308"));
        exact::lemma_regroup(k, z, s3);
        exact::lemma_regroup(k, z, c3);
    } else if index == 20 {
        let k = value(scalar::literal::<S>("1.9843135"));
        exact::lemma_regroup(k, z, exact::of(value, sh_color::p_sh12(v.z)));
        let (a, b) = (
            value(scalar::literal::<S>("-1.0062306")),
            value(scalar::literal::<S>("1.0062306")),
        );
        let (n, tens): (int, int) = (10_062_306, 10_000_000);
        assert(a == ((-n) as real) / (tens as real));
        assert(b == (n as real) / (tens as real));
        projection::lemma_quotient((-n) as real, tens as real);
        projection::lemma_quotient(n as real, tens as real);
        exact::lemma_opposite(n as real, (1 as real) / (tens as real));
        assert(a == -b);
        exact::lemma_opposite(b, exact::of(value, sh_color::p_sh6(v.z)));
    }
}

/// A number of one color channel of a row's coefficients.
pub open spec fn coefficient<S: Geometric>(
    value: spec_fn(S) -> real,
    coeffs: Seq<S>,
    base: int,
    channel: int,
) -> spec_fn(int) -> real {
    |i: int| value(coeffs[base + 3 * i + channel])
}

/// What a row's first `n` coefficients of a channel add up to, each times its
/// basis function.
pub open spec fn color_number<S: Geometric>(
    value: spec_fn(S) -> real,
    coeffs: Seq<S>,
    base: int,
    n: int,
    v: Vec3<S>,
    channel: int,
) -> real {
    let (x, y, z) = (exact::of(value, v.x), exact::of(value, v.y), exact::of(value, v.z));
    sum_slope::rsum(
        |i: int| coefficient(value, coeffs, base, channel)(i) * basis_number(i, x, y, z),
        n,
    )
}

/// A color is the sum of its coefficients, each channel's times the basis
/// functions of the direction.
pub proof fn color_is_the_weighed_sum<S: Geometric>(
    value: spec_fn(S) -> real,
    coeffs: Seq<S>,
    base: int,
    n: int,
    v: Vec3<S>,
)
    requires
        exact::is_exact(value),
        reads_basis(value),
        1 <= n <= 25,
    ensures
        ({
            let color = sh_color::color_of(coeffs, base, n, v);
            &&& exact::of(value, color.x) == color_number(value, coeffs, base, n, v, 0)
            &&& exact::of(value, color.y) == color_number(value, coeffs, base, n, v, 1)
            &&& exact::of(value, color.z) == color_number(value, coeffs, base, n, v, 2)
        }),
    decreases n,
{
    basis_functions_are_polynomials(value, (n - 1) as u32, v);
    let (x, y, z) = (exact::of(value, v.x), exact::of(value, v.y), exact::of(value, v.z));
    let f = |channel: int|
        |i: int| coefficient(value, coeffs, base, channel)(i) * basis_number(i, x, y, z);
    assert(color_number(value, coeffs, base, n, v, 0) == sum_slope::rsum(f(0), n - 1) + f(0)(n - 1));
    assert(color_number(value, coeffs, base, n, v, 1) == sum_slope::rsum(f(1), n - 1) + f(1)(n - 1));
    assert(color_number(value, coeffs, base, n, v, 2) == sum_slope::rsum(f(2), n - 1) + f(2)(n - 1));
    if n > 1 {
        color_is_the_weighed_sum(value, coeffs, base, n - 1, v);
    } else {
        assert(sum_slope::rsum(f(0), 0) == 0 as real);
        assert(sum_slope::rsum(f(1), 0) == 0 as real);
        assert(sum_slope::rsum(f(2), 0) == 0 as real);
    }
}

/// The gradient of a coefficient is what it weighs in the color: its basis
/// function, times the gradient of its channel.
pub proof fn coefficient_gradients_are_weights<S: Geometric>(
    value: spec_fn(S) -> real,
    before: Seq<S>,
    after: Seq<S>,
    base: int,
    n: int,
    v: Vec3<S>,
    vc: Vec3<S>,
    i: int,
)
    requires
        exact::is_exact(value),
        reads_basis(value),
        sh_color::has_coeff_gradients(before, after, base, n, v, vc),
        0 <= i < n <= 25,
    ensures
        ({
            let b = basis_number(
                i,
                exact::of(value, v.x),
                exact::of(value, v.y),
                exact::of(value, v.z),
            );
            &&& coefficient(value, after, base, 0)(i) == exact::of(value, vc.x) * b
            &&& coefficient(value, after, base, 1)(i) == exact::of(value, vc.y) * b
            &&& coefficient(value, after, base, 2)(i) == exact::of(value, vc.z) * b
        }),
{
    basis_functions_are_polynomials(value, i as u32, v);
    assert(sh_color::coeff(after, base, i) == vc.scale(sh_color::basis_value(i as u32, v)));
}

/// An element of a gradient row is the basis function of its coefficient in the
/// direction of the row's splat, times the gradient of its channel. A row
/// without a splat is zero.
pub proof fn gradient_rows_hold_weights<S: Geometric>(
    value: spec_fn(S) -> real,
    sources: Seq<u32>,
    splats: spec_fn(int) -> int,
    elements: int,
    transforms: Seq<S>,
    v_combined: Seq<S>,
    camera: Vec3<S>,
    out: Seq<S>,
    row: int,
    i: int,
)
    requires
        exact::is_exact(value),
        reads_basis(value),
        num::deterministic::<S>(),
        sh_color::are_gradient_rows(
            sources,
            splats,
            elements,
            transforms,
            v_combined,
            camera,
            out,
        ),
        0 <= row < sources.len(),
        0 <= i < elements <= 75,
    ensures
        ({
            let at = 10 * splats(row);
            let mean = Vec3 {
                x: Num { value: transforms[at] },
                y: Num { value: transforms[at + 1] },
                z: Num { value: transforms[at + 2] },
            };
            let d = sh_color::view_direction(mean, camera);
            value(out[row * elements + i]) == if sources[row] == 0 {
                0 as real
            } else {
                basis_number(
                    i / 3,
                    exact::of(value, d.x),
                    exact::of(value, d.y),
                    exact::of(value, d.z),
                ) * value(v_combined[10 * (sources[row] - 1) + 5 + i % 3])
            }
        }),
{
    let at = 10 * splats(row);
    let mean = sh_color::vec3_at(transforms, at);
    let d = sh_color::view_direction(mean, camera);
    basis_functions_are_polynomials(value, (i / 3) as u32, d);
    let term = sh_grad_materialize::term_at(sources[row], i);
    assert(out[row * elements + i] == sh_color::term_value(
        term,
        transforms,
        splats(row),
        v_combined,
        camera,
    ).value);
    assert((i % 3) % 3 == i % 3);
}

} // verus!
