//! Spherical-harmonic color: the basis functions, the color of a row of
//! coefficients in a view direction, and the gradients of that color.
//!
//! Bases and weights follow Sloan, "Efficient Spherical Harmonic Evaluation"
//! (JCGT 2013).
use vstd::prelude::*;

use crate::counting;
use crate::num::{deterministic, lit, zero, Geometric, Num, Vec3};
use crate::sh;
use crate::sh::sh_color_component;
use crate::sh_grad_materialize;
use crate::sh_grad_materialize::ShGradTerm;

verus! {

pub open spec fn spec_fc1<S: Geometric>(v: Vec3<S>) -> Num<S> {
    v.x * v.x - v.y * v.y
}

/// The real part of the square of `x + iy`.
#[verifier::when_used_as_spec(spec_fc1)]
pub fn fc1<S: Geometric>(v: Vec3<S>) -> (out: Num<S>)
    ensures
        deterministic::<S>() ==> out == fc1(v),
{
    v.x * v.x - v.y * v.y
}

pub open spec fn spec_fs1<S: Geometric>(v: Vec3<S>) -> Num<S> {
    lit("2.0") * v.x * v.y
}

/// The imaginary part of the square of `x + iy`.
#[verifier::when_used_as_spec(spec_fs1)]
pub fn fs1<S: Geometric>(v: Vec3<S>) -> (out: Num<S>)
    ensures
        deterministic::<S>() ==> out == fs1(v),
{
    lit("2.0") * v.x * v.y
}

pub open spec fn spec_fc2<S: Geometric>(v: Vec3<S>) -> Num<S> {
    v.x * fc1(v) - v.y * fs1(v)
}

/// The real part of the cube of `x + iy`.
#[verifier::when_used_as_spec(spec_fc2)]
pub fn fc2<S: Geometric>(v: Vec3<S>) -> (out: Num<S>)
    ensures
        deterministic::<S>() ==> out == fc2(v),
{
    v.x * fc1(v) - v.y * fs1(v)
}

pub open spec fn spec_fs2<S: Geometric>(v: Vec3<S>) -> Num<S> {
    v.x * fs1(v) + v.y * fc1(v)
}

/// The imaginary part of the cube of `x + iy`.
#[verifier::when_used_as_spec(spec_fs2)]
pub fn fs2<S: Geometric>(v: Vec3<S>) -> (out: Num<S>)
    ensures
        deterministic::<S>() ==> out == fs2(v),
{
    v.x * fs1(v) + v.y * fc1(v)
}

pub open spec fn spec_fc3<S: Geometric>(v: Vec3<S>) -> Num<S> {
    v.x * fc2(v) - v.y * fs2(v)
}

/// The real part of the fourth power of `x + iy`.
#[verifier::when_used_as_spec(spec_fc3)]
pub fn fc3<S: Geometric>(v: Vec3<S>) -> (out: Num<S>)
    ensures
        deterministic::<S>() ==> out == fc3(v),
{
    v.x * fc2(v) - v.y * fs2(v)
}

pub open spec fn spec_fs3<S: Geometric>(v: Vec3<S>) -> Num<S> {
    v.x * fs2(v) + v.y * fc2(v)
}

/// The imaginary part of the fourth power of `x + iy`.
#[verifier::when_used_as_spec(spec_fs3)]
pub fn fs3<S: Geometric>(v: Vec3<S>) -> (out: Num<S>)
    ensures
        deterministic::<S>() ==> out == fs3(v),
{
    v.x * fs2(v) + v.y * fc2(v)
}

pub open spec fn spec_p_sh6<S: Geometric>(z: Num<S>) -> Num<S> {
    lit("0.9461747") * (z * z) - lit("0.31539157")
}

/// The basis function of band two that depends on `z` alone.
#[verifier::when_used_as_spec(spec_p_sh6)]
pub fn p_sh6<S: Geometric>(z: Num<S>) -> (out: Num<S>)
    ensures
        deterministic::<S>() ==> out == p_sh6(z),
{
    lit("0.9461747") * (z * z) - lit("0.31539157")
}

pub open spec fn spec_p_sh12<S: Geometric>(z: Num<S>) -> Num<S> {
    z * (lit("1.8658817") * (z * z) - lit("1.119529"))
}

/// The basis function of band three that depends on `z` alone.
#[verifier::when_used_as_spec(spec_p_sh12)]
pub fn p_sh12<S: Geometric>(z: Num<S>) -> (out: Num<S>)
    ensures
        deterministic::<S>() ==> out == p_sh12(z),
{
    z * (lit("1.8658817") * (z * z) - lit("1.119529"))
}

pub open spec fn spec_f0c<S: Geometric>(z: Num<S>) -> Num<S> {
    lit("-2.285229") * (z * z) + lit("0.4570458")
}

/// The factor of `x` and `y` in band three.
#[verifier::when_used_as_spec(spec_f0c)]
pub fn f0c<S: Geometric>(z: Num<S>) -> (out: Num<S>)
    ensures
        deterministic::<S>() ==> out == f0c(z),
{
    lit("-2.285229") * (z * z) + lit("0.4570458")
}

pub open spec fn spec_f0d<S: Geometric>(z: Num<S>) -> Num<S> {
    z * (lit("-4.683326") * (z * z) + lit("2.0071396"))
}

/// The factor of `x` and `y` in band four.
#[verifier::when_used_as_spec(spec_f0d)]
pub fn f0d<S: Geometric>(z: Num<S>) -> (out: Num<S>)
    ensures
        deterministic::<S>() ==> out == f0d(z),
{
    z * (lit("-4.683326") * (z * z) + lit("2.0071396"))
}

pub open spec fn spec_f1c<S: Geometric>(z: Num<S>) -> Num<S> {
    lit("3.3116114") * (z * z) - lit("0.47308735")
}

/// The factor of the squares in band four.
#[verifier::when_used_as_spec(spec_f1c)]
pub fn f1c<S: Geometric>(z: Num<S>) -> (out: Num<S>)
    ensures
        deterministic::<S>() ==> out == f1c(z),
{
    lit("3.3116114") * (z * z) - lit("0.47308735")
}

pub open spec fn spec_basis_value<S: Geometric>(index: u32, v: Vec3<S>) -> Num<S> {
    if index == 0 {
        lit("0.2820948")
    } else if index == 1 {
        lit("0.4886025").opposite() * v.y
    } else if index == 2 {
        lit("0.4886025") * v.z
    } else if index == 3 {
        lit("0.4886025").opposite() * v.x
    } else if index == 4 {
        lit("0.54627424") * fs1(v)
    } else if index == 5 {
        lit("-1.0925485") * v.z * v.y
    } else if index == 6 {
        p_sh6(v.z)
    } else if index == 7 {
        lit("-1.0925485") * v.z * v.x
    } else if index == 8 {
        lit("0.54627424") * fc1(v)
    } else if index == 9 {
        lit("-0.5900436") * fs2(v)
    } else if index == 10 {
        lit("1.4453057") * v.z * fs1(v)
    } else if index == 11 {
        f0c(v.z) * v.y
    } else if index == 12 {
        p_sh12(v.z)
    } else if index == 13 {
        f0c(v.z) * v.x
    } else if index == 14 {
        lit("1.4453057") * v.z * fc1(v)
    } else if index == 15 {
        lit("-0.5900436") * fc2(v)
    } else if index == 16 {
        lit("0.62583575") * fs3(v)
    } else if index == 17 {
        lit("-1.7701308") * v.z * fs2(v)
    } else if index == 18 {
        f1c(v.z) * fs1(v)
    } else if index == 19 {
        f0d(v.z) * v.y
    } else if index == 20 {
        lit("1.9843135") * v.z * p_sh12(v.z) + lit("-1.0062306") * p_sh6(v.z)
    } else if index == 21 {
        f0d(v.z) * v.x
    } else if index == 22 {
        f1c(v.z) * fc1(v)
    } else if index == 23 {
        lit("-1.7701308") * v.z * fc2(v)
    } else if index == 24 {
        lit("0.62583575") * fc3(v)
    } else {
        zero()
    }
}

/// Basis function `index` in direction `v`; zero from index 25 on.
#[verifier::when_used_as_spec(spec_basis_value)]
pub fn basis_value<S: Geometric>(index: u32, v: Vec3<S>) -> (out: Num<S>)
    ensures
        deterministic::<S>() ==> out == basis_value(index, v),
{
    if index == 0 {
        lit("0.2820948")
    } else if index == 1 {
        lit("0.4886025").opposite() * v.y
    } else if index == 2 {
        lit("0.4886025") * v.z
    } else if index == 3 {
        lit("0.4886025").opposite() * v.x
    } else if index == 4 {
        lit("0.54627424") * fs1(v)
    } else if index == 5 {
        lit("-1.0925485") * v.z * v.y
    } else if index == 6 {
        p_sh6(v.z)
    } else if index == 7 {
        lit("-1.0925485") * v.z * v.x
    } else if index == 8 {
        lit("0.54627424") * fc1(v)
    } else if index == 9 {
        lit("-0.5900436") * fs2(v)
    } else if index == 10 {
        lit("1.4453057") * v.z * fs1(v)
    } else if index == 11 {
        f0c(v.z) * v.y
    } else if index == 12 {
        p_sh12(v.z)
    } else if index == 13 {
        f0c(v.z) * v.x
    } else if index == 14 {
        lit("1.4453057") * v.z * fc1(v)
    } else if index == 15 {
        lit("-0.5900436") * fc2(v)
    } else if index == 16 {
        lit("0.62583575") * fs3(v)
    } else if index == 17 {
        lit("-1.7701308") * v.z * fs2(v)
    } else if index == 18 {
        f1c(v.z) * fs1(v)
    } else if index == 19 {
        f0d(v.z) * v.y
    } else if index == 20 {
        lit("1.9843135") * v.z * p_sh12(v.z) + lit("-1.0062306") * p_sh6(v.z)
    } else if index == 21 {
        f0d(v.z) * v.x
    } else if index == 22 {
        f1c(v.z) * fc1(v)
    } else if index == 23 {
        lit("-1.7701308") * v.z * fc2(v)
    } else if index == 24 {
        lit("0.62583575") * fc3(v)
    } else {
        zero()
    }
}

pub open spec fn spec_color_weight<S: Geometric>(index: u32, v: Vec3<S>) -> Num<S> {
    if index == 20 {
        lit("1.9843135") * v.z * p_sh12(v.z) - lit("1.0062306") * p_sh6(v.z)
    } else {
        basis_value(index, v)
    }
}

/// The weight of coefficient `index` in a color.
#[verifier::when_used_as_spec(spec_color_weight)]
pub fn color_weight<S: Geometric>(index: u32, v: Vec3<S>) -> (out: Num<S>)
    ensures
        deterministic::<S>() ==> out == color_weight(index, v),
{
    if index == 20 {
        lit("1.9843135") * v.z * p_sh12(v.z) - lit("1.0062306") * p_sh6(v.z)
    } else {
        basis_value(index, v)
    }
}

/// Coefficients that a degree evaluates: those of bands up to four.
pub open spec fn evaluated(degree: u32) -> int {
    if degree >= 4 {
        25
    } else {
        sh::coeffs_of_degree(degree as int)
    }
}

fn evaluated_coeffs(degree: u32) -> (n: u32)
    ensures
        n == evaluated(degree),
        1 <= n <= 25,
{
    proof {
        assert(sh::coeffs_of_degree(0) == 1 && sh::coeffs_of_degree(1) == 4
            && sh::coeffs_of_degree(2) == 9 && sh::coeffs_of_degree(3) == 16) by (nonlinear_arith);
    }
    if degree == 0 {
        1
    } else if degree == 1 {
        4
    } else if degree == 2 {
        9
    } else if degree == 3 {
        16
    } else {
        25
    }
}

/// Evaluates one basis function of the bands up to `degree`; zero for one of a
/// higher band.
pub fn sh_basis<S: Geometric>(index: u32, degree: u32, x: Num<S>, y: Num<S>, z: Num<S>) -> (r: Num<
    S,
>)
    ensures
        deterministic::<S>() ==> r == (if index < evaluated(degree) {
            basis_value(index, Vec3 { x, y, z })
        } else {
            zero()
        }),
{
    if index < evaluated_coeffs(degree) {
        basis_value(index, Vec3 { x, y, z })
    } else {
        zero()
    }
}

/// Coefficient `index` of the row that starts at `base`.
pub open spec fn coeff<S>(coeffs: Seq<S>, base: int, index: int) -> Vec3<S> {
    Vec3 {
        x: Num { value: coeffs[base + 3 * index] },
        y: Num { value: coeffs[base + 3 * index + 1] },
        z: Num { value: coeffs[base + 3 * index + 2] },
    }
}

fn read_coeff3<S: Geometric>(coeffs: &Vec<S>, base: usize, index: u32) -> (c: Vec3<S>)
    requires
        base + 3 * index + 3 <= coeffs.len(),
        index <= 25,
    ensures
        c == coeff(coeffs@, base as int, index as int),
{
    let at: usize = base + 3 * index as usize;
    let c: (S, S, S) = sh::read_coeff(coeffs, at);
    Vec3 { x: Num { value: c.0 }, y: Num { value: c.1 }, z: Num { value: c.2 } }
}

/// The color of the first `n` coefficients: each times its weight, added in
/// order.
pub open spec fn color_of<S: Geometric>(coeffs: Seq<S>, base: int, n: int, v: Vec3<S>) -> Vec3<S>
    decreases n,
{
    if n <= 1 {
        coeff(coeffs, base, 0).scale(color_weight(0, v))
    } else {
        color_of(coeffs, base, n - 1, v).plus(
            coeff(coeffs, base, n - 1).scale(color_weight((n - 1) as u32, v)),
        )
    }
}

/// Evaluates a row of coefficients to a color in the unit direction `v`,
/// without the offset that the caller adds.
pub fn sh_coeffs_to_color<S: Geometric>(
    coeffs: &Vec<S>,
    coeff_base: usize,
    degree: u32,
    v: Vec3<S>,
) -> (color: Vec3<S>)
    requires
        coeff_base + 3 * evaluated(degree) <= coeffs.len(),
    ensures
        deterministic::<S>() ==> color == color_of(
            coeffs@,
            coeff_base as int,
            evaluated(degree),
            v,
        ),
{
    let n: u32 = evaluated_coeffs(degree);
    let mut color: Vec3<S> = read_coeff3(coeffs, coeff_base, 0).scale(color_weight(0, v));
    let mut i: u32 = 1;
    while i < n
        invariant
            1 <= i <= n <= 25,
            coeff_base + 3 * n <= coeffs.len(),
            deterministic::<S>() ==> color == color_of(coeffs@, coeff_base as int, i as int, v),
        decreases n - i,
    {
        color = color.plus(read_coeff3(coeffs, coeff_base, i).scale(color_weight(i, v)));
        i = i + 1;
    }
    color
}

/// A list of gradients after those of a color's first `n` coefficients were
/// written: each is the color's gradient times the coefficient's basis function.
pub open spec fn has_coeff_gradients<S: Geometric>(
    before: Seq<S>,
    after: Seq<S>,
    base: int,
    n: int,
    v: Vec3<S>,
    vc: Vec3<S>,
) -> bool {
    &&& after.len() == before.len()
    &&& forall|i: int|
        0 <= i < n ==> #[trigger] coeff(after, base, i) == vc.scale(basis_value(i as u32, v))
    &&& forall|k: int|
        0 <= k < before.len() && !(base <= k < base + 3 * n) ==> #[trigger] after[k] == before[k]
}

/// Writes the gradient of each coefficient of the row at `coeff_base`, given
/// the gradient `vc` of the row's color. Everything else is left as it is.
pub fn sh_coeffs_to_color_vjp<S: Geometric>(
    v_coeffs: &mut Vec<S>,
    coeff_base: usize,
    degree: u32,
    v: Vec3<S>,
    vc: Vec3<S>,
)
    requires
        coeff_base + 3 * evaluated(degree) <= old(v_coeffs).len(),
    ensures
        final(v_coeffs).len() == old(v_coeffs).len(),
        forall|k: int|
            0 <= k < old(v_coeffs).len() && !(coeff_base <= k < coeff_base + 3 * evaluated(degree))
                ==> final(v_coeffs)[k] == old(v_coeffs)[k],
        deterministic::<S>() ==> has_coeff_gradients(
            old(v_coeffs)@,
            final(v_coeffs)@,
            coeff_base as int,
            evaluated(degree),
            v,
            vc,
        ),
{
    let n: u32 = evaluated_coeffs(degree);
    let ghost before = v_coeffs@;
    let mut i: u32 = 0;
    while i < n
        invariant
            i <= n <= 25,
            coeff_base + 3 * n <= v_coeffs.len(),
            v_coeffs.len() == before.len(),
            forall|k: int|
                0 <= k < before.len() && !(coeff_base <= k < coeff_base + 3 * i) ==> v_coeffs[k]
                    == before[k],
            deterministic::<S>() ==> has_coeff_gradients(
                before,
                v_coeffs@,
                coeff_base as int,
                i as int,
                v,
                vc,
            ),
        decreases n - i,
    {
        let at: usize = coeff_base + 3 * i as usize;
        let g: Vec3<S> = vc.scale(basis_value(i, v));
        let ghost held = v_coeffs@;
        sh::write_coeff(v_coeffs, at, (g.x.value, g.y.value, g.z.value));
        proof {
            if deterministic::<S>() {
                assert forall|j: int| 0 <= j < i + 1 implies #[trigger] coeff(
                    v_coeffs@,
                    coeff_base as int,
                    j,
                ) == vc.scale(basis_value(j as u32, v)) by {
                    if j < i {
                        assert(coeff(held, coeff_base as int, j) == coeff(
                            v_coeffs@,
                            coeff_base as int,
                            j,
                        ));
                    } else {
                        assert(coeff(v_coeffs@, coeff_base as int, j) == g);
                    }
                }
            }
        }
        i = i + 1;
    }
}

/// The inner products of the coefficients of a band with a color's gradient,
/// by order: `n4` to `n1`, `z0`, `p1` to `p4`. Orders that a band does not have
/// are zero.
#[derive(Clone, Copy)]
pub struct ShProducts<S> {
    pub n4: Num<S>,
    pub n3: Num<S>,
    pub n2: Num<S>,
    pub n1: Num<S>,
    pub z0: Num<S>,
    pub p1: Num<S>,
    pub p2: Num<S>,
    pub p3: Num<S>,
    pub p4: Num<S>,
}

/// The inner product of order `m` of a band, zero where the band is too low.
pub open spec fn band_product<S: Geometric>(
    coeffs: Seq<S>,
    base: int,
    band: int,
    m: int,
    vc: Vec3<S>,
) -> Num<S> {
    if -band <= m <= band {
        coeff(coeffs, base, band * band + band + m).dot(vc)
    } else {
        zero()
    }
}

/// The inner products of a band.
pub open spec fn band_products<S: Geometric>(
    coeffs: Seq<S>,
    base: int,
    band: int,
    vc: Vec3<S>,
) -> ShProducts<S> {
    ShProducts {
        n4: band_product(coeffs, base, band, -4, vc),
        n3: band_product(coeffs, base, band, -3, vc),
        n2: band_product(coeffs, base, band, -2, vc),
        n1: band_product(coeffs, base, band, -1, vc),
        z0: band_product(coeffs, base, band, 0, vc),
        p1: band_product(coeffs, base, band, 1, vc),
        p2: band_product(coeffs, base, band, 2, vc),
        p3: band_product(coeffs, base, band, 3, vc),
        p4: band_product(coeffs, base, band, 4, vc),
    }
}

fn product_at<S: Geometric>(coeffs: &Vec<S>, base: usize, band: u32, m: i32, vc: Vec3<S>) -> (r:
    Num<S>)
    requires
        1 <= band <= 4,
        -4 <= m <= 4,
        base + 3 * (band + 1) * (band + 1) <= coeffs.len(),
    ensures
        deterministic::<S>() ==> r == band_product(coeffs@, base as int, band as int, m as int, vc),
{
    let l: i32 = band as i32;
    if -l <= m && m <= l {
        proof {
            assert(1 <= band * band + band && band * band + band + band + 1 == (band + 1) * (band
                + 1) && (band + 1) * (band + 1) <= 25 && 3 * (band + 1) * (band + 1) == 3 * ((band
                + 1) * (band + 1)) && band * band <= 16) by (nonlinear_arith)
                requires
                    1 <= band <= 4,
            ;
        }
        let index: i32 = l * l + l + m;
        read_coeff3(coeffs, base, index as u32).dot(vc)
    } else {
        zero()
    }
}

fn products_of<S: Geometric>(coeffs: &Vec<S>, base: usize, band: u32, vc: Vec3<S>) -> (r:
    ShProducts<S>)
    requires
        1 <= band <= 4,
        base + 3 * (band + 1) * (band + 1) <= coeffs.len(),
    ensures
        deterministic::<S>() ==> r == band_products(coeffs@, base as int, band as int, vc),
{
    ShProducts {
        n4: product_at(coeffs, base, band, -4, vc),
        n3: product_at(coeffs, base, band, -3, vc),
        n2: product_at(coeffs, base, band, -2, vc),
        n1: product_at(coeffs, base, band, -1, vc),
        z0: product_at(coeffs, base, band, 0, vc),
        p1: product_at(coeffs, base, band, 1, vc),
        p2: product_at(coeffs, base, band, 2, vc),
        p3: product_at(coeffs, base, band, 3, vc),
        p4: product_at(coeffs, base, band, 4, vc),
    }
}

pub open spec fn spec_band1_gradient<S: Geometric>(a: ShProducts<S>, v: Vec3<S>) -> Vec3<S> {
    Vec3 {
        x: lit("0.4886025").opposite() * a.p1,
        y: lit("0.4886025").opposite() * a.n1,
        z: lit("0.4886025") * a.z0,
    }
}

/// What band one adds to the gradient of the direction.
#[verifier::when_used_as_spec(spec_band1_gradient)]
pub fn band1_gradient<S: Geometric>(a: ShProducts<S>, v: Vec3<S>) -> (out: Vec3<S>)
    ensures
        deterministic::<S>() ==> out == band1_gradient(a, v),
{
    Vec3 {
        x: lit("0.4886025").opposite() * a.p1,
        y: lit("0.4886025").opposite() * a.n1,
        z: lit("0.4886025") * a.z0,
    }
}

pub open spec fn spec_band2_gradient<S: Geometric>(a: ShProducts<S>, v: Vec3<S>) -> Vec3<S> {
    let c2 = lit("-1.0925485");
    let f1a = lit("0.54627424");
    Vec3 {
        x: lit("2.0") * f1a * v.y * a.n2 + c2 * v.z * a.p1 + lit("2.0") * f1a * v.x * a.p2,
        y: lit("2.0") * f1a * v.x * a.n2 + c2 * v.z * a.n1 - lit("2.0") * f1a * v.y * a.p2,
        z: c2 * v.y * a.n1 + lit("2.0") * lit("0.9461747") * v.z * a.z0 + c2 * v.x * a.p1,
    }
}

/// What band two adds to the gradient of the direction.
#[verifier::when_used_as_spec(spec_band2_gradient)]
pub fn band2_gradient<S: Geometric>(a: ShProducts<S>, v: Vec3<S>) -> (out: Vec3<S>)
    ensures
        deterministic::<S>() ==> out == band2_gradient(a, v),
{
    let c2 = lit("-1.0925485");
    let f1a = lit("0.54627424");
    Vec3 {
        x: lit("2.0") * f1a * v.y * a.n2 + c2 * v.z * a.p1 + lit("2.0") * f1a * v.x * a.p2,
        y: lit("2.0") * f1a * v.x * a.n2 + c2 * v.z * a.n1 - lit("2.0") * f1a * v.y * a.p2,
        z: c2 * v.y * a.n1 + lit("2.0") * lit("0.9461747") * v.z * a.z0 + c2 * v.x * a.p1,
    }
}

pub open spec fn spec_band3_gradient<S: Geometric>(a: ShProducts<S>, v: Vec3<S>) -> Vec3<S> {
    let z2 = v.z * v.z;
    let x2 = v.x * v.x;
    let y2 = v.y * v.y;
    let f2a = lit("-0.5900436");
    let c1b = lit("1.4453057");
    let f1b = c1b * v.z;
    let c0c = lit("-2.285229");
    let f0c = c0c * z2 + lit("0.4570458");
    let f0c_dz = lit("2.0") * c0c * v.z;
    let d12_z = lit("3.0") * lit("1.8658817") * z2 - lit("1.119529");
    Vec3 {
        x: f2a * lit("6.0") * v.x * v.y * a.n3 + lit("2.0") * f1b * v.y * a.n2 + f0c * a.p1 + lit(
            "2.0",
        ) * f1b * v.x * a.p2 + f2a * lit("3.0") * (x2 - y2) * a.p3,
        y: f2a * lit("3.0") * (x2 - y2) * a.n3 + lit("2.0") * f1b * v.x * a.n2 + f0c * a.n1 + lit(
            "-2.0",
        ) * f1b * v.y * a.p2 + f2a * lit("-6.0") * v.x * v.y * a.p3,
        z: lit("2.0") * c1b * v.x * v.y * a.n2 + f0c_dz * v.y * a.n1 + d12_z * a.z0 + f0c_dz * v.x
            * a.p1 + c1b * (x2 - y2) * a.p2,
    }
}

/// What band three adds to the gradient of the direction.
#[verifier::when_used_as_spec(spec_band3_gradient)]
pub fn band3_gradient<S: Geometric>(a: ShProducts<S>, v: Vec3<S>) -> (out: Vec3<S>)
    ensures
        deterministic::<S>() ==> out == band3_gradient(a, v),
{
    let z2 = v.z * v.z;
    let x2 = v.x * v.x;
    let y2 = v.y * v.y;
    let f2a = lit("-0.5900436");
    let c1b = lit("1.4453057");
    let f1b = c1b * v.z;
    let c0c = lit("-2.285229");
    let f0c = c0c * z2 + lit("0.4570458");
    let f0c_dz = lit("2.0") * c0c * v.z;
    let d12_z = lit("3.0") * lit("1.8658817") * z2 - lit("1.119529");
    Vec3 {
        x: f2a * lit("6.0") * v.x * v.y * a.n3 + lit("2.0") * f1b * v.y * a.n2 + f0c * a.p1 + lit(
            "2.0",
        ) * f1b * v.x * a.p2 + f2a * lit("3.0") * (x2 - y2) * a.p3,
        y: f2a * lit("3.0") * (x2 - y2) * a.n3 + lit("2.0") * f1b * v.x * a.n2 + f0c * a.n1 + lit(
            "-2.0",
        ) * f1b * v.y * a.p2 + f2a * lit("-6.0") * v.x * v.y * a.p3,
        z: lit("2.0") * c1b * v.x * v.y * a.n2 + f0c_dz * v.y * a.n1 + d12_z * a.z0 + f0c_dz * v.x
            * a.p1 + c1b * (x2 - y2) * a.p2,
    }
}

pub open spec fn spec_band4_gradient<S: Geometric>(a: ShProducts<S>, v: Vec3<S>) -> Vec3<S> {
    let z2 = v.z * v.z;
    let f0d_dz = lit("-14.049978") * z2 + lit("2.0071396");
    let f1c_dz = lit("2.0") * lit("3.3116114") * v.z;
    let f2b_dz = lit("-1.7701308");
    let f2b = f2b_dz * v.z;
    let f3a = lit("0.62583575");
    let dp_sh12_dz = lit("3.0") * lit("1.8658817") * z2 - lit("1.119529");
    let dp_sh6_dz = lit("2.0") * lit("0.9461747") * v.z;
    let dp_sh20_dz = lit("1.9843135") * (p_sh12(v.z) + v.z * dp_sh12_dz) - lit("1.0062306")
        * dp_sh6_dz;
    Vec3 {
        x: f3a * lit("4.0") * fs2(v) * a.n4 + f2b * lit("3.0") * fs1(v) * a.n3 + f1c(v.z) * lit(
            "2.0",
        ) * v.y * a.n2 + f0d(v.z) * a.p1 + f1c(v.z) * lit("2.0") * v.x * a.p2 + f2b * lit("3.0")
            * fc1(v) * a.p3 + f3a * lit("4.0") * fc2(v) * a.p4,
        y: f3a * lit("4.0") * fc2(v) * a.n4 + f2b * lit("3.0") * fc1(v) * a.n3 + f1c(v.z) * lit(
            "2.0",
        ) * v.x * a.n2 + f0d(v.z) * a.n1 + f1c(v.z) * lit("-2.0") * v.y * a.p2 + f2b * lit("-3.0")
            * fs1(v) * a.p3 + f3a * lit("-4.0") * fs2(v) * a.p4,
        z: f2b_dz * fs2(v) * a.n3 + f1c_dz * fs1(v) * a.n2 + f0d_dz * v.y * a.n1 + dp_sh20_dz * a.z0
            + f0d_dz * v.x * a.p1 + f1c_dz * fc1(v) * a.p2 + f2b_dz * fc2(v) * a.p3,
    }
}

/// What band four adds to the gradient of the direction. The partial derivatives
/// of the powers of `x + iy` are the lower powers times their exponent.
#[verifier::when_used_as_spec(spec_band4_gradient)]
pub fn band4_gradient<S: Geometric>(a: ShProducts<S>, v: Vec3<S>) -> (out: Vec3<S>)
    ensures
        deterministic::<S>() ==> out == band4_gradient(a, v),
{
    let z2 = v.z * v.z;
    let f0d_dz = lit("-14.049978") * z2 + lit("2.0071396");
    let f1c_dz = lit("2.0") * lit("3.3116114") * v.z;
    let f2b_dz = lit("-1.7701308");
    let f2b = f2b_dz * v.z;
    let f3a = lit("0.62583575");
    let dp_sh12_dz = lit("3.0") * lit("1.8658817") * z2 - lit("1.119529");
    let dp_sh6_dz = lit("2.0") * lit("0.9461747") * v.z;
    let dp_sh20_dz = lit("1.9843135") * (p_sh12(v.z) + v.z * dp_sh12_dz) - lit("1.0062306")
        * dp_sh6_dz;
    Vec3 {
        x: f3a * lit("4.0") * fs2(v) * a.n4 + f2b * lit("3.0") * fs1(v) * a.n3 + f1c(v.z) * lit(
            "2.0",
        ) * v.y * a.n2 + f0d(v.z) * a.p1 + f1c(v.z) * lit("2.0") * v.x * a.p2 + f2b * lit("3.0")
            * fc1(v) * a.p3 + f3a * lit("4.0") * fc2(v) * a.p4,
        y: f3a * lit("4.0") * fc2(v) * a.n4 + f2b * lit("3.0") * fc1(v) * a.n3 + f1c(v.z) * lit(
            "2.0",
        ) * v.x * a.n2 + f0d(v.z) * a.n1 + f1c(v.z) * lit("-2.0") * v.y * a.p2 + f2b * lit("-3.0")
            * fs1(v) * a.p3 + f3a * lit("-4.0") * fs2(v) * a.p4,
        z: f2b_dz * fs2(v) * a.n3 + f1c_dz * fs1(v) * a.n2 + f0d_dz * v.y * a.n1 + dp_sh20_dz * a.z0
            + f0d_dz * v.x * a.p1 + f1c_dz * fc1(v) * a.p2 + f2b_dz * fc2(v) * a.p3,
    }
}

/// What a band adds to the gradient of the direction.
pub open spec fn band_gradient<S: Geometric>(
    coeffs: Seq<S>,
    base: int,
    band: int,
    v: Vec3<S>,
    vc: Vec3<S>,
) -> Vec3<S> {
    let a = band_products(coeffs, base, band, vc);
    if band == 1 {
        band1_gradient(a, v)
    } else if band == 2 {
        band2_gradient(a, v)
    } else if band == 3 {
        band3_gradient(a, v)
    } else {
        band4_gradient(a, v)
    }
}

/// The gradient of the direction from the bands up to `band`, added in order.
pub open spec fn direction_gradient<S: Geometric>(
    coeffs: Seq<S>,
    base: int,
    band: int,
    v: Vec3<S>,
    vc: Vec3<S>,
) -> Vec3<S>
    decreases band,
{
    if band <= 0 {
        Vec3 { x: zero(), y: zero(), z: zero() }
    } else {
        direction_gradient(coeffs, base, band - 1, v, vc).plus(
            band_gradient(coeffs, base, band, v, vc),
        )
    }
}

/// The highest band that a degree evaluates.
pub open spec fn highest_band(degree: u32) -> int {
    if degree >= 4 {
        4
    } else {
        degree as int
    }
}

/// The gradient of the view direction `v`, given the gradient `vc` of the color
/// of the row at `coeff_base`.
pub fn sh_color_viewdir_vjp<S: Geometric>(
    coeffs: &Vec<S>,
    coeff_base: usize,
    degree: u32,
    v: Vec3<S>,
    vc: Vec3<S>,
) -> (g: Vec3<S>)
    requires
        coeff_base + 3 * evaluated(degree) <= coeffs.len(),
    ensures
        deterministic::<S>() ==> g == direction_gradient(
            coeffs@,
            coeff_base as int,
            highest_band(degree),
            v,
            vc,
        ),
{
    let bands: u32 = if degree >= 4 {
        4
    } else {
        degree
    };
    proof {
        assert((bands + 1) * (bands + 1) == evaluated(degree)) by (nonlinear_arith)
            requires
                bands == highest_band(degree),
        ;
    }
    let mut g: Vec3<S> = Vec3 { x: zero(), y: zero(), z: zero() };
    let mut band: u32 = 1;
    while band <= bands
        invariant
            1 <= band <= bands + 1,
            bands <= 4,
            coeff_base + 3 * ((bands + 1) * (bands + 1)) <= coeffs.len(),
            deterministic::<S>() ==> g == direction_gradient(
                coeffs@,
                coeff_base as int,
                band - 1,
                v,
                vc,
            ),
        decreases bands + 1 - band,
    {
        proof {
            assert(3 * (band + 1) * (band + 1) <= 3 * ((bands + 1) * (bands + 1)))
                by (nonlinear_arith)
                requires
                    1 <= band <= bands,
            ;
        }
        let a: ShProducts<S> = products_of(coeffs, coeff_base, band, vc);
        let part: Vec3<S> = if band == 1 {
            band1_gradient(a, v)
        } else if band == 2 {
            band2_gradient(a, v)
        } else if band == 3 {
            band3_gradient(a, v)
        } else {
            band4_gradient(a, v)
        };
        g = g.plus(part);
        band = band + 1;
    }
    g
}

pub open spec fn spec_view_direction<S: Geometric>(mean: Vec3<S>, camera: Vec3<S>) -> Vec3<S> {
    let dx = mean.x - camera.x;
    let dy = mean.y - camera.y;
    let dz = mean.z - camera.z;
    let inv_len = lit("1.0") / (dx * dx + dy * dy + dz * dz).root();
    Vec3 { x: dx * inv_len, y: dy * inv_len, z: dz * inv_len }
}

/// The unit direction from a camera to a splat.
#[verifier::when_used_as_spec(spec_view_direction)]
pub fn view_direction<S: Geometric>(mean: Vec3<S>, camera: Vec3<S>) -> (out: Vec3<S>)
    ensures
        deterministic::<S>() ==> out == view_direction(mean, camera),
{
    let dx = mean.x - camera.x;
    let dy = mean.y - camera.y;
    let dz = mean.z - camera.z;
    let inv_len = lit("1.0") / (dx * dx + dy * dy + dz * dz).root();
    Vec3 { x: dx * inv_len, y: dy * inv_len, z: dz * inv_len }
}

/// The three values at `at`.
pub open spec fn vec3_at<S>(values: Seq<S>, at: int) -> Vec3<S> {
    Vec3 {
        x: Num { value: values[at] },
        y: Num { value: values[at + 1] },
        z: Num { value: values[at + 2] },
    }
}

/// The value of an element of a gradient row: a basis function in the direction
/// of the splat times a component of its color's gradient.
pub open spec fn term_value<S: Geometric>(
    term: ShGradTerm,
    transforms: Seq<S>,
    global_gid: int,
    v_combined: Seq<S>,
    camera: Vec3<S>,
) -> Num<S> {
    match term {
        ShGradTerm::Zero => zero(),
        ShGradTerm::Product { compact_gid, basis, channel } => {
            let v_color = vec3_at(v_combined, 10 * compact_gid + 5);
            basis_value(basis, view_direction(vec3_at(transforms, 10 * global_gid), camera))
                * sh::channel_of(channel as int, v_color.x, v_color.y, v_color.z)
        },
    }
}

/// Evaluates an element of a gradient row. `global_gid` is the splat that the
/// row belongs to; the rows of `transforms` and of `v_combined` have ten values.
pub fn gradient_value<S: Geometric>(
    term: ShGradTerm,
    transforms: &Vec<S>,
    global_gid: usize,
    v_combined: &Vec<S>,
    camera: Vec3<S>,
) -> (r: Num<S>)
    requires
        term matches ShGradTerm::Product { compact_gid, .. } ==> 10 * global_gid + 10
            <= transforms.len() && 10 * compact_gid + 10 <= v_combined.len(),
    ensures
        deterministic::<S>() ==> r == term_value(
            term,
            transforms@,
            global_gid as int,
            v_combined@,
            camera,
        ),
{
    match term {
        ShGradTerm::Zero => zero(),
        ShGradTerm::Product { compact_gid, basis, channel } => {
            let t: usize = 10 * global_gid;
            let g: usize = 10 * compact_gid as usize;
            let mean: Vec3<S> = Vec3 {
                x: Num { value: transforms[t] },
                y: Num { value: transforms[t + 1] },
                z: Num { value: transforms[t + 2] },
            };
            let v_color: (Num<S>, Num<S>, Num<S>) = (
                Num { value: v_combined[g + 5] },
                Num { value: v_combined[g + 6] },
                Num { value: v_combined[g + 7] },
            );
            basis_value(basis, view_direction(mean, camera)) * sh_color_component(
                channel,
                v_color.0,
                v_color.1,
                v_color.2,
            )
        },
    }
}

/// Appends the values of one gradient row.
fn push_row<S: Geometric>(
    out: &mut Vec<S>,
    compact_plus_one: u32,
    global_gid: usize,
    elements: u32,
    transforms: &Vec<S>,
    v_combined: &Vec<S>,
    camera: Vec3<S>,
)
    requires
        compact_plus_one > 0 ==> 10 * global_gid + 10 <= transforms.len() && 10 * compact_plus_one
            <= v_combined.len(),
    ensures
        final(out).len() == old(out).len() + elements,
        forall|k: int| 0 <= k < old(out).len() ==> #[trigger] final(out)[k] == old(out)[k],
        deterministic::<S>() ==> forall|i: int|
            0 <= i < elements ==> final(out)[#[trigger] counting::shifted(
                old(out).len() as int,
                i,
            )] == term_value(
                sh_grad_materialize::term_at(compact_plus_one, i),
                transforms@,
                global_gid as int,
                v_combined@,
                camera,
            ).value,
{
    let ghost before = out@;
    let mut i: u32 = 0;
    while i < elements
        invariant
            i <= elements,
            compact_plus_one > 0 ==> 10 * global_gid + 10 <= transforms.len() && 10
                * compact_plus_one <= v_combined.len(),
            out.len() == before.len() + i,
            forall|k: int| 0 <= k < before.len() ==> #[trigger] out[k] == before[k],
            deterministic::<S>() ==> forall|j: int|
                0 <= j < i ==> out[#[trigger] counting::shifted(before.len() as int, j)]
                    == term_value(
                    sh_grad_materialize::term_at(compact_plus_one, j),
                    transforms@,
                    global_gid as int,
                    v_combined@,
                    camera,
                ).value,
        decreases elements - i,
    {
        let term: ShGradTerm = if compact_plus_one == 0 {
            ShGradTerm::Zero
        } else {
            ShGradTerm::Product {
                compact_gid: compact_plus_one - 1,
                basis: i / 3,
                channel: i % 3,
            }
        };
        let value: Num<S> = gradient_value(term, transforms, global_gid, v_combined, camera);
        out.push(value.value);
        i = i + 1;
    }
}

/// `out` holds the values of the rows of `elements` elements whose splats are
/// given by `sources`, one past their compact indices, and by `splats`.
pub open spec fn are_gradient_rows<S: Geometric>(
    sources: Seq<u32>,
    splats: spec_fn(int) -> int,
    elements: int,
    transforms: Seq<S>,
    v_combined: Seq<S>,
    camera: Vec3<S>,
    out: Seq<S>,
) -> bool {
    &&& out.len() == sources.len() * elements
    &&& deterministic::<S>() ==> forall|row: int, i: int|
        0 <= row < sources.len() && 0 <= i < elements ==> out[#[trigger] (row * elements + i)]
            == term_value(
            sh_grad_materialize::term_at(sources[row], i),
            transforms,
            splats(row),
            v_combined,
            camera,
        ).value
}

proof fn lemma_row_added<S: Geometric>(
    before: Seq<S>,
    after: Seq<S>,
    sources: Seq<u32>,
    splats: spec_fn(int) -> int,
    rows: int,
    n: int,
    transforms: Seq<S>,
    v_combined: Seq<S>,
    camera: Vec3<S>,
)
    requires
        0 <= rows < sources.len(),
        0 <= n,
        are_gradient_rows(sources.take(rows), splats, n, transforms, v_combined, camera, before),
        after.len() == before.len() + n,
        forall|k: int| 0 <= k < before.len() ==> #[trigger] after[k] == before[k],
        deterministic::<S>() ==> forall|i: int|
            0 <= i < n ==> after[#[trigger] counting::shifted(before.len() as int, i)]
                == term_value(
                sh_grad_materialize::term_at(sources[rows], i),
                transforms,
                splats(rows),
                v_combined,
                camera,
            ).value,
    ensures
        are_gradient_rows(sources.take(rows + 1), splats, n, transforms, v_combined, camera, after),
{
    assert((rows + 1) * n == rows * n + n) by (nonlinear_arith);
    if deterministic::<S>() {
        assert forall|row: int, i: int| 0 <= row < rows + 1 && 0 <= i < n implies after[#[trigger] (
        row * n + i)] == term_value(
            sh_grad_materialize::term_at(sources.take(rows + 1)[row], i),
            transforms,
            splats(row),
            v_combined,
            camera,
        ).value by {
            if row < rows {
                assert(0 <= row * n && row * n + i < rows * n) by (nonlinear_arith)
                    requires
                        0 <= row < rows,
                        0 <= i < n,
                ;
                assert(before[row * n + i] == after[row * n + i]);
            } else {
                assert(row * n + i == counting::shifted(before.len() as int, i));
            }
        }
    }
}

/// The values of the dense gradient: one row per splat, given one past the
/// compact index of each, or zero for a row of zeros.
pub fn dense_gradient_rows<S: Geometric>(
    sources: &Vec<u32>,
    elements: u32,
    transforms: &Vec<S>,
    v_combined: &Vec<S>,
    camera: Vec3<S>,
) -> (out: Vec<S>)
    requires
        forall|row: int|
            0 <= row < sources.len() && #[trigger] sources[row] > 0 ==> 10 * row + 10
                <= transforms.len() && 10 * sources[row] <= v_combined.len(),
    ensures
        are_gradient_rows(
            sources@,
            |row: int| row,
            elements as int,
            transforms@,
            v_combined@,
            camera,
            out@,
        ),
{
    let ghost splats = |row: int| row;
    let ghost n = elements as int;
    let mut out: Vec<S> = Vec::new();
    let mut row: usize = 0;
    proof {
        assert(0 * n == 0);
    }
    while row < sources.len()
        invariant
            row <= sources.len(),
            n == elements,
            splats == |row: int| row,
            forall|r: int|
                0 <= r < sources.len() && #[trigger] sources[r] > 0 ==> 10 * r + 10
                    <= transforms.len() && 10 * sources[r] <= v_combined.len(),
            are_gradient_rows(
                sources@.take(row as int),
                splats,
                n,
                transforms@,
                v_combined@,
                camera,
                out@,
            ),
        decreases sources.len() - row,
    {
        let ghost before = out@;
        push_row(&mut out, sources[row], row, elements, transforms, v_combined, camera);
        proof {
            lemma_row_added(
                before,
                out@,
                sources@,
                splats,
                row as int,
                n,
                transforms@,
                v_combined@,
                camera,
            );
        }
        row = row + 1;
    }
    proof {
        assert(sources@.take(sources.len() as int) =~= sources@);
    }
    out
}

/// Zero, then the numbers of the visible splats counted from one.
pub open spec fn compact_sources(num_visible: int) -> Seq<u32> {
    Seq::new((num_visible + 1) as nat, |row: int| row as u32)
}

/// The values of the compact gradient: a row of zeros for culled splats, then
/// one row per visible splat.
pub fn compact_gradient_rows<S: Geometric>(
    global_from_compact_gid: &Vec<u32>,
    num_visible: u32,
    elements: u32,
    transforms: &Vec<S>,
    v_combined: &Vec<S>,
    camera: Vec3<S>,
) -> (out: Vec<S>)
    requires
        num_visible < u32::MAX,
        num_visible <= global_from_compact_gid.len(),
        num_visible * 10 <= v_combined.len(),
        forall|c: int|
            0 <= c < num_visible ==> 10 * #[trigger] global_from_compact_gid[c] + 10
                <= transforms.len(),
    ensures
        are_gradient_rows(
            compact_sources(num_visible as int),
            |row: int| global_from_compact_gid@[row - 1] as int,
            elements as int,
            transforms@,
            v_combined@,
            camera,
            out@,
        ),
{
    let ghost splats = |row: int| global_from_compact_gid@[row - 1] as int;
    let ghost n = elements as int;
    let ghost sources = compact_sources(num_visible as int);
    let mut out: Vec<S> = Vec::new();
    let mut row: u32 = 0;
    proof {
        assert(0 * n == 0);
    }
    while row <= num_visible
        invariant
            row <= num_visible + 1,
            num_visible < u32::MAX,
            n == elements,
            sources == compact_sources(num_visible as int),
            splats == |row: int| global_from_compact_gid@[row - 1] as int,
            num_visible <= global_from_compact_gid.len(),
            num_visible * 10 <= v_combined.len(),
            forall|c: int|
                0 <= c < num_visible ==> 10 * #[trigger] global_from_compact_gid[c] + 10
                    <= transforms.len(),
            are_gradient_rows(
                sources.take(row as int),
                splats,
                n,
                transforms@,
                v_combined@,
                camera,
                out@,
            ),
        decreases num_visible + 1 - row,
    {
        let ghost before = out@;
        let splat: usize = if row == 0 {
            0
        } else {
            global_from_compact_gid[row as usize - 1] as usize
        };
        push_row(&mut out, row, splat, elements, transforms, v_combined, camera);
        proof {
            assert(sources[row as int] == row);
            if deterministic::<S>() && row == 0 {
                assert forall|i: int| 0 <= i < n implies out[#[trigger] counting::shifted(
                    before.len() as int,
                    i,
                )] == term_value(
                    sh_grad_materialize::term_at(sources[0], i),
                    transforms@,
                    splats(0),
                    v_combined@,
                    camera,
                ).value by {}
            }
            lemma_row_added(
                before,
                out@,
                sources,
                splats,
                row as int,
                n,
                transforms@,
                v_combined@,
                camera,
            );
        }
        row = row + 1;
    }
    proof {
        assert(sources.take(num_visible + 1) =~= sources);
    }
    out
}

/// The base coefficient contributes nothing to the gradient of the direction.
pub proof fn base_color_has_no_direction<S: Geometric>(
    a: Seq<S>,
    b: Seq<S>,
    base: int,
    band: int,
    v: Vec3<S>,
    vc: Vec3<S>,
)
    requires
        0 <= base,
        band <= 4,
        forall|k: int| base + 3 <= k < base + 75 ==> a[k] == b[k],
    ensures
        direction_gradient(a, base, band, v, vc) == direction_gradient(b, base, band, v, vc),
    decreases band,
{
    if band > 0 {
        base_color_has_no_direction(a, b, base, band - 1, v, vc);
        assert forall|m: int| -band <= m <= band implies #[trigger] band_product(
            a,
            base,
            band,
            m,
            vc,
        ) == band_product(b, base, band, m, vc) by {
            let i = band * band + band + m;
            assert(1 <= i <= 24) by (nonlinear_arith)
                requires
                    1 <= band <= 4,
                    -band <= m <= band,
                    i == band * band + band + m,
            ;
            assert(coeff(a, base, i) == coeff(b, base, i));
        }
        assert(band_products(a, base, band, vc) == band_products(b, base, band, vc));
    }
}

/// A color is read by the same basis functions that its gradient is written by.
/// The one of order zero in band four subtracts what the other adds with the
/// sign turned.
pub proof fn weights_are_the_basis_functions<S: Geometric>(index: u32, v: Vec3<S>)
    ensures
        index != 20 ==> color_weight(index, v) == basis_value(index, v),
        color_weight(20, v) == lit("1.9843135") * v.z * p_sh12(v.z) - lit("1.0062306") * p_sh6(v.z),
        basis_value(20, v) == lit("1.9843135") * v.z * p_sh12(v.z) + lit("-1.0062306") * p_sh6(v.z),
{
}

/// What is evaluated are the coefficients of the bands up to the degree, and of
/// no band beyond the fourth.
pub proof fn bands_are_evaluated_whole(degree: u32)
    ensures
        evaluated(degree) == sh::coeffs_of_degree(highest_band(degree)),
        highest_band(degree) <= degree,
        highest_band(degree) <= 4,
        highest_band(degree) == degree || highest_band(degree) == 4,
{
    sh::bands_add_coefficients(0);
    sh::bands_add_coefficients(1);
    sh::bands_add_coefficients(2);
    sh::bands_add_coefficients(3);
}

} // verus!
