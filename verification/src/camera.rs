//! Cameras and lenses: fields of view and focal lengths of each lens model, the
//! angle past which a lens folds back, and the bounds of the projection's
//! Jacobian.
use vstd::prelude::*;

use crate::num::{count, deterministic, largest, lit, pi, zero, Geometric, Num, Quat, Vec2, Vec3};
use crate::raster_census::UVec2;

verus! {

/// A scalar type and a wider one that lens equations are solved in.
pub trait Narrow: Geometric {
    type Wide: Geometric;

    fn widened(self) -> Self::Wide;

    fn narrowed(wide: Self::Wide) -> Self;
}

/// Every operation's result is a function of its arguments.
pub open spec fn settled<N: Narrow>() -> bool {
    &&& deterministic::<N>()
    &&& deterministic::<N::Wide>()
    &&& forall|a: N, r: N::Wide, q: N::Wide|
        #[trigger] call_ensures(N::widened, (a,), r) && #[trigger] call_ensures(
            N::widened,
            (a,),
            q,
        ) ==> r == q
    &&& forall|a: N::Wide, r: N, q: N|
        #[trigger] call_ensures(N::narrowed, (a,), r) && #[trigger] call_ensures(
            N::narrowed,
            (a,),
            q,
        ) ==> r == q
}

pub open spec fn spec_widen<N: Narrow>(a: Num<N>) -> Num<N::Wide> {
    Num { value: choose|r: N::Wide| call_ensures(N::widened, (a.value,), r) }
}

/// The number in the wider type.
#[verifier::when_used_as_spec(spec_widen)]
pub fn widen<N: Narrow>(a: Num<N>) -> (r: Num<N::Wide>)
    ensures
        settled::<N>() ==> r == widen(a),
{
    Num { value: a.value.widened() }
}

pub open spec fn spec_narrow<N: Narrow>(a: Num<N::Wide>) -> Num<N> {
    Num { value: choose|r: N| call_ensures(N::narrowed, (a.value,), r) }
}

/// The number in the narrower type.
#[verifier::when_used_as_spec(spec_narrow)]
pub fn narrow<N: Narrow>(a: Num<N::Wide>) -> (r: Num<N>)
    ensures
        settled::<N>() ==> r == narrow::<N>(a),
{
    Num { value: N::narrowed(a.value) }
}

/// Coefficients of a fisheye polynomial.
#[derive(Clone, Copy, Debug)]
pub struct KannalaBrandt4Params<S> {
    pub k1: Num<S>,
    pub k2: Num<S>,
    pub k3: Num<S>,
    pub k4: Num<S>,
}

/// Coefficients of a rational radial model with tangential terms.
#[derive(Clone, Copy, Debug)]
pub struct RadialTangential8Params<S> {
    pub k1: Num<S>,
    pub k2: Num<S>,
    pub k3: Num<S>,
    pub k4: Num<S>,
    pub k5: Num<S>,
    pub k6: Num<S>,
    pub p1: Num<S>,
    pub p2: Num<S>,
}

/// A fisheye polynomial with tangential and thin-prism terms.
#[derive(Clone, Copy, Debug)]
pub struct ThinPrismFisheyeParams<S> {
    pub kb4: KannalaBrandt4Params<S>,
    pub p1: Num<S>,
    pub p2: Num<S>,
    pub sx1: Num<S>,
    pub sy1: Num<S>,
}

/// A lens.
#[derive(Clone, Copy, Debug)]
pub enum CameraModel<S> {
    Pinhole,
    KannalaBrandt4(KannalaBrandt4Params<S>),
    RadialTangential8(RadialTangential8Params<S>),
    ThinPrismFisheye(ThinPrismFisheyeParams<S>),
}

pub open spec fn spec_widen_kb4<N: Narrow>(
    p: KannalaBrandt4Params<N>,
) -> KannalaBrandt4Params<N::Wide> {
    KannalaBrandt4Params { k1: widen(p.k1), k2: widen(p.k2), k3: widen(p.k3), k4: widen(p.k4) }
}

/// The coefficients in the wider type.
#[verifier::when_used_as_spec(spec_widen_kb4)]
pub fn widen_kb4<N: Narrow>(p: KannalaBrandt4Params<N>) -> (r: KannalaBrandt4Params<N::Wide>)
    ensures
        settled::<N>() ==> r == widen_kb4(p),
{
    KannalaBrandt4Params { k1: widen(p.k1), k2: widen(p.k2), k3: widen(p.k3), k4: widen(p.k4) }
}

pub open spec fn spec_widen_rt8<N: Narrow>(
    p: RadialTangential8Params<N>,
) -> RadialTangential8Params<N::Wide> {
    RadialTangential8Params {
        k1: widen(p.k1),
        k2: widen(p.k2),
        k3: widen(p.k3),
        k4: widen(p.k4),
        k5: widen(p.k5),
        k6: widen(p.k6),
        p1: widen(p.p1),
        p2: widen(p.p2),
    }
}

/// The coefficients in the wider type.
#[verifier::when_used_as_spec(spec_widen_rt8)]
pub fn widen_rt8<N: Narrow>(p: RadialTangential8Params<N>) -> (r: RadialTangential8Params<N::Wide>)
    ensures
        settled::<N>() ==> r == widen_rt8(p),
{
    RadialTangential8Params {
        k1: widen(p.k1),
        k2: widen(p.k2),
        k3: widen(p.k3),
        k4: widen(p.k4),
        k5: widen(p.k5),
        k6: widen(p.k6),
        p1: widen(p.p1),
        p2: widen(p.p2),
    }
}

pub open spec fn spec_kb4_d<S: Geometric>(theta: Num<S>, p: &KannalaBrandt4Params<S>) -> Num<S> {
    let t2 = theta * theta;
    let t3 = t2 * theta;
    let t5 = t3 * t2;
    let t7 = t5 * t2;
    let t9 = t7 * t2;
    theta + p.k1 * t3 + p.k2 * t5 + p.k3 * t7 + p.k4 * t9
}

/// The fisheye polynomial: `theta + k1 theta^3 + k2 theta^5 + k3 theta^7 + k4 theta^9`.
#[verifier::when_used_as_spec(spec_kb4_d)]
pub fn kb4_d<S: Geometric>(theta: Num<S>, p: &KannalaBrandt4Params<S>) -> (out: Num<S>)
    ensures
        deterministic::<S>() ==> out == kb4_d(theta, p),
{
    let t2 = theta * theta;
    let t3 = t2 * theta;
    let t5 = t3 * t2;
    let t7 = t5 * t2;
    let t9 = t7 * t2;
    theta + p.k1 * t3 + p.k2 * t5 + p.k3 * t7 + p.k4 * t9
}

pub open spec fn spec_kb4_dd_dtheta<S: Geometric>(
    theta: Num<S>,
    p: &KannalaBrandt4Params<S>,
) -> Num<S> {
    let t2 = theta * theta;
    let t4 = t2 * t2;
    let t6 = t4 * t2;
    let t8 = t6 * t2;
    lit("1.0") + lit("3.0") * p.k1 * t2 + lit("5.0") * p.k2 * t4 + lit("7.0") * p.k3 * t6 + lit("9.0")
        * p.k4 * t8
}

/// The derivative of the fisheye polynomial.
#[verifier::when_used_as_spec(spec_kb4_dd_dtheta)]
pub fn kb4_dd_dtheta<S: Geometric>(theta: Num<S>, p: &KannalaBrandt4Params<S>) -> (out: Num<S>)
    ensures
        deterministic::<S>() ==> out == kb4_dd_dtheta(theta, p),
{
    let t2 = theta * theta;
    let t4 = t2 * t2;
    let t6 = t4 * t2;
    let t8 = t6 * t2;
    lit("1.0") + lit("3.0") * p.k1 * t2 + lit("5.0") * p.k2 * t4 + lit("7.0") * p.k3 * t6 + lit("9.0")
        * p.k4 * t8
}

pub open spec fn spec_rt8_radial<S: Geometric>(
    r: Num<S>,
    p: &RadialTangential8Params<S>,
) -> Num<S> {
    let r2 = r * r;
    let r4 = r2 * r2;
    let r6 = r4 * r2;
    let num = lit("1.0") + p.k1 * r2 + p.k2 * r4 + p.k3 * r6;
    let den = lit("1.0") + p.k4 * r2 + p.k5 * r4 + p.k6 * r6;
    num / den
}

/// The radial factor of the rational model.
#[verifier::when_used_as_spec(spec_rt8_radial)]
pub fn rt8_radial<S: Geometric>(r: Num<S>, p: &RadialTangential8Params<S>) -> (out: Num<S>)
    ensures
        deterministic::<S>() ==> out == rt8_radial(r, p),
{
    let r2 = r * r;
    let r4 = r2 * r2;
    let r6 = r4 * r2;
    let num = lit("1.0") + p.k1 * r2 + p.k2 * r4 + p.k3 * r6;
    let den = lit("1.0") + p.k4 * r2 + p.k5 * r4 + p.k6 * r6;
    num / den
}

pub open spec fn spec_rt8_distort<S: Geometric>(
    r: Num<S>,
    p: &RadialTangential8Params<S>,
) -> Num<S> {
    r * rt8_radial(r, p)
}

/// The distorted radius of an undistorted one.
#[verifier::when_used_as_spec(spec_rt8_distort)]
pub fn rt8_distort<S: Geometric>(r: Num<S>, p: &RadialTangential8Params<S>) -> (out: Num<S>)
    ensures
        deterministic::<S>() ==> out == rt8_distort(r, p),
{
    r * rt8_radial(r, p)
}

/// A question about an argument whose answer turns from yes to no once.
#[derive(Clone, Copy)]
pub enum Probe<S> {
    /// Does the fisheye polynomial still rise?
    Rising { p: KannalaBrandt4Params<S> },
    /// Is the fisheye polynomial still below `target`?
    AngleBelow { p: KannalaBrandt4Params<S>, target: Num<S> },
    /// Is the distorted radius still below `target`?
    RadiusBelow { rt8: RadialTangential8Params<S>, target: Num<S> },
}

impl<S: Geometric> Probe<S> {
    pub open spec fn spec_holds(self, at: Num<S>) -> bool {
        match self {
            Probe::Rising { p } => zero().below(kb4_dd_dtheta(at, &p)),
            Probe::AngleBelow { p, target } => kb4_d(at, &p).below(target),
            Probe::RadiusBelow { rt8, target } => rt8_distort(at, &rt8).below(target),
        }
    }

    /// The answer at an argument.
    #[verifier::when_used_as_spec(spec_holds)]
    pub fn holds(self, at: Num<S>) -> (r: bool)
        ensures
            deterministic::<S>() ==> r == self.holds(at),
    {
        match self {
            Probe::Rising { p } => zero().below(kb4_dd_dtheta(at, &p)),
            Probe::AngleBelow { p, target } => kb4_d(at, &p).below(target),
            Probe::RadiusBelow { rt8, target } => rt8_distort(at, &rt8).below(target),
        }
    }
}

pub open spec fn spec_midpoint<S: Geometric>(lo: Num<S>, hi: Num<S>) -> Num<S> {
    lit("0.5") * (lo + hi)
}

/// Half way between two numbers.
#[verifier::when_used_as_spec(spec_midpoint)]
pub fn midpoint<S: Geometric>(lo: Num<S>, hi: Num<S>) -> (out: Num<S>)
    ensures
        deterministic::<S>() ==> out == midpoint(lo, hi),
{
    lit("0.5") * (lo + hi)
}

/// The half of a bracket that a probe's turn lies in.
pub open spec fn halved<S: Geometric>(
    probe: Probe<S>,
    lo: Num<S>,
    hi: Num<S>,
) -> (Num<S>, Num<S>) {
    if probe.holds(midpoint(lo, hi)) {
        (midpoint(lo, hi), hi)
    } else {
        (lo, midpoint(lo, hi))
    }
}

/// The bracket after at most `n` halvings, fewer where it gets narrower than
/// `width`.
pub open spec fn bracket<S: Geometric>(
    probe: Probe<S>,
    lo: Num<S>,
    hi: Num<S>,
    width: Num<S>,
    n: int,
) -> (Num<S>, Num<S>)
    decreases n,
{
    if n <= 0 {
        (lo, hi)
    } else {
        let half = halved(probe, lo, hi);
        if (half.1 - half.0).below(width) {
            half
        } else {
            bracket(probe, half.0, half.1, width, n - 1)
        }
    }
}

/// The middle of the bracket that bisection ends with.
pub open spec fn bisected<S: Geometric>(
    probe: Probe<S>,
    lo: Num<S>,
    hi: Num<S>,
    width: Num<S>,
    n: int,
) -> Num<S> {
    let end = bracket(probe, lo, hi, width, n);
    midpoint(end.0, end.1)
}

/// Bisects the turn of a probe between `lo` and `hi`.
pub fn bisect<S: Geometric>(probe: Probe<S>, lo: Num<S>, hi: Num<S>, width: Num<S>, n: u32) -> (r:
    Num<S>)
    ensures
        deterministic::<S>() ==> r == bisected(probe, lo, hi, width, n as int),
{
    let mut a: Num<S> = lo;
    let mut b: Num<S> = hi;
    let mut left: u32 = n;
    while left > 0
        invariant
            deterministic::<S>() ==> bracket(probe, lo, hi, width, n as int) == bracket(
                probe,
                a,
                b,
                width,
                left as int,
            ),
        decreases left,
    {
        let mid: Num<S> = midpoint(a, b);
        if probe.holds(mid) {
            a = mid;
        } else {
            b = mid;
        }
        if (b - a).below(width) {
            return midpoint(a, b);
        }
        left = left - 1;
    }
    midpoint(a, b)
}

/// Bisection keeps its bracket: where the probe holds at the lower end and not
/// at the upper one, the same is true of the ends it stops with.
pub proof fn bisection_keeps_the_turn<S: Geometric>(
    probe: Probe<S>,
    lo: Num<S>,
    hi: Num<S>,
    width: Num<S>,
    n: int,
)
    requires
        probe.holds(lo),
        !probe.holds(hi),
    ensures
        ({
            let end = bracket(probe, lo, hi, width, n);
            probe.holds(end.0) && !probe.holds(end.1)
        }),
    decreases n,
{
    if n > 0 {
        let half = halved(probe, lo, hi);
        if !(half.1 - half.0).below(width) {
            bisection_keeps_the_turn(probe, half.0, half.1, width, n - 1);
        }
    }
}

/// Steps of the scan for a fold.
pub const FOLD_STEPS: u32 = 128;

pub open spec fn spec_fold_angle<S: Geometric>(i: u32) -> Num<S> {
    count(i) * (pi() / count(FOLD_STEPS))
}

/// The angle of a step of the scan for a fold.
#[verifier::when_used_as_spec(spec_fold_angle)]
pub fn fold_angle<S: Geometric>(i: u32) -> (out: Num<S>)
    ensures
        deterministic::<S>() ==> out == fold_angle::<S>(i),
{
    count(i) * (pi() / count(FOLD_STEPS))
}

/// The first step from `i` on at which the fisheye polynomial does not rise.
pub open spec fn first_fall<S: Geometric>(p: &KannalaBrandt4Params<S>, i: int) -> Option<int>
    decreases 129 - i,
{
    if i > 128 {
        None
    } else if kb4_dd_dtheta(fold_angle::<S>(i as u32), p).at_most(zero()) {
        Some(i)
    } else {
        first_fall(p, i + 1)
    }
}

/// The angle before step `i`.
pub open spec fn angle_before<S: Geometric>(i: int) -> Num<S> {
    if i <= 1 {
        zero()
    } else {
        fold_angle((i - 1) as u32)
    }
}

/// The angle at which the fisheye polynomial stops rising, or half a turn.
pub open spec fn fold_of<S: Geometric>(p: &KannalaBrandt4Params<S>) -> Num<S> {
    match first_fall(p, 1) {
        None => pi(),
        Some(i) => bisected(
            Probe::Rising { p: *p },
            angle_before(i),
            fold_angle(i as u32),
            lit("1e-12"),
            64,
        ),
    }
}

/// The first angle up to half a turn at which the fisheye polynomial stops
/// rising; half a turn where it does not. Scans for the first step with no rise
/// and bisects that step.
pub fn kb4_fold_theta<S: Geometric>(p: &KannalaBrandt4Params<S>) -> (r: Num<S>)
    ensures
        deterministic::<S>() ==> r == fold_of(p),
{
    let mut lo: Num<S> = zero();
    let mut i: u32 = 1;
    while i <= FOLD_STEPS
        invariant
            1 <= i <= 129,
            deterministic::<S>() ==> first_fall(p, 1) == first_fall(p, i as int),
            deterministic::<S>() ==> lo == angle_before::<S>(i as int),
        decreases 129 - i,
    {
        let theta: Num<S> = fold_angle(i);
        if kb4_dd_dtheta(theta, p).at_most(zero()) {
            return bisect(Probe::Rising { p: *p }, lo, theta, lit("1e-12"), 64);
        }
        lo = theta;
        i = i + 1;
    }
    pi()
}

/// The angle whose polynomial value is `target`, on the rising branch.
pub open spec fn angle_of<S: Geometric>(target: Num<S>, p: &KannalaBrandt4Params<S>) -> Num<S> {
    if target.at_most(zero()) {
        zero()
    } else if kb4_d(fold_of(p), p).at_most(target) {
        fold_of(p)
    } else {
        bisected(Probe::AngleBelow { p: *p, target }, zero(), fold_of(p), lit("1e-14"), 100)
    }
}

/// Solves the fisheye polynomial for its angle on the rising branch. Targets
/// past the fold are held at it.
pub fn kb4_invert_d<S: Geometric>(target: Num<S>, p: &KannalaBrandt4Params<S>) -> (r: Num<S>)
    ensures
        deterministic::<S>() ==> r == angle_of(target, p),
{
    if target.at_most(zero()) {
        return zero();
    }
    let fold: Num<S> = kb4_fold_theta(p);
    if kb4_d(fold, p).at_most(target) {
        return fold;
    }
    bisect(Probe::AngleBelow { p: *p, target }, zero(), fold, lit("1e-14"), 100)
}

/// What `n` rounds of the fixed-point iteration make of the radius `r`.
pub open spec fn undistorted<S: Geometric>(
    r_d: Num<S>,
    r: Num<S>,
    p: &RadialTangential8Params<S>,
    n: int,
) -> Num<S>
    decreases n,
{
    let factor = rt8_radial(r, p);
    let next = r_d / factor;
    if n <= 0 || factor.magnitude().below(lit("1e-12")) {
        r
    } else if (next - r).magnitude().below(lit("1e-12")) {
        next
    } else {
        undistorted(r_d, next, p, n - 1)
    }
}

/// Recovers the undistorted radius of the distorted one by fixed-point
/// iteration.
pub fn rt8_undistort_radius<S: Geometric>(r_d: Num<S>, p: &RadialTangential8Params<S>) -> (r: Num<
    S,
>)
    ensures
        deterministic::<S>() ==> r == undistorted(r_d, r_d, p, 30),
{
    let mut r: Num<S> = r_d;
    let mut left: u32 = 30;
    while left > 0
        invariant
            deterministic::<S>() ==> undistorted(r_d, r_d, p, 30) == undistorted(
                r_d,
                r,
                p,
                left as int,
            ),
        decreases left,
    {
        let factor: Num<S> = rt8_radial(r, p);
        if factor.magnitude().below(lit("1e-12")) {
            return r;
        }
        let r_new: Num<S> = r_d / factor;
        if (r_new - r).magnitude().below(lit("1e-12")) {
            return r_new;
        }
        r = r_new;
        left = left - 1;
    }
    r
}

/// Steps of the scan for a radius.
pub const RADIUS_STEPS: u32 = 4096;

pub open spec fn spec_scan_radius<S: Geometric>(i: u32) -> Num<S> {
    count(i) * (lit("16.0") / count(RADIUS_STEPS))
}

/// The radius of a step of the scan.
#[verifier::when_used_as_spec(spec_scan_radius)]
pub fn scan_radius<S: Geometric>(i: u32) -> (out: Num<S>)
    ensures
        deterministic::<S>() ==> out == scan_radius::<S>(i),
{
    count(i) * (lit("16.0") / count(RADIUS_STEPS))
}

/// The first step from `i` on whose distorted radius reaches `r_d`.
pub open spec fn first_reach<S: Geometric>(
    r_d: Num<S>,
    p: &RadialTangential8Params<S>,
    i: int,
) -> Option<int>
    decreases 4097 - i,
{
    if i > 4096 {
        None
    } else if r_d.at_most(rt8_distort(scan_radius::<S>(i as u32), p)) {
        Some(i)
    } else {
        first_reach(r_d, p, i + 1)
    }
}

/// The radius before step `i`.
pub open spec fn radius_before<S: Geometric>(i: int) -> Num<S> {
    if i <= 1 {
        zero()
    } else {
        scan_radius((i - 1) as u32)
    }
}

/// The undistorted radius at the first crossing of `r_d` below sixteen.
pub open spec fn corner_radius<S: Geometric>(
    r_d: Num<S>,
    p: &RadialTangential8Params<S>,
) -> Option<Num<S>> {
    match first_reach(r_d, p, 1) {
        None => None,
        Some(i) => Some(
            bisected(
                Probe::RadiusBelow { rt8: *p, target: r_d },
                radius_before(i),
                scan_radius(i as u32),
                lit("1e-12"),
                64,
            ),
        ),
    }
}

/// Recovers the undistorted radius of the distorted one by a scan for the first
/// crossing and bisection. None where the distortion never reaches `r_d`.
pub fn rt8_undistort_corner_radius<S: Geometric>(
    r_d: Num<S>,
    p: &RadialTangential8Params<S>,
) -> (r: Option<Num<S>>)
    ensures
        deterministic::<S>() ==> r == corner_radius(r_d, p),
{
    let mut lo: Num<S> = zero();
    let mut i: u32 = 1;
    while i <= RADIUS_STEPS
        invariant
            1 <= i <= 4097,
            deterministic::<S>() ==> first_reach(r_d, p, 1) == first_reach(r_d, p, i as int),
            deterministic::<S>() ==> lo == radius_before::<S>(i as int),
        decreases 4097 - i,
    {
        let r: Num<S> = scan_radius(i);
        if r_d.at_most(rt8_distort(r, p)) {
            return Some(
                bisect(
                    Probe::RadiusBelow { rt8: *p, target: r_d },
                    lo,
                    r,
                    lit("1e-12"),
                    64,
                ),
            );
        }
        lo = r;
        i = i + 1;
    }
    None
}

/// The normalized radius that a lens gives half a field of view.
pub open spec fn projected<N: Narrow>(
    half_fov: Num<N::Wide>,
    model: CameraModel<N>,
) -> Num<N::Wide> {
    match model {
        CameraModel::Pinhole => half_fov.tangent(),
        CameraModel::KannalaBrandt4(p) => kb4_d(half_fov, &widen_kb4(p)),
        CameraModel::RadialTangential8(p) => rt8_distort(half_fov.tangent(), &widen_rt8(p)),
        CameraModel::ThinPrismFisheye(p) => kb4_d(half_fov, &widen_kb4(p.kb4)),
    }
}

/// The focal length of a field of view.
pub open spec fn focal_of<N: Narrow>(
    fov: Num<N::Wide>,
    pixels: u32,
    model: CameraModel<N>,
) -> Num<N::Wide> {
    count::<N::Wide>(pixels) / lit("2.0") / projected(fov / lit("2.0"), model)
}

/// Converts a field of view to a focal length.
pub fn fov_to_focal<N: Narrow>(fov: Num<N::Wide>, pixels: u32, model: &CameraModel<N>) -> (r: Num<
    N::Wide,
>)
    ensures
        settled::<N>() ==> r == focal_of(fov, pixels, *model),
{
    let half_fov: Num<N::Wide> = fov / lit("2.0");
    let r_pix: Num<N::Wide> = count::<N::Wide>(pixels) / lit("2.0");
    let projected: Num<N::Wide> = match *model {
        CameraModel::Pinhole => half_fov.tangent(),
        CameraModel::KannalaBrandt4(p) => kb4_d(half_fov, &widen_kb4(p)),
        CameraModel::RadialTangential8(p) => rt8_distort(half_fov.tangent(), &widen_rt8(p)),
        CameraModel::ThinPrismFisheye(p) => kb4_d(half_fov, &widen_kb4(p.kb4)),
    };
    r_pix / projected
}

/// Half the field of view that reaches a normalized radius.
pub open spec fn half_field<N: Narrow>(
    r_norm: Num<N::Wide>,
    model: CameraModel<N>,
) -> Num<N::Wide> {
    match model {
        CameraModel::Pinhole => r_norm.arctangent(),
        CameraModel::KannalaBrandt4(p) => angle_of(r_norm, &widen_kb4(p)),
        CameraModel::RadialTangential8(p) => undistorted(
            r_norm,
            r_norm,
            &widen_rt8(p),
            30,
        ).arctangent(),
        CameraModel::ThinPrismFisheye(p) => angle_of(r_norm, &widen_kb4(p.kb4)),
    }
}

/// The field of view of a focal length.
pub open spec fn fov_of<N: Narrow>(
    focal: Num<N::Wide>,
    pixels: u32,
    model: CameraModel<N>,
) -> Num<N::Wide> {
    lit("2.0") * half_field(count::<N::Wide>(pixels) / lit("2.0") / focal, model)
}

/// Converts a focal length to a field of view.
pub fn focal_to_fov<N: Narrow>(focal: Num<N::Wide>, pixels: u32, model: &CameraModel<N>) -> (r: Num<
    N::Wide,
>)
    ensures
        settled::<N>() ==> r == fov_of(focal, pixels, *model),
{
    let r_pix: Num<N::Wide> = count::<N::Wide>(pixels) / lit("2.0");
    let r_norm: Num<N::Wide> = r_pix / focal;
    let half_fov: Num<N::Wide> = match *model {
        CameraModel::Pinhole => r_norm.arctangent(),
        CameraModel::KannalaBrandt4(p) => kb4_invert_d(r_norm, &widen_kb4(p)),
        CameraModel::RadialTangential8(p) => rt8_undistort_radius(
            r_norm,
            &widen_rt8(p),
        ).arctangent(),
        CameraModel::ThinPrismFisheye(p) => kb4_invert_d(r_norm, &widen_kb4(p.kb4)),
    };
    lit("2.0") * half_fov
}

/// The largest polar angle that a lens projects without folding back.
pub open spec fn fold_limit<N: Narrow>(model: CameraModel<N>) -> Num<N::Wide> {
    match model {
        CameraModel::Pinhole => pi(),
        CameraModel::KannalaBrandt4(p) => fold_of(&widen_kb4(p)),
        CameraModel::RadialTangential8(_) => pi(),
        CameraModel::ThinPrismFisheye(p) => fold_of(&widen_kb4(p.kb4)),
    }
}

/// The largest polar angle that a lens projects without folding back; half a
/// turn for a lens without a fold.
pub fn max_render_theta<N: Narrow>(model: &CameraModel<N>) -> (r: Num<N::Wide>)
    ensures
        settled::<N>() ==> r == fold_limit(*model),
{
    match *model {
        CameraModel::Pinhole => pi(),
        CameraModel::KannalaBrandt4(p) => kb4_fold_theta(&widen_kb4(p)),
        CameraModel::RadialTangential8(_) => pi(),
        CameraModel::ThinPrismFisheye(p) => kb4_fold_theta(&widen_kb4(p.kb4)),
    }
}

/// A thin-prism lens has the field of view, the focal length and the fold of
/// its fisheye polynomial.
pub proof fn thin_prism_shares_the_polynomial<N: Narrow>(
    p: ThinPrismFisheyeParams<N>,
    length: Num<N::Wide>,
    pixels: u32,
)
    ensures
        fov_of(length, pixels, CameraModel::ThinPrismFisheye(p)) == fov_of(
            length,
            pixels,
            CameraModel::KannalaBrandt4(p.kb4),
        ),
        focal_of(length, pixels, CameraModel::ThinPrismFisheye(p)) == focal_of(
            length,
            pixels,
            CameraModel::KannalaBrandt4(p.kb4),
        ),
        fold_limit(CameraModel::ThinPrismFisheye(p)) == fold_limit(
            CameraModel::KannalaBrandt4(p.kb4),
        ),
{
}

/// A fisheye lens never reports more than twice its fold as a field of view:
/// a normalized radius past the fold's gives the fold itself.
pub proof fn field_of_view_saturates_at_the_fold<N: Narrow>(
    focal: Num<N::Wide>,
    pixels: u32,
    p: KannalaBrandt4Params<N>,
)
    requires
        ({
            let r_norm = count::<N::Wide>(pixels) / lit("2.0") / focal;
            let wide = widen_kb4(p);
            !r_norm.at_most(zero()) && kb4_d(fold_of(&wide), &wide).at_most(r_norm)
        }),
    ensures
        fov_of(focal, pixels, CameraModel::KannalaBrandt4(p)) == lit("2.0") * fold_limit(
            CameraModel::KannalaBrandt4(p),
        ),
{
}

/// Focal lengths and centre of a projection, in pixels.
#[derive(Clone, Copy, Debug)]
pub struct PinholeParams<S> {
    pub fx: Num<S>,
    pub fy: Num<S>,
    pub cx: Num<S>,
    pub cy: Num<S>,
}

/// Bounds of the normalized coordinates that a projection's Jacobian is
/// evaluated at.
#[derive(Clone, Copy, Debug)]
pub struct JacobianClampLimits<S> {
    pub lim_pos_x: Num<S>,
    pub lim_pos_y: Num<S>,
    pub lim_neg_x: Num<S>,
    pub lim_neg_y: Num<S>,
    pub lim_r: Num<S>,
}

pub open spec fn spec_edge<S: Geometric>(
    margin: Num<S>,
    pixels: u32,
    c: Num<S>,
    f: Num<S>,
) -> Num<S> {
    (margin * count(pixels) - c) / f
}

/// The normalized coordinate of an image edge, moved out by a margin.
#[verifier::when_used_as_spec(spec_edge)]
pub fn edge<S: Geometric>(margin: Num<S>, pixels: u32, c: Num<S>, f: Num<S>) -> (out: Num<S>)
    ensures
        deterministic::<S>() ==> out == edge(margin, pixels, c, f),
{
    (margin * count(pixels) - c) / f
}

pub open spec fn spec_undistorted_edge<N: Narrow>(
    edge: Num<N>,
    p: RadialTangential8Params<N>,
) -> Num<N> {
    let r_d = widen(edge).magnitude();
    narrow::<N>(undistorted(r_d, r_d, &widen_rt8(p), 30)) * edge.sign()
}

/// The undistorted coordinate of an edge.
#[verifier::when_used_as_spec(spec_undistorted_edge)]
pub fn undistorted_edge<N: Narrow>(edge: Num<N>, p: RadialTangential8Params<N>) -> (r: Num<N>)
    ensures
        settled::<N>() ==> r == undistorted_edge(edge, p),
{
    let r_d: Num<N::Wide> = widen(edge).magnitude();
    narrow::<N>(rt8_undistort_radius(r_d, &widen_rt8(p))) * edge.sign()
}

pub open spec fn spec_corner_distance<N: Narrow>(
    pos_x: Num<N>,
    neg_x: Num<N>,
    pos_y: Num<N>,
    neg_y: Num<N>,
) -> Num<N::Wide> {
    widen(pos_x.magnitude().larger(neg_x.magnitude())).hypotenuse(
        widen(pos_y.magnitude().larger(neg_y.magnitude())),
    )
}

/// The distance of the farthest corner of a box.
#[verifier::when_used_as_spec(spec_corner_distance)]
pub fn corner_distance<N: Narrow>(
    pos_x: Num<N>,
    neg_x: Num<N>,
    pos_y: Num<N>,
    neg_y: Num<N>,
) -> (r: Num<N::Wide>)
    ensures
        settled::<N>() ==> r == corner_distance(pos_x, neg_x, pos_y, neg_y),
{
    widen(pos_x.magnitude().larger(neg_x.magnitude())).hypotenuse(
        widen(pos_y.magnitude().larger(neg_y.magnitude())),
    )
}

/// The bounds for a lens: those of the image with a margin for a pinhole, the
/// same undistorted for the rational model, with the radius of the image's
/// corner where the distortion reaches it, and none for fisheye lenses.
pub open spec fn clamp_limits<N: Narrow>(
    img_size: UVec2,
    pinhole: PinholeParams<N>,
    model: CameraModel<N>,
) -> JacobianClampLimits<N> {
    let pos_x = edge(lit("1.15"), img_size.x, pinhole.cx, pinhole.fx);
    let pos_y = edge(lit("1.15"), img_size.y, pinhole.cy, pinhole.fy);
    let neg_x = edge(lit("-0.15"), img_size.x, pinhole.cx, pinhole.fx);
    let neg_y = edge(lit("-0.15"), img_size.y, pinhole.cy, pinhole.fy);
    match model {
        CameraModel::Pinhole => JacobianClampLimits {
            lim_pos_x: pos_x,
            lim_pos_y: pos_y,
            lim_neg_x: neg_x,
            lim_neg_y: neg_y,
            lim_r: largest(),
        },
        CameraModel::RadialTangential8(p) => JacobianClampLimits {
            lim_pos_x: undistorted_edge(pos_x, p),
            lim_pos_y: undistorted_edge(pos_y, p),
            lim_neg_x: undistorted_edge(neg_x, p),
            lim_neg_y: undistorted_edge(neg_y, p),
            lim_r: match corner_radius(
                corner_distance(pos_x, neg_x, pos_y, neg_y),
                &widen_rt8(p),
            ) {
                Some(r) => narrow::<N>(r),
                None => largest(),
            },
        },
        _ => JacobianClampLimits {
            lim_pos_x: zero(),
            lim_pos_y: zero(),
            lim_neg_x: zero(),
            lim_neg_y: zero(),
            lim_r: largest(),
        },
    }
}

/// Bounds the coordinates that a projection's Jacobian is evaluated at, so that
/// it does not blow up near the edge of the field of view.
pub fn calculate_jacobian_clamp_limits<N: Narrow>(
    img_size: UVec2,
    pinhole_params: PinholeParams<N>,
    camera_model: CameraModel<N>,
) -> (r: JacobianClampLimits<N>)
    ensures
        settled::<N>() ==> r == clamp_limits(img_size, pinhole_params, camera_model),
{
    let PinholeParams { fx, fy, cx, cy } = pinhole_params;
    let pos_x: Num<N> = edge(lit("1.15"), img_size.x, cx, fx);
    let pos_y: Num<N> = edge(lit("1.15"), img_size.y, cy, fy);
    let neg_x: Num<N> = edge(lit("-0.15"), img_size.x, cx, fx);
    let neg_y: Num<N> = edge(lit("-0.15"), img_size.y, cy, fy);
    match camera_model {
        CameraModel::Pinhole => JacobianClampLimits {
            lim_pos_x: pos_x,
            lim_pos_y: pos_y,
            lim_neg_x: neg_x,
            lim_neg_y: neg_y,
            lim_r: largest(),
        },
        CameraModel::RadialTangential8(p) => {
            let corner: Num<N::Wide> = corner_distance(pos_x, neg_x, pos_y, neg_y);
            let lim_r: Num<N> = match rt8_undistort_corner_radius(corner, &widen_rt8(p)) {
                Some(r) => narrow::<N>(r),
                None => largest(),
            };
            JacobianClampLimits {
                lim_pos_x: undistorted_edge(pos_x, p),
                lim_pos_y: undistorted_edge(pos_y, p),
                lim_neg_x: undistorted_edge(neg_x, p),
                lim_neg_y: undistorted_edge(neg_y, p),
                lim_r,
            }
        },
        _ => JacobianClampLimits {
            lim_pos_x: zero(),
            lim_pos_y: zero(),
            lim_neg_x: zero(),
            lim_neg_y: zero(),
            lim_r: largest(),
        },
    }
}

/// A camera: its pose, its fields of view, the place of its centre in the
/// image, and its lens.
#[derive(Clone, Copy, Debug)]
pub struct Camera<N: Narrow> {
    pub fov_x: Num<N::Wide>,
    pub fov_y: Num<N::Wide>,
    pub center_uv: Vec2<N>,
    pub position: Vec3<N>,
    pub rotation: Quat<N>,
    pub camera_model: CameraModel<N>,
}

impl<N: Narrow> Camera<N> {
    pub fn new(
        position: Vec3<N>,
        rotation: Quat<N>,
        fov_x: Num<N::Wide>,
        fov_y: Num<N::Wide>,
        center_uv: Vec2<N>,
        camera_model: CameraModel<N>,
    ) -> (c: Camera<N>)
        ensures
            c == (Camera { fov_x, fov_y, center_uv, position, rotation, camera_model }),
    {
        Camera { fov_x, fov_y, center_uv, position, rotation, camera_model }
    }

    /// Every number of the pose and of the fields of view is finite.
    pub open spec fn all_finite(self) -> bool {
        &&& self.fov_x.finite()
        &&& self.fov_y.finite()
        &&& self.center_uv.x.finite()
        &&& self.center_uv.y.finite()
        &&& self.position.x.finite()
        &&& self.position.y.finite()
        &&& self.position.z.finite()
        &&& self.rotation.x.finite()
        &&& self.rotation.y.finite()
        &&& self.rotation.z.finite()
        &&& self.rotation.w.finite()
    }

    /// Whether the camera's settings are finite numbers.
    pub fn is_valid(&self) -> (r: bool)
        ensures
            settled::<N>() ==> r == self.all_finite(),
    {
        self.fov_x.finite() && self.fov_y.finite() && self.center_uv.x.finite()
            && self.center_uv.y.finite() && self.position.x.finite() && self.position.y.finite()
            && self.position.z.finite() && self.rotation.x.finite() && self.rotation.y.finite()
            && self.rotation.z.finite() && self.rotation.w.finite()
    }

    /// Focal lengths in pixels.
    pub open spec fn focals(self, img_size: UVec2) -> Vec2<N> {
        Vec2 {
            x: narrow::<N>(focal_of(self.fov_x, img_size.x, self.camera_model)),
            y: narrow::<N>(focal_of(self.fov_y, img_size.y, self.camera_model)),
        }
    }

    /// Focal lengths in pixels.
    pub fn focal(&self, img_size: UVec2) -> (r: Vec2<N>)
        ensures
            settled::<N>() ==> r == self.focals(img_size),
    {
        Vec2 {
            x: narrow::<N>(fov_to_focal(self.fov_x, img_size.x, &self.camera_model)),
            y: narrow::<N>(fov_to_focal(self.fov_y, img_size.y, &self.camera_model)),
        }
    }

    /// The centre in pixels.
    pub open spec fn center_at(self, img_size: UVec2) -> Vec2<N> {
        Vec2 {
            x: self.center_uv.x * count(img_size.x),
            y: self.center_uv.y * count(img_size.y),
        }
    }

    /// The centre in pixels.
    pub fn center(&self, img_size: UVec2) -> (r: Vec2<N>)
        ensures
            settled::<N>() ==> r == self.center_at(img_size),
    {
        Vec2 {
            x: self.center_uv.x * count(img_size.x),
            y: self.center_uv.y * count(img_size.y),
        }
    }

    /// The focal lengths and the centre in an image of a size.
    pub open spec fn pinhole_at(self, img_size: UVec2) -> PinholeParams<N> {
        PinholeParams {
            fx: self.focals(img_size).x,
            fy: self.focals(img_size).y,
            cx: self.center_at(img_size).x,
            cy: self.center_at(img_size).y,
        }
    }

    /// The focal lengths and the centre in an image of a size.
    pub fn build_pinhole_params(&self, img_size: UVec2) -> (r: PinholeParams<N>)
        ensures
            settled::<N>() ==> r == self.pinhole_at(img_size),
    {
        let focal: Vec2<N> = self.focal(img_size);
        let center: Vec2<N> = self.center(img_size);
        PinholeParams { fx: focal.x, fy: focal.y, cx: center.x, cy: center.y }
    }

    /// The same pose and field of view with an ideal pinhole for a lens.
    pub fn with_pinhole(&self) -> (c: Camera<N>)
        ensures
            c == (Camera { camera_model: CameraModel::Pinhole, ..*self }),
    {
        Camera {
            fov_x: self.fov_x,
            fov_y: self.fov_y,
            center_uv: self.center_uv,
            position: self.position,
            rotation: self.rotation,
            camera_model: CameraModel::Pinhole,
        }
    }
}

/// What a type's conversions return is what the lens equations take them to
/// return.
pub proof fn lenses_use_the_conversions_of_the_type<N: Narrow>()
    requires
        settled::<N>(),
    ensures
        forall|a: Num<N>, r: N::Wide|
            #[trigger] call_ensures(N::widened, (a.value,), r) ==> widen(a).value == r,
        forall|a: Num<N::Wide>, r: N|
            #[trigger] call_ensures(N::narrowed, (a.value,), r) ==> narrow::<N>(a).value == r,
{
}

/// A lens without a fisheye polynomial does not fold: it is limited by half a
/// turn alone, whatever its distortion.
pub proof fn lenses_without_a_polynomial_do_not_fold<N: Narrow>(p: RadialTangential8Params<N>)
    ensures
        fold_limit::<N>(CameraModel::Pinhole) == pi::<N::Wide>(),
        fold_limit(CameraModel::RadialTangential8(p)) == fold_limit::<N>(CameraModel::Pinhole),
{
}

} // verus!
