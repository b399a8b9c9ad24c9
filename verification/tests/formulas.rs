//! Lenses, projections, spherical-harmonic color and scale floors, run on
//! floating-point numbers.

use brush::camera::{
    bisect, calculate_jacobian_clamp_limits, focal_to_fov, fov_to_focal, kb4_d, kb4_dd_dtheta,
    kb4_fold_theta, kb4_invert_d, max_render_theta, rt8_radial, rt8_undistort_corner_radius,
    rt8_undistort_radius, widen_kb4, widen_rt8, Camera, CameraModel, JacobianClampLimits,
    KannalaBrandt4Params, Narrow, PinholeParams, Probe, RadialTangential8Params,
    ThinPrismFisheyeParams,
};
use brush::gaussian_splats::{RasterPass, SplatRenderMode, Splats, TextureMode};
use brush::num::{Geometric, Num, Quat, Vec2, Vec3};
use brush::projection::{
    calculate_project_jacobian_pinhole, calculate_project_jacobian_rt8,
    calculate_projection_vjp_pinhole, calculate_projection_vjp_rt8, project_pinhole, project_rt8,
    ImageGradient, Mat2x3, Sym2, Sym3,
};
use brush::psnr::{psnr, psnr_from_mse};
use brush::quantized::QuantMeta;
use brush::ply_stream::{almost_read, splat_progress};
use brush::raster_census::UVec2;
use brush::render_bwd::{dense_sh_values, ProjectShape};
use brush::scalar::Scalar;
use brush::scale_floor::{display_inputs, fold_min_scale, inverse_sigmoid};
use brush::sh_color::{
    basis_value, color_weight, compact_gradient_rows, dense_gradient_rows, gradient_value, sh_basis,
    sh_coeffs_to_color, sh_coeffs_to_color_vjp, sh_color_viewdir_vjp, view_direction,
};
use brush::sh_grad_materialize::ShGradTerm;
use brush::splat_data::SplatDefaults;
use brush::distribution::{
    base_color_byte, drawn_radius, render_bytes, splat_distribution, splat_shapes, Recorded,
};
use brush::resize::{resize_to, resize_to_max, shrunk_size, RgbPixels};
use brush::visual_log::{distribution_entries, LogEntry, LogValue};
use brush::visualize::percentiles;

#[derive(Clone, Copy, Debug, PartialEq)]
struct F(f32);

impl Scalar for F {
    fn literal(text: &'static str) -> Self {
        F(text.parse().expect("a formula's literal is a number"))
    }
    fn exp(self) -> Self {
        F(self.0.exp())
    }
    fn zero() -> Self {
        F(0.0)
    }
    fn one() -> Self {
        F(1.0)
    }
    fn two() -> Self {
        F(2.0)
    }
    fn three() -> Self {
        F(3.0)
    }
    fn from_count(count: u32) -> Self {
        F(count as f32)
    }
    fn plus(self, other: Self) -> Self {
        F(self.0 + other.0)
    }
    fn minus(self, other: Self) -> Self {
        F(self.0 - other.0)
    }
    fn times(self, other: Self) -> Self {
        F(self.0 * other.0)
    }
    fn over(self, other: Self) -> Self {
        F(self.0 / other.0)
    }
    fn negated(self) -> Self {
        F(-self.0)
    }
    fn magnitude(self) -> Self {
        F(self.0.abs())
    }
    fn larger(self, other: Self) -> Self {
        F(self.0.max(other.0))
    }
    fn within_unit(self) -> Self {
        F(self.0.clamp(-1.0, 1.0))
    }
    fn less(self, other: Self) -> bool {
        self.0 < other.0
    }
    fn same(self, other: Self) -> bool {
        self.0 == other.0
    }
}

impl Recorded for F {
    fn of_bits(bits: u32) -> Self {
        F(f32::from_bits(bits))
    }
    fn bits(self) -> u32 {
        self.0.to_bits()
    }
    fn log_ten(self) -> Self {
        F(self.0.log10())
    }
    fn truncated(self) -> u64 {
        self.0 as u64
    }
}

impl Geometric for F {
    fn pi() -> Self {
        F(std::f32::consts::PI)
    }
    fn largest() -> Self {
        F(f32::MAX)
    }
    fn ln(self) -> Self {
        F(self.0.ln())
    }
    fn sigmoid(self) -> Self {
        F(1.0 / (1.0 + (-self.0).exp()))
    }
    fn tangent(self) -> Self {
        F(self.0.tan())
    }
    fn arctangent(self) -> Self {
        F(self.0.atan())
    }
    fn root(self) -> Self {
        F(self.0.sqrt())
    }
    fn sign(self) -> Self {
        F(self.0.signum())
    }
    fn hypotenuse(self, other: Self) -> Self {
        F(self.0.hypot(other.0))
    }
    fn held(self, low: Self, high: Self) -> Self {
        F(self.0.max(low.0).min(high.0))
    }
    fn finite(self) -> bool {
        self.0.is_finite()
    }
    fn nearest(self) -> u64 {
        self.0.round() as u64
    }
}

#[derive(Clone, Copy, Debug, PartialEq)]
struct D(f64);

impl Scalar for D {
    fn literal(text: &'static str) -> Self {
        D(text.parse().expect("a formula's literal is a number"))
    }
    fn exp(self) -> Self {
        D(self.0.exp())
    }
    fn zero() -> Self {
        D(0.0)
    }
    fn one() -> Self {
        D(1.0)
    }
    fn two() -> Self {
        D(2.0)
    }
    fn three() -> Self {
        D(3.0)
    }
    fn from_count(count: u32) -> Self {
        D(count as f64)
    }
    fn plus(self, other: Self) -> Self {
        D(self.0 + other.0)
    }
    fn minus(self, other: Self) -> Self {
        D(self.0 - other.0)
    }
    fn times(self, other: Self) -> Self {
        D(self.0 * other.0)
    }
    fn over(self, other: Self) -> Self {
        D(self.0 / other.0)
    }
    fn negated(self) -> Self {
        D(-self.0)
    }
    fn magnitude(self) -> Self {
        D(self.0.abs())
    }
    fn larger(self, other: Self) -> Self {
        D(self.0.max(other.0))
    }
    fn within_unit(self) -> Self {
        D(self.0.clamp(-1.0, 1.0))
    }
    fn less(self, other: Self) -> bool {
        self.0 < other.0
    }
    fn same(self, other: Self) -> bool {
        self.0 == other.0
    }
}

impl Geometric for D {
    fn pi() -> Self {
        D(std::f64::consts::PI)
    }
    fn largest() -> Self {
        D(f64::MAX)
    }
    fn ln(self) -> Self {
        D(self.0.ln())
    }
    fn sigmoid(self) -> Self {
        D(1.0 / (1.0 + (-self.0).exp()))
    }
    fn tangent(self) -> Self {
        D(self.0.tan())
    }
    fn arctangent(self) -> Self {
        D(self.0.atan())
    }
    fn root(self) -> Self {
        D(self.0.sqrt())
    }
    fn sign(self) -> Self {
        D(self.0.signum())
    }
    fn hypotenuse(self, other: Self) -> Self {
        D(self.0.hypot(other.0))
    }
    fn held(self, low: Self, high: Self) -> Self {
        D(self.0.max(low.0).min(high.0))
    }
    fn finite(self) -> bool {
        self.0.is_finite()
    }
    fn nearest(self) -> u64 {
        self.0.round() as u64
    }
}

impl Narrow for F {
    type Wide = D;
    fn widened(self) -> D {
        D(self.0 as f64)
    }
    fn narrowed(wide: D) -> F {
        F(wide.0 as f32)
    }
}

fn f(v: f32) -> Num<F> {
    Num { value: F(v) }
}

fn d(v: f64) -> Num<D> {
    Num { value: D(v) }
}

fn v3(x: f64, y: f64, z: f64) -> Vec3<D> {
    Vec3 { x: d(x), y: d(y), z: d(z) }
}

fn parts(v: Vec3<D>) -> [f64; 3] {
    [v.x.value.0, v.y.value.0, v.z.value.0]
}

fn kb4(k1: f32, k2: f32, k3: f32, k4: f32) -> KannalaBrandt4Params<F> {
    KannalaBrandt4Params { k1: f(k1), k2: f(k2), k3: f(k3), k4: f(k4) }
}

fn rt8(k: [f32; 6], p: [f32; 2]) -> RadialTangential8Params<F> {
    RadialTangential8Params {
        k1: f(k[0]),
        k2: f(k[1]),
        k3: f(k[2]),
        k4: f(k[3]),
        k5: f(k[4]),
        k6: f(k[5]),
        p1: f(p[0]),
        p2: f(p[1]),
    }
}

fn thin_prism(kb4: KannalaBrandt4Params<F>) -> CameraModel<F> {
    CameraModel::ThinPrismFisheye(ThinPrismFisheyeParams {
        kb4,
        p1: f(1e-3),
        p2: f(-2e-3),
        sx1: f(5e-4),
        sy1: f(-5e-4),
    })
}

// Near-rectilinear phone ultrawide fit: the polynomial tracks tan(theta) inside
// the image, peaks at 65 degrees and goes negative past 80.
fn ultrawide() -> KannalaBrandt4Params<F> {
    kb4(0.278781, 0.464781, -0.148871, -0.150010)
}

fn ultrawide_d() -> KannalaBrandt4Params<D> {
    widen_kb4(ultrawide())
}

const ULTRAWIDE_IMG: UVec2 = UVec2 { x: 4032, y: 3024 };
const ULTRAWIDE_FOCAL: f64 = 1606.3915;
const ULTRAWIDE_FOV_X: f64 = 103.5;

fn deg(rad: f64) -> f64 {
    rad.to_degrees()
}

fn to_fov(focal: f64, pixels: u32, model: &CameraModel<F>) -> f64 {
    focal_to_fov(d(focal), pixels, model).value.0
}

fn to_focal(fov: f64, pixels: u32, model: &CameraModel<F>) -> f64 {
    fov_to_focal(d(fov), pixels, model).value.0
}

fn fold() -> f64 {
    kb4_fold_theta(&ultrawide_d()).value.0
}

#[test]
fn ultrawide_polynomial_folds_inside_hemisphere() {
    let p = ultrawide_d();
    let value = |theta: f64| kb4_d(d(theta), &p).value.0;
    assert!((deg(fold()) - 65.0).abs() < 0.1, "fold at {}", deg(fold()));
    assert!(kb4_dd_dtheta(d(fold()), &p).value.0.abs() < 1e-6);
    // Strictly increasing up to the fold, folded back and negative after.
    let mut prev = 0.0;
    for i in 1..=1000 {
        let next = value(fold() * i as f64 / 1000.0);
        assert!(next > prev);
        prev = next;
    }
    assert!(value(70f64.to_radians()) < value(fold()));
    assert!(value(85f64.to_radians()) < 0.0);
}

#[test]
fn ultrawide_fov_from_focal_stays_on_rising_branch() {
    let model = CameraModel::KannalaBrandt4(ultrawide());
    let fov_x = deg(to_fov(ULTRAWIDE_FOCAL, ULTRAWIDE_IMG.x, &model));
    assert!((fov_x - ULTRAWIDE_FOV_X).abs() < 0.01, "fov_x = {fov_x}, expected {ULTRAWIDE_FOV_X}");
    let fov_y = deg(to_fov(ULTRAWIDE_FOCAL, ULTRAWIDE_IMG.y, &model));
    assert!((fov_y - 85.6).abs() < 0.1, "fov_y = {fov_y}");

    // Thin prism shares the radial polynomial, so it must agree.
    let tpf_fov_x = deg(to_fov(ULTRAWIDE_FOCAL, ULTRAWIDE_IMG.x, &thin_prism(ultrawide())));
    assert!((tpf_fov_x - fov_x).abs() < 1e-9);
}

#[test]
fn ultrawide_focal_round_trips() {
    let model = CameraModel::KannalaBrandt4(ultrawide());
    for (pixels, focal) in [
        (ULTRAWIDE_IMG.x, ULTRAWIDE_FOCAL),
        (ULTRAWIDE_IMG.y, ULTRAWIDE_FOCAL),
        (1920, 900.0),
        (640, 260.0),
    ] {
        let fov = to_fov(focal, pixels, &model);
        let back = to_focal(fov, pixels, &model);
        assert!((back - focal).abs() < 1e-6 * focal, "focal {focal} -> fov {} -> focal {back}", deg(fov));
    }
    for fov_deg in [10.0, 60.0, 103.5, 125.0] {
        let fov = f64::to_radians(fov_deg);
        let focal = to_focal(fov, ULTRAWIDE_IMG.x, &model);
        let back = to_fov(focal, ULTRAWIDE_IMG.x, &model);
        assert!((back - fov).abs() < 1e-9, "fov {fov_deg} -> {}", deg(back));
    }

    // A focal so short the image edge lies past the polynomial's peak
    // can't round trip: the fov saturates at the fold instead.
    assert_eq!(to_fov(200.0, 640, &model), 2.0 * fold());
}

#[test]
fn targets_past_the_fold_clamp_to_it() {
    let p = ultrawide_d();
    let invert = |target: f64| kb4_invert_d(d(target), &p).value.0;
    let d_max = kb4_d(d(fold()), &p).value.0;
    assert_eq!(invert(d_max), fold());
    assert_eq!(invert(d_max * 10.0), fold());
    assert_eq!(invert(0.0), 0.0);
    assert_eq!(invert(-1.0), 0.0);
}

#[test]
fn render_theta_is_capped_at_the_fold() {
    let model = CameraModel::KannalaBrandt4(ultrawide());
    let fov_x = to_fov(ULTRAWIDE_FOCAL, ULTRAWIDE_IMG.x, &model);
    let fov_y = to_fov(ULTRAWIDE_FOCAL, ULTRAWIDE_IMG.y, &model);
    // The diagonal-based cull margin reaches past the fold for this lens,
    // so without the cap splats outside the lens get projected mirrored.
    let uncapped = fov_x.hypot(fov_y) * 1.05 * 0.5;
    let cap = max_render_theta(&model).value.0;
    assert!(cap < uncapped, "cap {} vs {}", deg(cap), deg(uncapped));
    assert!((deg(cap) - 65.0).abs() < 0.1);
    assert_eq!(max_render_theta(&thin_prism(ultrawide())).value.0, cap);
    assert_eq!(max_render_theta::<F>(&CameraModel::Pinhole).value.0, std::f64::consts::PI);
}

fn lens(fx: f32, cx: f32, cy: f32) -> PinholeParams<F> {
    PinholeParams { fx: f(fx), fy: f(fx), cx: f(cx), cy: f(cy) }
}

const HD: UVec2 = UVec2 { x: 1920, y: 1080 };

#[test]
fn rt8_radial_cap_matches_image_corner() {
    // Pincushion-ish rational fit: the box corner reaches further out
    // than the image corner's true undistorted radius.
    let p = rt8([0.15, 0.08, 0.02, 0.03, 0.0, 0.0], [0.001, -0.002]);
    let limits = calculate_jacobian_clamp_limits(HD, lens(800.0, 960.0, 540.0), CameraModel::RadialTangential8(p));

    // lim_r is the undistorted radius of the same-margin image corner.
    let corner_d = ((1.15 * 1920.0 - 960.0) / 800.0f64).hypot((1.15 * 1080.0 - 540.0) / 800.0);
    let lim_r = limits.lim_r.value.0;
    let radial = rt8_radial(d(lim_r as f64), &widen_rt8(p)).value.0;
    assert!((lim_r as f64 * radial - corner_d).abs() < 1e-5);
    // ... and tighter than the box corner it is meant to cut off.
    let (pos_x, pos_y) = (limits.lim_pos_x.value.0, limits.lim_pos_y.value.0);
    let box_corner = pos_x.hypot(pos_y);
    assert!(lim_r < box_corner, "{lim_r} vs {box_corner}");
    // Per-axis limits stay inside the cap.
    assert!(pos_x < lim_r && pos_y < lim_r);
}

#[test]
fn rt8_radial_cap_is_unbounded_when_the_polynomial_folds() {
    // Strong barrel: the distorted radius peaks below the corner radius, so
    // there is no crossing and the cap must not engage.
    let p = rt8([-0.5, 0.0, 0.0, 0.0, 0.0, 0.0], [0.0, 0.0]);
    let pinhole = lens(500.0, 960.0, 540.0);
    let limits = calculate_jacobian_clamp_limits(HD, pinhole, CameraModel::RadialTangential8(p));
    assert_eq!(limits.lim_r.value.0, f32::MAX);
    assert!(rt8_undistort_corner_radius(d(10.0), &widen_rt8(p)).is_none());

    // Other models leave the field unused.
    for model in [CameraModel::Pinhole, CameraModel::KannalaBrandt4(ultrawide())] {
        assert_eq!(calculate_jacobian_clamp_limits(HD, pinhole, model).lim_r.value.0, f32::MAX);
    }
}

#[test]
fn clamp_limits_of_each_lens() {
    let pinhole = lens(500.0, 960.0, 540.0);
    let limits = calculate_jacobian_clamp_limits(HD, pinhole, CameraModel::Pinhole);
    assert_eq!(limits.lim_pos_x.value.0, (1.15 * 1920.0 - 960.0) / 500.0);
    assert_eq!(limits.lim_neg_y.value.0, (-0.15 * 1080.0 - 540.0) / 500.0);
    let fisheye = calculate_jacobian_clamp_limits(HD, pinhole, CameraModel::KannalaBrandt4(ultrawide()));
    assert_eq!((fisheye.lim_pos_x.value.0, fisheye.lim_neg_y.value.0), (0.0, 0.0));
    // A lens without distortion has the limits of a pinhole.
    let plain = rt8([0.0; 6], [0.0; 2]);
    let undistorted = calculate_jacobian_clamp_limits(HD, pinhole, CameraModel::RadialTangential8(plain));
    assert_eq!(undistorted.lim_pos_x.value, limits.lim_pos_x.value);
    assert_eq!(undistorted.lim_neg_x.value, limits.lim_neg_x.value);
    assert_eq!(rt8_undistort_radius(d(0.7), &widen_rt8(plain)).value.0, 0.7);
}

fn pose(model: CameraModel<F>) -> Camera<F> {
    Camera::new(
        Vec3 { x: f(1.0), y: f(2.0), z: f(3.0) },
        Quat { x: f(0.0), y: f(0.149), z: f(0.0), w: f(0.989) },
        d(1.2),
        d(0.9),
        Vec2 { x: f(0.4), y: f(0.6) },
        model,
    )
}

#[test]
fn with_pinhole_only_swaps_the_model() {
    let cam = pose(CameraModel::KannalaBrandt4(ultrawide()));
    let pin = cam.with_pinhole();
    assert!(matches!(pin.camera_model, CameraModel::Pinhole));
    assert_eq!(format!("{pin:?}"), format!("{:?}", Camera { camera_model: CameraModel::Pinhole, ..cam }));
}

#[test]
fn cameras_give_focal_lengths_and_centres() {
    let cam = pose(CameraModel::Pinhole);
    assert!(cam.is_valid());
    assert!(!Camera { fov_x: d(f64::NAN), ..cam }.is_valid());
    assert!(!Camera { rotation: Quat { w: f(f32::INFINITY), ..cam.rotation }, ..cam }.is_valid());
    let size = UVec2 { x: 100, y: 50 };
    let focal = cam.focal(size);
    assert_eq!(focal.x.value.0, (50.0 / 0.6f64.tan()) as f32);
    let center = cam.center(size);
    assert_eq!((center.x.value.0, center.y.value.0), (0.4f32 * 100.0, 0.6f32 * 50.0));
    let params = cam.build_pinhole_params(size);
    assert_eq!((params.fx.value, params.fy.value), (focal.x.value, focal.y.value));
    assert_eq!((params.cx.value, params.cy.value), (center.x.value, center.y.value));
}

#[test]
fn equidistant_lens_has_no_fold() {
    let ident = kb4(0.0, 0.0, 0.0, 0.0);
    let wide = widen_kb4(ident);
    assert_eq!(kb4_fold_theta(&wide).value.0, std::f64::consts::PI);
    assert_eq!(max_render_theta(&CameraModel::KannalaBrandt4(ident)).value.0, std::f64::consts::PI);
    for theta in [0.1, 1.0, 2.0, 3.0] {
        assert!((kb4_invert_d(d(theta), &wide).value.0 - theta).abs() < 1e-12);
    }
}

#[test]
fn bisection_finds_the_turn() {
    let probe = Probe::AngleBelow { p: widen_kb4(kb4(0.0, 0.0, 0.0, 0.0)), target: d(0.3) };
    assert!((bisect(probe, d(0.0), d(1.0), d(1e-12), 64).value.0 - 0.3).abs() < 1e-12);
    assert_eq!(bisect(probe, d(0.0), d(1.0), d(1e-12), 1).value.0, 0.25);
    assert!(probe.holds(d(0.2)) && !probe.holds(d(0.3)));
}

#[test]
fn pinhole_focal_to_fov_and_back() {
    let model = CameraModel::Pinhole;
    let fov = to_fov(800.0, 1920, &model);
    assert!((800.0 - to_focal(fov, 1920, &model)).abs() < 1e-9);
}

#[test]
fn kb4_focal_to_fov_and_back_no_distortion() {
    let model = CameraModel::KannalaBrandt4(kb4(0.0, 0.0, 0.0, 0.0));
    let f = 300.0;
    let pixels = 1024;
    let fov = to_fov(f, pixels, &model);
    // Without distortion the image radius is f times theta, so the total field
    // of view is pixels / f.
    let expected = (pixels as f64) / f;
    assert!((fov - expected).abs() < 1e-9);
    assert!((f - to_focal(fov, pixels, &model)).abs() < 1e-9);
}

#[test]
fn kb4_focal_to_fov_and_back_with_distortion() {
    let model = CameraModel::KannalaBrandt4(kb4(-0.01, 0.003, -0.0005, 0.00002));
    let fov = to_fov(280.0, 1024, &model);
    assert!((280.0 - to_focal(fov, 1024, &model)).abs() < 1e-6);
}

#[test]
fn rt8_focal_to_fov_and_back() {
    let model = CameraModel::RadialTangential8(rt8([-0.2, 0.05, -0.001, 0.0, 0.0, 0.0], [0.0, 0.0]));
    let fov = to_fov(900.0, 1920, &model);
    assert!((900.0 - to_focal(fov, 1920, &model)).abs() < 1e-6);
}

#[test]
fn tpf_focal_to_fov_and_back() {
    // The thin-prism field of view delegates to the radial polynomial, so the
    // roundtrip must hold regardless of the other coefficients.
    let model = thin_prism(kb4(-0.01, 0.003, -0.0005, 0.00002));
    let fov = to_fov(280.0, 1024, &model);
    assert!((280.0 - to_focal(fov, 1024, &model)).abs() < 1e-6);
}

#[test]
fn pinhole_fov_to_focal_and_back() {
    let model = CameraModel::Pinhole;
    for fov in [0.2, 1.0, 2.5] {
        assert!((fov - to_fov(to_focal(fov, 640, &model), 640, &model)).abs() < 1e-12);
    }
}

#[test]
fn fisheye_angles_are_enclosed() {
    let lens = ultrawide();
    let wide = widen_kb4(lens);
    let target = 1024.0 / 2.0 / 700.0;
    let half = to_fov(700.0, 1024, &CameraModel::KannalaBrandt4(lens)) / 2.0;
    assert!(0.0 < half && half < fold() && fold() <= std::f64::consts::PI);
    assert!(kb4_d(d(half - 1e-12), &wide).value.0 < target);
    assert!(target <= kb4_d(d(half + 1e-12), &wide).value.0);
}

#[test]
fn repeated_radii_are_solutions() {
    let lens = wide_lens();
    let r = rt8_undistort_radius(d(0.5), &lens);
    assert!((r * rt8_radial(r, &lens)).value.0 - 0.5 < 1e-11);
    assert!((r * rt8_radial(r, &lens)).value.0 - 0.5 > -1e-11);
}

#[test]
fn psnr_matches_known_values() {
    let db = |mse: f32| psnr_from_mse(f(mse)).value.0;
    // Plain formula: MSE 0.01 -> 20 dB, MSE 1 -> 0 dB.
    assert!((db(0.01) - 20.0).abs() < 1e-3, "got {}", db(0.01));
    assert!(db(1.0).abs() < 1e-3, "got {}", db(1.0));
    // Identical images floor at 100 dB instead of going infinite.
    assert!((db(0.0) - 100.0).abs() < 1e-3, "got {}", db(0.0));
    // A constant 0.1 offset on every channel is MSE 0.01.
    let a = vec![F(0.0); 4 * 6 * 3];
    let b = vec![F(0.1); 4 * 6 * 3];
    assert!((psnr(&a, &b).value.0 - 20.0).abs() < 1e-3);
    assert!((psnr(&a, &a).value.0 - 100.0).abs() < 1e-3);
}

fn floor_inputs() -> (Vec<F>, Vec<F>, Vec<F>, Vec<f32>) {
    let log_scales = vec![-3.0f32, 0.0, 1.5, -30.0];
    let mut transforms = Vec::new();
    for log_scale in &log_scales {
        transforms.extend([F(0.25); 7]);
        transforms.extend([F(*log_scale); 3]);
    }
    let floors = log_scales.iter().map(|v| F(v.exp())).collect();
    (transforms, vec![F(0.0); log_scales.len()], floors, log_scales)
}

#[test]
fn fold_min_scale_preserves_closed_form_opacity_compensation() {
    let (transforms, raw_opacities, floors, log_scales) = floor_inputs();
    let (folded, raw) = fold_min_scale(&transforms, &raw_opacities, &floors);
    let expected = 0.5 * 0.5_f32.sqrt().powi(3);
    for (i, log_scale) in log_scales.iter().enumerate() {
        let actual = raw[i].sigmoid().0;
        assert!((actual - expected).abs() < 1e-6, "unexpected opacity {actual} for log scale {log_scale}");
        assert_eq!(folded[10 * i..10 * i + 7], transforms[10 * i..10 * i + 7]);
        let grown = folded[10 * i + 8].0 - log_scale;
        assert!((grown - 0.5 * 2f32.ln()).abs() < 1e-5, "{grown}");
    }
}

#[test]
fn baked_splats_look_the_same() {
    let (transforms, raw_opacities, floors, _) = floor_inputs();
    let make = || Splats {
        transforms: transforms.clone(),
        sh_coeffs: vec![F(0.5); 12],
        coeffs_per_channel: 1,
        raw_opacities: raw_opacities.clone(),
        render_mip: true,
        min_scale: Some(floors.clone()),
    };
    let floored = make();
    let baked = make().bake_min_scale();
    assert!(baked.min_scale.is_none() && baked.render_mip);
    assert_eq!(baked.opacities(), floored.opacities());
    assert_eq!(baked.scales(), floored.scales());
    assert_eq!(baked.means(), floored.means());
    assert_eq!((baked.rotations(), &baked.sh_coeffs), (floored.rotations(), &floored.sh_coeffs));
    let (transforms, raw_opacities) = (baked.transforms.clone(), baked.raw_opacities.clone());
    let again = baked.bake_min_scale();
    assert!(again.min_scale.is_none());
    assert_eq!((again.transforms, again.raw_opacities), (transforms, raw_opacities));
    let plain = Splats::from_raw(
        &vec![F(0.0); 3],
        &vec![F(0.0); 4],
        &vec![F(1.0); 3],
        vec![F(0.0); 3],
        vec![F(0.0)],
        SplatRenderMode::Default,
    );
    assert_eq!(plain.opacities(), vec![F(0.5)]);
    assert_eq!(plain.scales(), vec![F(1f32.exp()); 3]);
    assert_eq!(plain.bake_min_scale().scales(), vec![F(1f32.exp()); 3]);
}

#[test]
fn displayed_splats_are_floored_before_they_grow() {
    let (transforms, raw_opacities, floors, _) = floor_inputs();
    let make = |min_scale: Option<Vec<F>>| Splats {
        transforms: transforms.clone(),
        sh_coeffs: vec![F(0.5); 3 * raw_opacities.len()],
        coeffs_per_channel: 1,
        raw_opacities: raw_opacities.clone(),
        render_mip: true,
        min_scale,
    };
    let (folded, raw) = fold_min_scale(&transforms, &raw_opacities, &floors);
    let shown = display_inputs(make(Some(floors.clone())), Some(F(2.0)), TextureMode::Float);
    assert_eq!(shown.raw_opacities, raw);
    for (k, value) in shown.transforms.iter().enumerate() {
        let by = if k % 10 < 7 { 0.0 } else { 2f32.ln() };
        assert_eq!(*value, F(folded[k].0 + by));
    }
    assert_eq!((shown.render_mode, shown.pass), (SplatRenderMode::Mip, RasterPass::Backward));
    let plain = display_inputs(make(None), None, TextureMode::Packed);
    assert_eq!(plain.transforms, transforms);
    assert_eq!(plain.raw_opacities, raw_opacities);
    assert_eq!(plain.pass, RasterPass::Forward);
}

#[test]
fn opacities_go_back_through_the_logit() {
    for x in [0.1, 0.5, 0.9] {
        assert!((inverse_sigmoid(f(x)).sigmoid().value.0 - x).abs() < 1e-6);
    }
}

#[test]
fn quantized_values_are_spread() {
    let at = |v: f64| v3(v, v, v);
    let meta = QuantMeta {
        min: at(-1.0),
        max: at(3.0),
        min_scale: at(0.0),
        max_scale: at(2.0),
        min_color: at(0.5),
        max_color: at(1.0),
    };
    assert_eq!(parts(meta.mean(v3(0.0, 0.5, 1.0))), [-1.0, 1.0, 3.0]);
    assert_eq!(parts(meta.scale(v3(0.0, 0.5, 1.0))), [0.0, 1.0, 2.0]);
    assert_eq!(parts(meta.color(v3(0.0, 0.5, 1.0))), [0.5, 0.75, 1.0]);
}

fn unit() -> Vec3<D> {
    let (x, y, z) = (0.3f64, -0.5f64, 0.7f64);
    let l = (x * x + y * y + z * z).sqrt();
    v3(x / l, y / l, z / l)
}

fn coeffs() -> Vec<D> {
    (0..80).map(|i| D(((i * 37 % 19) as f64 - 9.0) / 7.0)).collect()
}

#[test]
fn basis_functions_are_orthonormal() {
    // The mean of the product of two functions over the sphere is their inner
    // product over 4 pi.
    let (rings, steps) = (60, 90);
    let mut gram = vec![vec![0.0f64; 25]; 25];
    for i in 0..rings {
        // Midpoints of equal areas.
        let z = -1.0 + (2.0 * i as f64 + 1.0) / rings as f64;
        let r = (1.0 - z * z).sqrt();
        for j in 0..steps {
            let phi = std::f64::consts::TAU * (j as f64 + 0.5) / steps as f64;
            let v = v3(r * phi.cos(), r * phi.sin(), z);
            let b: Vec<f64> = (0..25).map(|k| basis_value(k, v).value.0).collect();
            for p in 0..25 {
                for q in 0..25 {
                    gram[p][q] += b[p] * b[q];
                }
            }
        }
    }
    let weight = 4.0 * std::f64::consts::PI / (rings * steps) as f64;
    for p in 0..25 {
        for q in 0..25 {
            let expected = if p == q { 1.0 } else { 0.0 };
            assert!((gram[p][q] * weight - expected).abs() < 2e-2, "{p} {q} {}", gram[p][q] * weight);
        }
    }
}

#[test]
fn basis_ends_with_the_degree() {
    let v = unit();
    let b = |index, degree| sh_basis(index, degree, v.x, v.y, v.z).value.0;
    assert_eq!(b(0, 0), 0.2820948);
    assert_eq!(b(1, 0), 0.0);
    assert_eq!(b(9, 2), 0.0);
    assert_eq!(b(9, 3), basis_value(9, v).value.0);
    assert_eq!(b(24, 9), basis_value(24, v).value.0);
    assert_eq!(b(25, 9), 0.0);
    for index in 0..25 {
        assert!((color_weight(index, v).value.0 - basis_value(index, v).value.0).abs() < 1e-12);
    }
}

#[test]
fn colors_are_weighted_sums() {
    let (v, c) = (unit(), coeffs());
    for degree in 0..=4u32 {
        let color = parts(sh_coeffs_to_color(&c, 3, degree, v));
        for channel in 0..3 {
            let n = ((degree + 1) * (degree + 1)) as usize;
            let expected: f64 = (0..n).map(|i| c[3 + 3 * i + channel].0 * basis_value(i as u32, v).value.0).sum();
            assert!((color[channel] - expected).abs() < 1e-9, "{degree} {channel}");
        }
    }
}

#[test]
fn coefficient_gradients_are_basis_functions() {
    let (v, vc) = (unit(), v3(1.0, -2.0, 0.5));
    let mut grads = vec![D(9.0); 80];
    sh_coeffs_to_color_vjp(&mut grads, 3, 2, v, vc);
    assert_eq!(grads[0..3], [D(9.0); 3]);
    assert_eq!(grads[30..], [D(9.0); 50]);
    for i in 0..9 {
        let b = basis_value(i as u32, v).value.0;
        assert_eq!(grads[3 + 3 * i..6 + 3 * i], [D(b), D(-2.0 * b), D(0.5 * b)]);
    }
}

fn nudge(v: Vec3<D>, axis: usize, by: f64) -> Vec3<D> {
    let mut p = parts(v);
    p[axis] += by;
    v3(p[0], p[1], p[2])
}

#[test]
fn direction_gradients_match_differences() {
    let (v, vc, c) = (unit(), v3(0.7, -1.1, 0.4), coeffs());
    for degree in 0..=4 {
        let analytic = parts(sh_color_viewdir_vjp(&c, 3, degree, v, vc));
        for axis in 0..3 {
            let at = |by: f64| {
                let color = parts(sh_coeffs_to_color(&c, 3, degree, nudge(v, axis, by)));
                color[0] * 0.7 + color[1] * -1.1 + color[2] * 0.4
            };
            let numeric = (at(1e-5) - at(-1e-5)) / 2e-5;
            assert!((analytic[axis] - numeric).abs() < 1e-5, "{degree} {axis}: {} {numeric}", analytic[axis]);
        }
    }
}

#[test]
fn base_color_has_no_direction_gradient() {
    let (v, vc, mut c) = (unit(), v3(0.7, -1.1, 0.4), coeffs());
    let before = parts(sh_color_viewdir_vjp(&c, 3, 4, v, vc));
    c[3] = D(1234.0);
    c[5] = D(-77.0);
    assert_eq!(parts(sh_color_viewdir_vjp(&c, 3, 4, v, vc)), before);
}

#[test]
fn gradient_rows_evaluate_to_products() {
    let mut transforms = vec![D(0.0); 20];
    transforms[10] = D(3.0);
    transforms[12] = D(4.0);
    let mut combined = vec![D(0.0); 10];
    combined[6] = D(2.0);
    let camera = v3(0.0, 0.0, 0.0);
    let term = |basis, channel| ShGradTerm::Product { compact_gid: 0, basis, channel };
    let value = |t| gradient_value(t, &transforms, 1, &combined, camera).value.0;
    assert!((value(term(2, 1)) - 0.4886025 * 0.8 * 2.0).abs() < 1e-12);
    assert!((value(term(3, 1)) + 0.4886025 * 0.6 * 2.0).abs() < 1e-12);
    assert_eq!(value(term(2, 0)), 0.0);
    assert_eq!(value(ShGradTerm::Zero), 0.0);
}

#[test]
fn gradient_rows_hold_the_values_of_their_terms() {
    // Three splats, of which the third and the first are visible, in that order.
    let mut transforms = vec![D(0.0); 30];
    transforms[0] = D(-2.0);
    transforms[22] = D(5.0);
    let combined: Vec<D> = (0..20).map(|i| D(i as f64)).collect();
    let camera = v3(0.0, 1.0, 0.0);
    let n = 12;
    let expected = |compact: usize, splat: usize, i: usize| {
        let t = &transforms[10 * splat..];
        let mean = v3(t[0].0, t[1].0, t[2].0);
        let v = view_direction(mean, camera);
        basis_value(i as u32 / 3, v).value.0 * combined[10 * compact + 5 + i % 3].0
    };
    let dense = dense_gradient_rows(&vec![2, 0, 1], n, &transforms, &combined, camera);
    assert_eq!(dense.len(), 36);
    let compact = compact_gradient_rows(&vec![2, 0], 2, n, &transforms, &combined, camera);
    assert_eq!(compact.len(), 36);
    for i in 0..n as usize {
        assert_eq!(dense[i].0, expected(1, 0, i));
        assert_eq!(dense[12 + i].0, 0.0);
        assert_eq!(dense[24 + i].0, expected(0, 2, i));
        assert_eq!(compact[i].0, 0.0);
        assert_eq!(compact[12 + i], dense[24 + i]);
        assert_eq!(compact[24 + i], dense[i]);
    }
    // Only splats with a color gradient get a row.
    let bits: Vec<u32> = combined.iter().map(|v| (v.0 as f32).to_bits()).collect();
    let mut dark = bits.clone();
    dark[5..8].fill(0);
    let shape = ProjectShape { num_points: 3, total_splats: 3, num_visible: 2, sh_degree: 1 };
    let of = |patterns| dense_sh_values(&vec![2, 0], patterns, &combined, &transforms, camera, &shape);
    assert_eq!(of(&bits), dense);
    assert_eq!(of(&dark)[..12], dense[..12]);
    assert_eq!(of(&dark)[12..], [D(0.0); 24]);
}

#[test]
fn missing_fields_have_standard_values() {
    let d = SplatDefaults::<F>::standard();
    assert_eq!(d.rotation, (F(1.0), F(0.0), F(0.0), F(0.0)));
    assert_eq!((d.log_scale, d.sh_coeff, d.raw_opacity), (F(-4.0), F(0.5), F(0.0)));
}

#[test]
fn progress_leaves_room_for_the_rest() {
    assert!(almost_read(f(0.95)) && almost_read(f(1.0)));
    assert!(!almost_read(f(0.9499)) && !almost_read(f(f32::NAN)));
    assert_eq!(splat_progress(f(0.5), true).value, F(0.5 * 0.8));
    assert_eq!(splat_progress(f(0.5), false).value, F(0.5));
}

#[test]
fn inverted_angles_are_accurate() {
    let lens = ultrawide_d();
    for target in [1e-3, 0.1, 0.5, 0.9] {
        let angle = kb4_invert_d(d(target), &lens);
        assert!((kb4_d(angle, &lens).value.0 - target).abs() < 1e-12);
    }
    assert_eq!(kb4_invert_d(d(-0.5), &lens).value.0, 0.0);
    assert_eq!(kb4_invert_d(d(100.0), &lens).value.0, fold());
}

fn wide_lens() -> RadialTangential8Params<D> {
    widen_rt8(rt8([-0.2, 0.05, -0.01, 0.02, 0.003, 0.001], [1e-3, -2e-3]))
}

fn image_lens() -> PinholeParams<D> {
    PinholeParams { fx: d(500.0), fy: d(480.0), cx: d(320.0), cy: d(240.0) }
}

fn limits(bound: f64) -> JacobianClampLimits<D> {
    JacobianClampLimits {
        lim_pos_x: d(bound),
        lim_pos_y: d(bound),
        lim_neg_x: d(-bound),
        lim_neg_y: d(-bound),
        lim_r: d(f64::MAX),
    }
}

fn columns(m: Mat2x3<D>) -> [[f64; 2]; 3] {
    let c = |v: Vec2<D>| [v.x.value.0, v.y.value.0];
    [c(m.c0), c(m.c1), c(m.c2)]
}

#[test]
fn pinhole_projects_by_division() {
    let image = project_pinhole(v3(1.0, -2.0, 4.0), image_lens());
    assert_eq!((image.x.value.0, image.y.value.0), (445.0, 0.0));
    // A lens without distortion projects like a pinhole.
    let plain = widen_rt8(rt8([0.0; 6], [0.0; 2]));
    let same = project_rt8(v3(1.0, -2.0, 4.0), image_lens(), plain);
    assert_eq!((same.x.value.0, same.y.value.0), (445.0, 0.0));
}

#[test]
fn jacobians_match_differences() {
    let point = v3(0.4, -0.7, 2.0);
    for lens in ["pinhole", "rt8"] {
        let project = |p: Vec3<D>| {
            let uv = if lens == "rt8" {
                project_rt8(p, image_lens(), wide_lens())
            } else {
                project_pinhole(p, image_lens())
            };
            [uv.x.value.0, uv.y.value.0]
        };
        let jacobian = columns(if lens == "rt8" {
            calculate_project_jacobian_rt8(point, limits(9.0), image_lens(), wide_lens())
        } else {
            calculate_project_jacobian_pinhole(point, limits(9.0), image_lens())
        });
        for axis in 0..3 {
            let (hi, lo) = (project(nudge(point, axis, 1e-5)), project(nudge(point, axis, -1e-5)));
            for row in 0..2 {
                let numeric = (hi[row] - lo[row]) / 2e-5;
                assert!((jacobian[axis][row] - numeric).abs() < 1e-4, "{lens} {axis} {row}");
            }
        }
    }
}

const COV: [[f64; 3]; 3] = [[0.04, 0.01, -0.02], [0.01, 0.09, 0.015], [-0.02, 0.015, 0.05]];
const V_COV: [[f64; 2]; 2] = [[0.7e-3, -0.2e-3], [-0.2e-3, 0.4e-3]];
const V_MEAN: [f64; 2] = [0.3e-1, -0.5e-1];

/// The loss whose gradient the projection gradients are: the image position and
/// the image covariance, each weighed.
fn weighed(uv: [f64; 2], jacobian: [[f64; 2]; 3]) -> f64 {
    let mut loss = uv[0] * V_MEAN[0] + uv[1] * V_MEAN[1];
    for r in 0..2 {
        for s in 0..2 {
            let mut cov2d = 0.0;
            for i in 0..3 {
                for j in 0..3 {
                    cov2d += jacobian[i][r] * COV[i][j] * jacobian[j][s];
                }
            }
            loss += V_COV[r][s] * cov2d;
        }
    }
    loss
}

fn gradient_inputs() -> (Sym3<D>, ImageGradient<D>) {
    let cov = Sym3 {
        xx: d(COV[0][0]),
        xy: d(COV[0][1]),
        xz: d(COV[0][2]),
        yy: d(COV[1][1]),
        yz: d(COV[1][2]),
        zz: d(COV[2][2]),
    };
    let v = ImageGradient {
        v_cov2d: Sym2 { xx: d(V_COV[0][0]), xy: d(V_COV[0][1]), yy: d(V_COV[1][1]) },
        v_mean2d: Vec2 { x: d(V_MEAN[0]), y: d(V_MEAN[1]) },
    };
    (cov, v)
}

#[test]
fn projection_gradients_match_differences() {
    let (cov, v) = gradient_inputs();
    let point = v3(0.4, -0.7, 2.0);
    for lens in ["pinhole", "rt8"] {
        let jacobian = |p: Vec3<D>| {
            if lens == "rt8" {
                calculate_project_jacobian_rt8(p, limits(9.0), image_lens(), wide_lens())
            } else {
                calculate_project_jacobian_pinhole(p, limits(9.0), image_lens())
            }
        };
        let loss = |p: Vec3<D>| {
            let uv = if lens == "rt8" {
                project_rt8(p, image_lens(), wide_lens())
            } else {
                project_pinhole(p, image_lens())
            };
            weighed([uv.x.value.0, uv.y.value.0], columns(jacobian(p)))
        };
        let analytic = parts(if lens == "rt8" {
            calculate_projection_vjp_rt8(point, cov, limits(9.0), image_lens(), v, wide_lens())
        } else {
            calculate_projection_vjp_pinhole(jacobian(point), point, cov, limits(9.0), image_lens(), v)
        });
        for axis in 0..3 {
            let numeric = (loss(nudge(point, axis, 1e-5)) - loss(nudge(point, axis, -1e-5))) / 2e-5;
            let scale = 1.0 + numeric.abs();
            assert!((analytic[axis] - numeric).abs() < 1e-5 * scale, "{lens} {axis}: {} {numeric}", analytic[axis]);
        }
    }
}

#[test]
fn undistorted_gradients_are_those_of_a_pinhole() {
    let (cov, v) = gradient_inputs();
    let plain = widen_rt8(rt8([0.0; 6], [0.0; 2]));
    for point in [v3(0.4, -0.7, 2.0), v3(-1.5, 0.25, 0.5), v3(0.0, 0.0, 7.0)] {
        let jacobian = calculate_project_jacobian_pinhole(point, limits(9.0), image_lens());
        let a = parts(calculate_projection_vjp_rt8(point, cov, limits(9.0), image_lens(), v, plain));
        let b = parts(calculate_projection_vjp_pinhole(jacobian, point, cov, limits(9.0), image_lens(), v));
        for axis in 0..3 {
            assert!((a[axis] - b[axis]).abs() <= 1e-9 * (1.0 + b[axis].abs()), "{axis}: {} {}", a[axis], b[axis]);
        }
    }
}

#[test]
fn held_points_move_with_depth_alone() {
    let (cov, v) = gradient_inputs();
    let point = v3(4.0, -0.7, 2.0);
    let held = parts(calculate_projection_vjp_rt8(point, cov, limits(1.0), image_lens(), v, wide_lens()));
    assert_eq!(held[0], 0.0);
    assert!(held[1] != 0.0 && held[2] != 0.0);
    // The held point's image covariance does not change with x.
    let a = columns(calculate_project_jacobian_rt8(point, limits(1.0), image_lens(), wide_lens()));
    let b = columns(calculate_project_jacobian_rt8(nudge(point, 0, 0.5), limits(1.0), image_lens(), wide_lens()));
    assert_eq!(a, b);
}

#[test]
fn percentiles_pick_by_rounded_rank() {
    let values: Vec<u32> = (0..=200).rev().map(|v| (v as f32).to_bits()).chain([f32::NAN.to_bits()]).collect();
    let p = percentiles::<F>(&values);
    let of = |bits: u32| f32::from_bits(bits);
    assert_eq!((of(p.p01), of(p.p25), of(p.p50), of(p.p75)), (2.0, 50.0, 100.0, 150.0));
    assert_eq!((of(p.p95), of(p.p99), of(p.max)), (190.0, 198.0, 200.0));
    let none = percentiles::<F>(&vec![f32::INFINITY.to_bits()]);
    assert_eq!((none.p01, none.max), (0, 0));
}

fn patterns(values: &[f32]) -> Vec<u32> {
    values.iter().map(|v| v.to_bits()).collect()
}

#[test]
fn shapes_compare_the_three_scales() {
    let shapes = splat_shapes::<F>(&patterns(&[8.0, 1.0, 2.0, 0.0, 100.0, 10.0]));
    assert_eq!(shapes.spindle, patterns(&[4.0, 10.0]));
    assert_eq!(shapes.flatness, patterns(&[2.0, 10.0 / 1e-30]));
    assert_eq!(shapes.max_log, patterns(&[8.0f32.log10(), 2.0]));
    assert_eq!(shapes.min_log, patterns(&[0.0, 1e-30f32.log10()]));
    let broken = splat_shapes::<F>(&patterns(&[f32::NAN, 3.0, 1.0]));
    assert_eq!(broken.spindle, patterns(&[3.0]));
    assert_eq!(broken.flatness, patterns(&[1.0 / 1e-30]));
}

#[test]
fn splats_are_counted_beyond_thresholds() {
    let scales = patterns(&[1.0, 1.0, 4.0, 1.0, 6.0, 1.0, 11.0, 1.0, 1.0, 1.0, 1.0, 1.0]);
    let opacities = patterns(&[0.01, 0.05, 0.19, 0.2]);
    let d = splat_distribution::<F>(&scales, &opacities).unwrap();
    assert_eq!((d.total, d.spindle_gt_3, d.spindle_gt_5, d.spindle_gt_10), (4, 3, 2, 1));
    assert_eq!((d.opac_lt_05, d.opac_lt_20), (1, 3));
    assert_eq!(d.spindle.max, 11.0f32.to_bits());
    assert_eq!(d.opacity.p01, 0.01f32.to_bits());
    assert!(splat_distribution::<F>(&vec![], &vec![]).is_none());

    let entries: Vec<LogEntry<f64>> = distribution_entries(&d);
    assert_eq!(entries.len(), 5 * 7 + 5);
    assert_eq!(entries[0].path, "splat_dist/scale_max_log10/p01");
    assert_eq!(entries[27].path, "splat_dist/spindle/max");
    assert!(matches!(entries[27].value, LogValue::Bits(b) if b == 11.0f32.to_bits()));
    assert_eq!(entries[39].path, "splat_dist/frac_opac_lt_20");
    assert!(matches!(entries[39].value, LogValue::Share(3, 4)));
}

#[test]
fn colors_and_radii_of_the_visual_log() {
    let num = |v: f32| Num { value: F(v) };
    let values: Vec<Num<F>> = [-1.0, 0.0, 0.5, 1.0, 7.0].map(num).to_vec();
    assert_eq!(render_bytes(&values), vec![0, 0, 128, 255, 255]);
    assert_eq!(base_color_byte(num(0.0)), 127);
    assert_eq!(base_color_byte(num(-9.0)), 0);
    assert_eq!(base_color_byte(num(9.0)), 255);
    assert_eq!(drawn_radius(num(0.0), num(0.5)).value.0, 1.0 * 0.5 * 2.0 + 0.004);
}

#[test]
fn images_are_shrunk_to_the_longest_side() {
    assert_eq!(shrunk_size::<F>(600, 300, 100), (100, 50));
    assert_eq!(shrunk_size::<F>(300, 1, 100), (100, 1));
    assert_eq!(shrunk_size::<F>(60, 30, 100), (60, 30));
    assert_eq!(shrunk_size::<F>(600, 300, 0), (600, 300));
    let img = || RgbPixels {
        width: 4,
        height: 2,
        pixels: (0..24).map(|i| if i % 3 == 0 { 200 } else { i }).collect(),
    };
    let small = resize_to_max::<F>(img(), 2).unwrap();
    assert_eq!((small.width, small.height, small.pixels.len()), (2, 1, 6));
    assert_eq!((small.pixels[0], small.pixels[3]), (200, 200));
    assert!(small.pixels[1] < small.pixels[4]);
    let same = resize_to_max::<F>(img(), 4).unwrap();
    assert_eq!(same.pixels, img().pixels);
    assert!(resize_to(img(), (5, 2)).is_none());
    assert!(resize_to(img(), (0, 2)).is_none());
}
