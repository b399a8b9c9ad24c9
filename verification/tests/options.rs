//! Run-time options and the decisions of the differentiable render path.

use brush::gaussian_splats::{
    display_pass, render_mode_of, RasterPass, Rasterizer, SplatRenderMode, TextureMode,
};
use brush::native_msl::{
    fine_raster_tiles_requested, option_requested, parse_bool, preset_requested, resolve_option,
    value_enabled, EnvValue,
};
use brush::render_bwd::{
    can_materialize_sh_grad, check_tile_offsets, dense_sh_gradient, gradient_shapes, plan_backward,
    plan_project_bwd, plan_rasterize_bwd, plan_render, render_request, select_rows,
    should_launch_unchecked, training_rasterizer, training_request, use_coalesced_sh_grad,
    use_saved_loss_partials, use_unchecked_raster_bwd, DeviceLimits, Gradient, Launch, Parents,
    ProjectShape,
};
use brush::sh_grad_materialize::ShGradTerm;

fn set(value: &str) -> EnvValue {
    EnvValue::Text(value.to_string())
}

#[test]
fn parser_accepts_only_documented_values() {
    for value in ["1", "true", "TRUE", "True"] {
        assert_eq!(parse_bool(value), Some(true));
    }
    for value in ["0", "false", "FALSE", "FaLsE"] {
        assert_eq!(parse_bool(value), Some(false));
    }
    for value in ["", "yes", "on", "2", " true "] {
        assert_eq!(parse_bool(value), None);
    }
}

#[test]
fn options_are_disabled_by_default() {
    assert!(!resolve_option(None, None));
    assert!(!resolve_option(None, Some("0")));
    assert!(!resolve_option(None, Some("false")));
    assert!(!resolve_option(None, Some("invalid")));
}

#[test]
fn absent_option_inherits_enabled_preset() {
    assert!(resolve_option(None, Some("1")));
    assert!(resolve_option(None, Some("TRUE")));
}

#[test]
fn explicit_option_overrides_preset() {
    assert!(resolve_option(Some("1"), Some("0")));
    assert!(resolve_option(Some("true"), None));
    assert!(!resolve_option(Some("0"), Some("1")));
    assert!(!resolve_option(Some("FALSE"), Some("true")));
}

#[test]
fn invalid_explicit_option_fails_closed() {
    assert!(!resolve_option(Some(""), Some("1")));
    assert!(!resolve_option(Some("invalid"), Some("1")));
    assert!(!resolve_option(Some(" true "), Some("1")));
}

#[test]
fn non_unicode_value_fails_closed() {
    assert!(!preset_requested(&EnvValue::NotUnicode));
    assert!(!option_requested(&EnvValue::NotUnicode, &set("1")));
    assert!(!value_enabled(None));
}

#[test]
fn options_resolve_from_environment_values() {
    assert!(value_enabled(Some("1")));
    assert!(preset_requested(&set("true")));
    assert!(option_requested(&EnvValue::Unset, &set("1")));
    assert!(!option_requested(&EnvValue::Unset, &EnvValue::Unset));
    for f in [use_unchecked_raster_bwd, use_coalesced_sh_grad, use_saved_loss_partials] {
        assert!(f(&mut None, true, &set("1"), &EnvValue::Unset));
        assert!(!f(&mut None, false, &set("1"), &set("1")));
        let mut answered = None;
        assert!(!f(&mut answered, true, &set("0"), &set("1")));
        assert!(!f(&mut answered, true, &set("1"), &set("1")));
    }
    assert!(fine_raster_tiles_requested(true, &EnvValue::Unset, &set("1")));
    assert!(!fine_raster_tiles_requested(false, &set("1"), &set("1")));
}

#[test]
fn unchecked_launch_requires_forward_provenance_and_device_support() {
    assert!(!should_launch_unchecked(true, true, false));
    assert!(!should_launch_unchecked(true, false, true));
    assert!(!should_launch_unchecked(false, true, true));
    assert!(should_launch_unchecked(true, true, true));
}

#[test]
fn raster_backward_plan_follows_the_shape() {
    let shape = vec![3, 2, 2];
    assert_eq!(check_tile_offsets(&shape, 17, 33, Rasterizer::Legacy), Ok(()));
    let plan = plan_rasterize_bwd(0, 17, 33, &shape, Rasterizer::Legacy, true, true, true);
    assert_eq!((plan.rows, plan.tiles_x, plan.tiles_y), (1, 2, 3));
    assert_eq!(plan.launch, Launch::Unchecked);
    let plan = plan_rasterize_bwd(9, 17, 33, &shape, Rasterizer::Legacy, true, true, false);
    assert_eq!((plan.rows, plan.launch), (9, Launch::HardFloats));
    let plan = plan_rasterize_bwd(9, 17, 33, &shape, Rasterizer::Legacy, false, true, true);
    assert_eq!(plan.launch, Launch::CompareSwap);
}

#[test]
fn tile_offset_shapes_are_checked() {
    let check = |shape: Vec<usize>| check_tile_offsets(&shape, 17, 17, Rasterizer::Candidate).unwrap_err();
    assert_eq!(check(vec![3, 2]), "tile offsets must be rank 3");
    assert_eq!(check(vec![2, 2, 2]), "tile-offset height must match the selected rasterizer");
    assert_eq!(check(vec![3, 3, 2]), "tile-offset width must match the selected rasterizer");
    assert_eq!(check(vec![3, 2, 1]), "tile offsets must store one start/end pair per tile");
    assert!(check_tile_offsets(&vec![3, 2, 2], 17, 17, Rasterizer::Candidate).is_ok());
}

const LIMITS: DeviceLimits = DeviceLimits {
    plane_ops: true,
    non_uniform_control_flow: true,
    plane_size_min: 32,
    plane_size_max: 32,
    max_units_per_cube: 256,
    max_cube_dim_x: 256,
};

#[test]
fn gradient_rows_need_fixed_planes() {
    let shape = ProjectShape { num_points: 5, total_splats: 5, num_visible: 0, sh_degree: 2 };
    assert!(can_materialize_sh_grad(true, &shape, &LIMITS));
    assert!(!can_materialize_sh_grad(false, &shape, &LIMITS));
    assert!(!can_materialize_sh_grad(true, &ProjectShape { num_points: 6, ..shape }, &LIMITS));
    assert!(!can_materialize_sh_grad(true, &ProjectShape { sh_degree: 5, ..shape }, &LIMITS));
    assert!(!can_materialize_sh_grad(true, &shape, &DeviceLimits { plane_size_max: 64, ..LIMITS }));
    assert!(!can_materialize_sh_grad(true, &shape, &DeviceLimits { max_cube_dim_x: 255, ..LIMITS }));
    let plan = plan_project_bwd(true, &shape, &LIMITS, SplatRenderMode::Mip);
    assert_eq!(plan.coeffs, 9);
    assert!(plan.materialize && !plan.build_map && plan.mip_splat);
}

#[test]
fn dense_gradient_holds_rows_of_contributing_splats() {
    let one = 1.0f32.to_bits();
    let mut combined = vec![0u32; 20];
    combined[10 + 6] = one;
    let shape = ProjectShape { num_points: 3, total_splats: 3, num_visible: 2, sh_degree: 0 };
    let out = dense_sh_gradient(&vec![0, 2], &combined, &shape);
    let product = |channel| ShGradTerm::Product { compact_gid: 1, basis: 0, channel };
    let zero = ShGradTerm::Zero;
    assert_eq!(out, vec![zero, zero, zero, zero, zero, zero, product(0), product(1), product(2)]);
}

#[test]
fn gradients_go_to_those_who_wait() {
    let all = Parents { transforms: true, refine_weight: true, coeffs: true, raw_opacity: true, deferred_sh: false };
    let plan = plan_backward(&all);
    assert!(plan.compute_refine_weight && !plan.deferred);
    assert_eq!(
        plan.registered,
        vec![Gradient::Transforms, Gradient::RefineWeight, Gradient::Coefficients, Gradient::RawOpacity]
    );
    let plan = plan_backward(&Parents { deferred_sh: true, refine_weight: false, ..all });
    assert!(plan.deferred);
    assert_eq!(plan.registered, vec![Gradient::Transforms, Gradient::RawOpacity, Gradient::CompactSh]);
}

#[test]
fn compact_rows_spread_to_all_splats() {
    let compact = vec![0, 0, 1, 2, 3, 4];
    assert_eq!(select_rows(&compact, 2, &vec![0, 2, 0, 1]), vec![0, 0, 3, 4, 0, 0, 1, 2]);
}

#[test]
fn render_requests() {
    assert_eq!(training_rasterizer(&mut None, true), Rasterizer::Candidate);
    let mut selected = None;
    assert_eq!(training_rasterizer(&mut selected, false), Rasterizer::Legacy);
    assert_eq!(training_rasterizer(&mut selected, true), Rasterizer::Legacy);
    assert_eq!(training_request(&mut selected, true, true, true, true).rasterizer, Rasterizer::Legacy);
    let plain = render_request(true);
    assert!(plain.compute_refine_weight && !plain.defer_sh_grad);
    assert_eq!((plain.pass, plain.rasterizer), (RasterPass::Backward, Rasterizer::Legacy));
    assert!(!training_request(&mut None, false, true, false, true).defer_sh_grad);
    let training = training_request(&mut None, false, true, true, true);
    assert!(training.defer_sh_grad && !training.compute_refine_weight);
    assert_eq!(training.rasterizer, Rasterizer::Candidate);

    let plan = plan_render(&plain, true, true, false, false).unwrap();
    assert!(plan.keep_state && plan.track_refine_weight && !plan.hand_out_deferred);
    assert_eq!(plan.render_mode, SplatRenderMode::Mip);
    assert!(!plan_render(&render_request(false), true, false, true, false).unwrap().keep_state);
    assert_eq!(
        plan_render(&plain, false, true, false, false).unwrap_err(),
        "brush_render::bwd::render_splats requires an autodiff-enabled device"
    );
    let mut forward = plain;
    forward.pass = RasterPass::Forward;
    assert_eq!(
        plan_render(&forward, true, true, false, false).unwrap_err(),
        "render_splats_with_pass requires a Backward variant"
    );
}

#[test]
fn passes_and_rasterizers() {
    assert!(!RasterPass::default().bwd_info());
    assert!(RasterPass::Backward.bwd_info() && !RasterPass::Backward.smooth_cutoff());
    assert!(RasterPass::BackwardSmoothCutoff.smooth_cutoff());
    let tile = |r: Rasterizer| (r.tile_width(), r.tile_height(), r.tile_size());
    assert_eq!(tile(Rasterizer::default()), (16, 16, 256));
    assert_eq!(tile(Rasterizer::Candidate), (16, 8, 128));
    assert_eq!(render_mode_of(true), SplatRenderMode::Mip);
    assert_eq!(display_pass(TextureMode::Packed), RasterPass::Forward);
    assert!(display_pass(TextureMode::Float).bwd_info());
}

#[test]
fn gradients_have_the_shapes_of_parameters() {
    assert_eq!(gradient_shapes(7, 2, false), vec![vec![7, 10], vec![7, 9, 3], vec![7], vec![7]]);
    assert_eq!(gradient_shapes(7, 2, true), vec![vec![7, 10], vec![7], vec![7]]);
}
