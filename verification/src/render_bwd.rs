//! Decisions of the differentiable render path: what a render keeps for its
//! backward pass, how the backward kernels are launched and sized, and which
//! gradients are handed on to whom.
use vstd::prelude::*;

use crate::gaussian_splats::{render_mode_of, RasterPass, Rasterizer, SplatRenderMode};
use crate::loss;
use crate::loss::tiles_along;
use crate::native_msl;
use crate::native_msl::{option_requested, EnvValue};
use crate::num::{Geometric, Vec3};
use crate::sh;
use crate::sh::sh_coeffs_for_degree;
use crate::sh_color;
use crate::sh_color::dense_gradient_rows;
use crate::sh_grad_materialize;
use crate::sh_grad_materialize::{
    build_compact_sh_map_kernel, materialize_dense_sh_grad, ShGradTerm, PLANE_SIZE, WG_SIZE,
};

verus! {

/// The answer of a question that is settled by its first answer.
pub open spec fn settled<T>(answered: Option<T>, now: T) -> T {
    match answered {
        Some(first) => first,
        None => now,
    }
}

/// Answers a question that is asked once: the first answer holds from then on.
fn settle(answered: &mut Option<bool>, now: bool) -> (r: bool)
    ensures
        r == settled(*old(answered), now),
        *final(answered) == Some(r),
{
    let r: bool = match *answered {
        Some(first) => first,
        None => now,
    };
    *answered = Some(r);
    r
}

/// Once asked, the answer stays, whatever it would be later.
pub proof fn first_answer_is_kept<T>(answered: Option<T>, first: T, later: T)
    ensures
        settled(Some(settled(answered, first)), later) == settled(answered, first),
{
}

/// Whether the raster backward pass was asked to skip its bounds checks.
/// Builds without the specialization never do. The first answer is kept.
pub fn use_unchecked_raster_bwd(
    answered: &mut Option<bool>,
    native_build: bool,
    option: &EnvValue,
    preset: &EnvValue,
) -> (r: bool)
    ensures
        r == settled(
            *old(answered),
            native_build && native_msl::resolves_on(*option, *preset),
        ),
        *final(answered) == Some(r),
{
    settle(answered, native_build && option_requested(option, preset))
}

/// Whether coefficient gradients are written by whole rows. The first answer is
/// kept.
pub fn use_coalesced_sh_grad(
    answered: &mut Option<bool>,
    native_build: bool,
    option: &EnvValue,
    preset: &EnvValue,
) -> (r: bool)
    ensures
        r == settled(
            *old(answered),
            native_build && native_msl::resolves_on(*option, *preset),
        ),
        *final(answered) == Some(r),
{
    settle(answered, native_build && option_requested(option, preset))
}

/// Whether the loss keeps its derivatives for the backward pass. The first answer
/// is kept.
pub fn use_saved_loss_partials(
    answered: &mut Option<bool>,
    native_build: bool,
    option: &EnvValue,
    preset: &EnvValue,
) -> (r: bool)
    ensures
        r == settled(
            *old(answered),
            native_build && native_msl::resolves_on(*option, *preset),
        ),
        *final(answered) == Some(r),
{
    settle(answered, native_build && option_requested(option, preset))
}

/// The rasterizer that a request for fine tiles selects.
pub open spec fn rasterizer_for(fine_tiles_requested: bool) -> Rasterizer {
    if fine_tiles_requested {
        Rasterizer::Candidate
    } else {
        Rasterizer::Legacy
    }
}

/// The rasterizer that training runs with. What was selected first holds from
/// then on, whatever is requested later.
pub fn training_rasterizer(selected: &mut Option<Rasterizer>, fine_tiles_requested: bool) -> (r:
    Rasterizer)
    ensures
        r == settled(*old(selected), rasterizer_for(fine_tiles_requested)),
        *final(selected) == Some(r),
{
    let r: Rasterizer = match *selected {
        Some(first) => first,
        None => if fine_tiles_requested {
            Rasterizer::Candidate
        } else {
            Rasterizer::Legacy
        },
    };
    *selected = Some(r);
    r
}

/// Bounds checks are skipped only on a device with native float atomics, on
/// request, and for tensors that the forward pass produced.
pub fn should_launch_unchecked(
    hard_floats: bool,
    unchecked_requested: bool,
    trusted_forward: bool,
) -> (r: bool)
    ensures
        r == (hard_floats && unchecked_requested && trusted_forward),
{
    hard_floats && unchecked_requested && trusted_forward
}

/// How the raster backward kernel is launched.
#[derive(Clone, Copy, Debug, PartialEq, Eq, Structural)]
pub enum Launch {
    /// Native float atomics, without bounds checks.
    Unchecked,
    /// Native float atomics.
    HardFloats,
    /// Atomic addition by compare and swap.
    CompareSwap,
}

/// Sizes and launch of the raster backward kernel.
#[derive(Clone, Copy, Debug, PartialEq, Eq, Structural)]
pub struct RasterBwdPlan {
    /// Rows of the combined gradient, ten values each.
    pub rows: usize,
    pub tiles_x: u32,
    pub tiles_y: u32,
    pub launch: Launch,
}

/// The tile offsets of a render hold a start and an end for each of its tiles.
pub open spec fn offsets_fit(shape: Seq<usize>, width: u32, height: u32, rasterizer: Rasterizer) -> bool {
    &&& shape.len() == 3
    &&& shape[0] == loss::tiles_for(height as int, rasterizer.height())
    &&& shape[1] == loss::tiles_for(width as int, rasterizer.width())
    &&& shape[2] == 2
}

/// Plans the raster backward kernel, given the rows of projected splats, the
/// image size, and the shape of the tile offsets, which fits the rasterizer.
pub fn plan_rasterize_bwd(
    projected_rows: usize,
    width: u32,
    height: u32,
    tile_offset_shape: &Vec<usize>,
    rasterizer: Rasterizer,
    hard_floats: bool,
    unchecked_requested: bool,
    trusted_forward: bool,
) -> (plan: RasterBwdPlan)
    requires
        offsets_fit(tile_offset_shape@, width, height, rasterizer),
    ensures
        plan.rows == (if projected_rows == 0 {
            1
        } else {
            projected_rows
        }),
        plan.tiles_x == tile_offset_shape[1],
        plan.tiles_y == tile_offset_shape[0],
        plan.launch == (if !hard_floats {
            Launch::CompareSwap
        } else if unchecked_requested && trusted_forward {
            Launch::Unchecked
        } else {
            Launch::HardFloats
        }),
{
    let tiles_x: u32 = tiles_along(width, rasterizer.tile_width());
    let tiles_y: u32 = tiles_along(height, rasterizer.tile_height());
    let requested: bool = trusted_forward && unchecked_requested;
    let launch: Launch = if should_launch_unchecked(hard_floats, requested, trusted_forward) {
        Launch::Unchecked
    } else if hard_floats {
        Launch::HardFloats
    } else {
        Launch::CompareSwap
    };
    let rows: usize = if projected_rows == 0 {
        1
    } else {
        projected_rows
    };
    RasterBwdPlan { rows, tiles_x, tiles_y, launch }
}

/// Checks the shape of tile offsets against a rasterizer. Returns what does not
/// fit.
pub fn check_tile_offsets(
    shape: &Vec<usize>,
    width: u32,
    height: u32,
    rasterizer: Rasterizer,
) -> (r: Result<(), String>)
    ensures
        r is Ok <==> offsets_fit(shape@, width, height, rasterizer),
        r matches Err(e) ==> e@ == (if shape.len() != 3 {
            "tile offsets must be rank 3"@
        } else if shape[0] != loss::tiles_for(height as int, rasterizer.height()) {
            "tile-offset height must match the selected rasterizer"@
        } else if shape[1] != loss::tiles_for(width as int, rasterizer.width()) {
            "tile-offset width must match the selected rasterizer"@
        } else {
            "tile offsets must store one start/end pair per tile"@
        }),
{
    if shape.len() != 3 {
        return Err(String::from_str("tile offsets must be rank 3"));
    }
    if shape[0] != tiles_along(height, rasterizer.tile_height()) as usize {
        return Err(String::from_str("tile-offset height must match the selected rasterizer"));
    }
    if shape[1] != tiles_along(width, rasterizer.tile_width()) as usize {
        return Err(String::from_str("tile-offset width must match the selected rasterizer"));
    }
    if shape[2] != 2 {
        return Err(String::from_str("tile offsets must store one start/end pair per tile"));
    }
    Ok(())
}

/// What a device offers to the row-wise coefficient kernel.
#[derive(Clone, Copy, Debug, PartialEq, Eq, Structural)]
pub struct DeviceLimits {
    pub plane_ops: bool,
    pub non_uniform_control_flow: bool,
    pub plane_size_min: u32,
    pub plane_size_max: u32,
    pub max_units_per_cube: u32,
    pub max_cube_dim_x: u32,
}

/// A device whose planes are exactly as wide as the row-wise kernel needs.
pub open spec fn has_fixed_planes(limits: DeviceLimits) -> bool {
    &&& limits.plane_ops
    &&& limits.non_uniform_control_flow
    &&& limits.plane_size_min == 32
    &&& limits.plane_size_max == 32
    &&& limits.max_units_per_cube >= 256
    &&& limits.max_cube_dim_x >= 256
}

/// What the projection backward pass knows of the render.
#[derive(Clone, Copy, Debug, PartialEq, Eq, Structural)]
pub struct ProjectShape {
    pub num_points: usize,
    pub total_splats: u32,
    pub num_visible: u32,
    pub sh_degree: u32,
}

/// Whether coefficient gradients can be written by whole rows.
pub fn can_materialize_sh_grad(coalesced: bool, shape: &ProjectShape, limits: &DeviceLimits) -> (r:
    bool)
    ensures
        r == (coalesced && shape.num_points > 0 && shape.total_splats == shape.num_points
            && shape.sh_degree <= 4 && has_fixed_planes(*limits)),
{
    coalesced && shape.num_points > 0 && shape.total_splats as usize == shape.num_points
        && shape.sh_degree <= 4 && limits.plane_ops && limits.non_uniform_control_flow
        && limits.plane_size_min == PLANE_SIZE && limits.plane_size_max == PLANE_SIZE
        && limits.max_units_per_cube >= WG_SIZE && limits.max_cube_dim_x >= WG_SIZE
}

/// What the projection backward pass allocates and launches.
#[derive(Clone, Copy, Debug, PartialEq, Eq, Structural)]
pub struct ProjectBwdPlan {
    /// Coefficients per channel of a row of the coefficient gradient.
    pub coeffs: u32,
    /// Whether the coefficient gradient is written by whole rows, and so needs
    /// no fill with zeros.
    pub materialize: bool,
    /// Whether the map from splats to gradient rows is built.
    pub build_map: bool,
    pub mip_splat: bool,
}

/// Plans the projection backward pass.
pub fn plan_project_bwd(
    coalesced: bool,
    shape: &ProjectShape,
    limits: &DeviceLimits,
    render_mode: SplatRenderMode,
) -> (plan: ProjectBwdPlan)
    requires
        shape.sh_degree <= 65534,
    ensures
        plan.coeffs == sh::coeffs_of_degree(shape.sh_degree as int),
        plan.materialize == (coalesced && shape.num_points > 0 && shape.total_splats
            == shape.num_points && shape.sh_degree <= 4 && has_fixed_planes(*limits)),
        plan.build_map == (plan.materialize && shape.num_visible > 0),
        plan.mip_splat == (render_mode == SplatRenderMode::Mip),
{
    let materialize: bool = can_materialize_sh_grad(coalesced, shape, limits);
    ProjectBwdPlan {
        coeffs: sh_coeffs_for_degree(shape.sh_degree),
        materialize,
        build_map: materialize && shape.num_visible > 0,
        mip_splat: render_mode == SplatRenderMode::Mip,
    }
}

/// One past the compact index of a splat's gradient row: the last visible
/// splat among the first `n` that stands for it and has a color gradient, or
/// zero where there is none.
pub open spec fn row_source(
    global_from_compact: Seq<u32>,
    v_combined: Seq<u32>,
    n: int,
    splat: int,
) -> u32
    decreases n,
{
    if n <= 0 {
        0
    } else if global_from_compact[n - 1] == splat && sh_grad_materialize::has_color_gradient(
        v_combined,
        n - 1,
    ) {
        n as u32
    } else {
        row_source(global_from_compact, v_combined, n - 1, splat)
    }
}

proof fn lemma_row_source_absent(
    global_from_compact: Seq<u32>,
    v_combined: Seq<u32>,
    n: int,
    splat: int,
)
    requires
        0 <= n <= global_from_compact.len(),
        forall|c: int| 0 <= c < n ==> #[trigger] global_from_compact[c] != splat,
    ensures
        row_source(global_from_compact, v_combined, n, splat) == 0,
    decreases n,
{
    if n > 0 {
        lemma_row_source_absent(global_from_compact, v_combined, n - 1, splat);
    }
}

proof fn lemma_row_source_unique(
    global_from_compact: Seq<u32>,
    v_combined: Seq<u32>,
    n: int,
    c: int,
)
    requires
        0 <= c < n <= global_from_compact.len(),
        n <= u32::MAX,
        forall|a: int, b: int|
            0 <= a < b < n ==> global_from_compact[a] != global_from_compact[b],
    ensures
        row_source(global_from_compact, v_combined, n, global_from_compact[c] as int) == (
        if sh_grad_materialize::has_color_gradient(v_combined, c) {
            (c + 1) as u32
        } else {
            0
        }),
    decreases n,
{
    if c == n - 1 {
        lemma_row_source_absent(
            global_from_compact,
            v_combined,
            n - 1,
            global_from_compact[c] as int,
        );
    } else {
        lemma_row_source_unique(global_from_compact, v_combined, n - 1, c);
    }
}

/// What each splat's row of the coefficient gradient is written from.
fn compact_sh_map(
    global_from_compact_gid: &Vec<u32>,
    v_combined: &Vec<u32>,
    shape: &ProjectShape,
) -> (map: Vec<u32>)
    requires
        shape.num_visible < u32::MAX,
        shape.num_visible <= global_from_compact_gid.len(),
        shape.num_visible * 10 <= v_combined.len(),
        forall|c: int|
            0 <= c < shape.num_visible ==> #[trigger] global_from_compact_gid[c]
                < shape.num_points,
        forall|a: int, b: int|
            0 <= a < b < shape.num_visible ==> global_from_compact_gid[a]
                != global_from_compact_gid[b],
    ensures
        map.len() == shape.num_points,
        forall|row: int|
            0 <= row < shape.num_points ==> #[trigger] map[row] == row_source(
                global_from_compact_gid@,
                v_combined@,
                shape.num_visible as int,
                row,
            ),
{
    let mut map: Vec<u32> = vec![0u32; shape.num_points];
    build_compact_sh_map_kernel(global_from_compact_gid, v_combined, &mut map, shape.num_visible);
    proof {
        let globals = global_from_compact_gid@;
        let n = shape.num_visible as int;
        assert forall|row: int| 0 <= row < shape.num_points implies #[trigger] map[row]
            == row_source(globals, v_combined@, n, row) by {
            if exists|c: int| 0 <= c < n && #[trigger] globals[c] == row {
                let c = choose|c: int| 0 <= c < n && #[trigger] globals[c] == row;
                lemma_row_source_unique(globals, v_combined@, n, c);
                assert(map[global_from_compact_gid[c] as int] == map[row]);
            } else {
                lemma_row_source_absent(globals, v_combined@, n, row);
            }
        }
    }
    map
}

/// The dense coefficient gradient by whole rows: for each splat, the products
/// of its visible counterpart's color gradient, or zeros.
pub fn dense_sh_gradient(
    global_from_compact_gid: &Vec<u32>,
    v_combined: &Vec<u32>,
    shape: &ProjectShape,
) -> (out: Vec<ShGradTerm>)
    requires
        shape.sh_degree <= 4,
        shape.num_visible < u32::MAX,
        shape.num_visible <= global_from_compact_gid.len(),
        shape.num_visible * 10 <= v_combined.len(),
        shape.num_points * sh_grad_materialize::row_len(shape.sh_degree as int) <= usize::MAX,
        forall|c: int|
            0 <= c < shape.num_visible ==> #[trigger] global_from_compact_gid[c]
                < shape.num_points,
        forall|a: int, b: int|
            0 <= a < b < shape.num_visible ==> global_from_compact_gid[a]
                != global_from_compact_gid[b],
    ensures
        out.len() == shape.num_points * sh_grad_materialize::row_len(shape.sh_degree as int),
        forall|row: int, i: int|
            0 <= row < shape.num_points && 0 <= i < sh_grad_materialize::row_len(
                shape.sh_degree as int,
            ) ==> out[#[trigger] (row * sh_grad_materialize::row_len(shape.sh_degree as int) + i)]
                == sh_grad_materialize::term_at(
                row_source(
                    global_from_compact_gid@,
                    v_combined@,
                    shape.num_visible as int,
                    row,
                ),
                i,
            ),
{
    let map: Vec<u32> = compact_sh_map(global_from_compact_gid, v_combined, shape);
    materialize_dense_sh_grad(&map, shape.sh_degree)
}

/// What the rows of the dense coefficient gradient are written from.
pub open spec fn row_sources(
    global_from_compact: Seq<u32>,
    v_combined: Seq<u32>,
    num_visible: int,
    num_points: nat,
) -> Seq<u32> {
    Seq::new(num_points, |row: int| row_source(global_from_compact, v_combined, num_visible, row))
}

proof fn lemma_row_source_bound(
    global_from_compact: Seq<u32>,
    v_combined: Seq<u32>,
    n: int,
    splat: int,
)
    requires
        n < u32::MAX,
    ensures
        row_source(global_from_compact, v_combined, n, splat) <= if n < 0 {
            0
        } else {
            n
        },
    decreases n,
{
    if n > 0 {
        lemma_row_source_bound(global_from_compact, v_combined, n - 1, splat);
    }
}

/// The values of the dense coefficient gradient: for each splat, the basis
/// functions in its direction times its visible counterpart's color gradient,
/// or zeros. `patterns` holds the bit patterns of `v_combined`.
pub fn dense_sh_values<S: Geometric>(
    global_from_compact_gid: &Vec<u32>,
    patterns: &Vec<u32>,
    v_combined: &Vec<S>,
    transforms: &Vec<S>,
    camera: Vec3<S>,
    shape: &ProjectShape,
) -> (out: Vec<S>)
    requires
        shape.sh_degree <= 65534,
        sh_grad_materialize::row_len(shape.sh_degree as int) <= u32::MAX,
        shape.num_visible < u32::MAX,
        shape.num_visible <= global_from_compact_gid.len(),
        shape.num_visible * 10 <= patterns.len(),
        shape.num_visible * 10 <= v_combined.len(),
        shape.num_points * 10 <= transforms.len(),
        forall|c: int|
            0 <= c < shape.num_visible ==> #[trigger] global_from_compact_gid[c]
                < shape.num_points,
        forall|a: int, b: int|
            0 <= a < b < shape.num_visible ==> global_from_compact_gid[a]
                != global_from_compact_gid[b],
    ensures
        sh_color::are_gradient_rows(
            row_sources(
                global_from_compact_gid@,
                patterns@,
                shape.num_visible as int,
                shape.num_points as nat,
            ),
            |row: int| row,
            sh_grad_materialize::row_len(shape.sh_degree as int),
            transforms@,
            v_combined@,
            camera,
            out@,
        ),
{
    let map: Vec<u32> = compact_sh_map(global_from_compact_gid, patterns, shape);
    proof {
        let globals = global_from_compact_gid@;
        let n = shape.num_visible as int;
        assert(map@ =~= row_sources(globals, patterns@, n, shape.num_points as nat));
        assert forall|row: int| 0 <= row < map.len() implies #[trigger] map[row] <= n by {
            lemma_row_source_bound(globals, patterns@, n, row);
        }
    }
    let elements: u32 = sh_coeffs_for_degree(shape.sh_degree) * 3;
    dense_gradient_rows(&map, elements, transforms, v_combined, camera)
}

/// Shapes of the gradients that the projection's backward pass returns:
/// transforms, coefficients unless they are deferred, raw opacities, and the
/// refinement statistic.
pub open spec fn shapes_of(num_points: usize, coeffs: int, deferred: bool) -> Seq<Seq<usize>> {
    let transforms = seq![num_points, 10usize];
    let dense = seq![num_points, coeffs as usize, 3usize];
    let each = seq![num_points];
    if deferred {
        seq![transforms, each, each]
    } else {
        seq![transforms, dense, each, each]
    }
}

/// Shapes of the gradients that the projection's backward pass returns.
pub fn gradient_shapes(num_points: usize, sh_degree: u32, deferred: bool) -> (shapes: Vec<
    Vec<usize>,
>)
    requires
        sh_degree <= 65534,
    ensures
        shapes@.map_values(|v: Vec<usize>| v@) == shapes_of(
            num_points,
            sh::coeffs_of_degree(sh_degree as int),
            deferred,
        ),
{
    let coeffs: u32 = sh_coeffs_for_degree(sh_degree);
    let mut shapes: Vec<Vec<usize>> = Vec::new();
    shapes.push(vec![num_points, 10]);
    if !deferred {
        shapes.push(vec![num_points, coeffs as usize, 3]);
    }
    shapes.push(vec![num_points]);
    shapes.push(vec![num_points]);
    proof {
        let views = shapes@.map_values(|v: Vec<usize>| v@);
        let expected = shapes_of(num_points, sh::coeffs_of_degree(sh_degree as int), deferred);
        assert forall|i: int| 0 <= i < views.len() implies views[i] =~= expected[i] by {}
        assert(views =~= expected);
    }
    shapes
}

/// Which inputs of a render have a gradient waiting for them.
#[derive(Clone, Copy, Debug, PartialEq, Eq, Structural)]
pub struct Parents {
    pub transforms: bool,
    pub refine_weight: bool,
    pub coeffs: bool,
    pub raw_opacity: bool,
    /// Coefficient gradients go to the optimizer in compact form.
    pub deferred_sh: bool,
}

/// A gradient that the backward pass hands on.
#[derive(Clone, Copy, Debug, PartialEq, Eq, Structural)]
pub enum Gradient {
    Transforms,
    RefineWeight,
    Coefficients,
    RawOpacity,
    /// The combined rasterization gradient, one row per visible splat.
    CompactSh,
}

/// What the backward pass of a render runs and hands on.
pub struct BackwardPlan {
    /// Whether the rasterization computes the refinement statistic.
    pub compute_refine_weight: bool,
    /// Whether the projection leaves the coefficient gradient out.
    pub deferred: bool,
    /// The gradients to register, in order.
    pub registered: Vec<Gradient>,
}

pub open spec fn only_if(wanted: bool, g: Gradient) -> Seq<Gradient> {
    if wanted {
        seq![g]
    } else {
        seq![]
    }
}

/// The gradients that are handed on: those that are waited for. With deferral
/// the coefficients' share leaves in compact form instead.
pub open spec fn handed_on(p: Parents) -> Seq<Gradient> {
    only_if(p.transforms, Gradient::Transforms) + only_if(p.refine_weight, Gradient::RefineWeight)
        + only_if(p.coeffs && !p.deferred_sh, Gradient::Coefficients) + only_if(
        p.raw_opacity,
        Gradient::RawOpacity,
    ) + only_if(p.deferred_sh, Gradient::CompactSh)
}

fn push_if(list: &mut Vec<Gradient>, wanted: bool, g: Gradient)
    ensures
        final(list)@ == old(list)@ + only_if(wanted, g),
{
    if wanted {
        list.push(g);
    }
}

/// Plans the backward pass of a render.
pub fn plan_backward(parents: &Parents) -> (plan: BackwardPlan)
    ensures
        plan.compute_refine_weight == parents.refine_weight,
        plan.deferred == parents.deferred_sh,
        plan.registered@ == handed_on(*parents),
{
    let mut registered: Vec<Gradient> = Vec::new();
    push_if(&mut registered, parents.transforms, Gradient::Transforms);
    push_if(&mut registered, parents.refine_weight, Gradient::RefineWeight);
    push_if(&mut registered, parents.coeffs && !parents.deferred_sh, Gradient::Coefficients);
    push_if(&mut registered, parents.raw_opacity, Gradient::RawOpacity);
    push_if(&mut registered, parents.deferred_sh, Gradient::CompactSh);
    BackwardPlan {
        compute_refine_weight: parents.refine_weight,
        deferred: parents.deferred_sh,
        registered,
    }
}

/// Model gradients do not depend on whether the refinement statistic is
/// tracked: it only adds its own gradient to what is handed on.
pub proof fn refine_weight_changes_nothing_else(p: Parents, g: Gradient)
    requires
        g != Gradient::RefineWeight,
    ensures
        handed_on(p).contains(g) <==> handed_on(Parents { refine_weight: !p.refine_weight, ..p }).contains(
            g,
        ),
{
    lemma_handed_on(p, g);
    lemma_handed_on(Parents { refine_weight: !p.refine_weight, ..p }, g);
}

/// A deferred coefficient gradient is never handed on in dense form as well.
pub proof fn deferral_replaces_the_dense_gradient(p: Parents)
    ensures
        !(handed_on(p).contains(Gradient::Coefficients) && handed_on(p).contains(
            Gradient::CompactSh,
        )),
        handed_on(p).contains(Gradient::CompactSh) <==> p.deferred_sh,
{
    lemma_handed_on(p, Gradient::Coefficients);
    lemma_handed_on(p, Gradient::CompactSh);
}

proof fn lemma_handed_on(p: Parents, g: Gradient)
    ensures
        handed_on(p).contains(g) <==> match g {
            Gradient::Transforms => p.transforms,
            Gradient::RefineWeight => p.refine_weight,
            Gradient::Coefficients => p.coeffs && !p.deferred_sh,
            Gradient::RawOpacity => p.raw_opacity,
            Gradient::CompactSh => p.deferred_sh,
        },
{
    let a = only_if(p.transforms, Gradient::Transforms);
    let b = only_if(p.refine_weight, Gradient::RefineWeight);
    let c = only_if(p.coeffs && !p.deferred_sh, Gradient::Coefficients);
    let d = only_if(p.raw_opacity, Gradient::RawOpacity);
    let e = only_if(p.deferred_sh, Gradient::CompactSh);
    let s = handed_on(p);
    assert(s =~= a + b + c + d + e);
    match g {
        Gradient::Transforms => if p.transforms {
            assert(s[0] == g);
        },
        Gradient::RefineWeight => if p.refine_weight {
            assert(s[a.len() as int] == g);
        },
        Gradient::Coefficients => if p.coeffs && !p.deferred_sh {
            assert(s[(a + b).len() as int] == g);
        },
        Gradient::RawOpacity => if p.raw_opacity {
            assert(s[(a + b + c).len() as int] == g);
        },
        Gradient::CompactSh => if p.deferred_sh {
            assert(s[(a + b + c + d).len() as int] == g);
        },
    }
}

/// Expands compact rows to one per splat. Row zero stands for culled splats;
/// `compact_from_global` gives each splat's row.
pub fn select_rows<T: Copy>(compact: &Vec<T>, width: usize, compact_from_global: &Vec<u32>) -> (out:
    Vec<T>)
    requires
        forall|i: int|
            0 <= i < compact_from_global.len() ==> (#[trigger] compact_from_global[i] + 1) * width
                <= compact.len(),
    ensures
        out.len() == compact_from_global.len() * width,
        forall|i: int, k: int|
            0 <= i < compact_from_global.len() && 0 <= k < width ==> out[#[trigger] row_slot(
                i,
                width as int,
                k,
            )] == compact[row_slot(compact_from_global[i] as int, width as int, k)],
{
    let mut out: Vec<T> = Vec::new();
    let ghost n = width as int;
    let mut i: usize = 0;
    proof {
        assert(0 * n == 0);
    }
    while i < compact_from_global.len()
        invariant
            n == width,
            i <= compact_from_global.len(),
            forall|j: int|
                0 <= j < compact_from_global.len() ==> (#[trigger] compact_from_global[j] + 1)
                    * width <= compact.len(),
            out.len() == i * n,
            forall|j: int, k: int|
                0 <= j < i && 0 <= k < n ==> out[#[trigger] row_slot(j, n, k)] == compact[row_slot(
                    compact_from_global[j] as int,
                    n,
                    k,
                )],
        decreases compact_from_global.len() - i,
    {
        let row: usize = compact_from_global[i] as usize;
        proof {
            assert(compact_from_global[i as int] == row);
            assert((row + 1) * n == row * n + n && 0 <= row * n) by (nonlinear_arith)
                requires
                    0 <= n,
            ;
        }
        let start: usize = row * width;
        let ghost before = out@;
        let mut k: usize = 0;
        while k < width
            invariant
                n == width,
                k <= width,
                start == row * n,
                start + n <= compact.len(),
                before.len() == i * n,
                out.len() == i * n + k,
                forall|j: int| 0 <= j < before.len() ==> out[j] == before[j],
                forall|j: int| 0 <= j < k ==> out[#[trigger] (i * n + j)] == compact[start + j],
            decreases width - k,
        {
            out.push(compact[start + k]);
            k = k + 1;
        }
        proof {
            assert((i + 1) * n == i * n + n) by (nonlinear_arith);
            assert forall|j: int, k: int| 0 <= j < i + 1 && 0 <= k < n implies out[
                #[trigger] row_slot(j, n, k)] == compact[row_slot(
                compact_from_global[j] as int,
                n,
                k,
            )] by {
                if j < i {
                    assert(0 <= j * n + k < i * n) by (nonlinear_arith)
                        requires
                            0 <= j < i,
                            0 <= k < n,
                    ;
                    assert(out[row_slot(j, n, k)] == before[row_slot(j, n, k)]);
                } else {
                    assert(row_slot(j, n, k) == i * n + k);
                }
            }
        }
        i = i + 1;
    }
    out
}

/// The index of an element of a row.
pub open spec fn row_slot(row: int, width: int, k: int) -> int {
    row * width + k
}

/// What a differentiable render is asked for.
#[derive(Clone, Copy, Debug, PartialEq, Eq, Structural)]
pub struct RenderRequest {
    pub pass: RasterPass,
    pub rasterizer: Rasterizer,
    pub compute_refine_weight: bool,
    pub defer_sh_grad: bool,
}

/// The request of an ordinary differentiable render.
pub fn render_request(compute_refine_weight: bool) -> (r: RenderRequest)
    ensures
        r == (RenderRequest {
            pass: RasterPass::Backward,
            rasterizer: Rasterizer::Legacy,
            compute_refine_weight,
            defer_sh_grad: false,
        }),
{
    RenderRequest {
        pass: RasterPass::Backward,
        rasterizer: Rasterizer::Legacy,
        compute_refine_weight,
        defer_sh_grad: false,
    }
}

/// The request of a training render. Builds without the optimizer's
/// specialization ignore deferral.
pub fn training_request(
    selected: &mut Option<Rasterizer>,
    compute_refine_weight: bool,
    defer_sh_grad: bool,
    native_build: bool,
    fine_tiles_requested: bool,
) -> (r: RenderRequest)
    ensures
        r == (RenderRequest {
            pass: RasterPass::Backward,
            rasterizer: settled(*old(selected), rasterizer_for(fine_tiles_requested)),
            compute_refine_weight,
            defer_sh_grad: defer_sh_grad && native_build,
        }),
        *final(selected) == Some(r.rasterizer),
{
    RenderRequest {
        pass: RasterPass::Backward,
        rasterizer: training_rasterizer(selected, fine_tiles_requested),
        compute_refine_weight,
        defer_sh_grad: defer_sh_grad && native_build,
    }
}

/// What a differentiable render does beside rendering.
#[derive(Clone, Copy, Debug, PartialEq, Eq, Structural)]
pub struct RenderPlan {
    pub render_mode: SplatRenderMode,
    pub has_min_scale: bool,
    /// Whether the refinement statistic's holder waits for a gradient.
    pub track_refine_weight: bool,
    /// Whether the compact coefficient gradient's holder waits for a gradient,
    /// and is handed out.
    pub hand_out_deferred: bool,
    /// Whether what the backward pass needs is kept.
    pub keep_state: bool,
}

/// Why a differentiable render cannot run.
pub open spec fn render_refusal(autodiff: bool, pass: RasterPass) -> Option<Seq<char>> {
    if !autodiff {
        Some("brush_render::bwd::render_splats requires an autodiff-enabled device"@)
    } else if pass == RasterPass::Forward {
        Some("render_splats_with_pass requires a Backward variant"@)
    } else {
        None
    }
}

/// Plans a differentiable render. `params_tracked` says whether any parameter
/// of the splats waits for a gradient.
pub fn plan_render(
    request: &RenderRequest,
    autodiff: bool,
    render_mip: bool,
    has_min_scale: bool,
    params_tracked: bool,
) -> (r: Result<RenderPlan, String>)
    ensures
        match r {
            Err(e) => render_refusal(autodiff, request.pass) == Some(e@),
            Ok(plan) => render_refusal(autodiff, request.pass) is None && plan == (RenderPlan {
                render_mode: if render_mip {
                    SplatRenderMode::Mip
                } else {
                    SplatRenderMode::Default
                },
                has_min_scale,
                track_refine_weight: request.compute_refine_weight,
                hand_out_deferred: request.defer_sh_grad,
                keep_state: params_tracked || request.compute_refine_weight
                    || request.defer_sh_grad,
            }),
        },
{
    if !autodiff {
        return Err(
            String::from_str(
                "brush_render::bwd::render_splats requires an autodiff-enabled device",
            ),
        );
    }
    if !request.pass.bwd_info() {
        return Err(String::from_str("render_splats_with_pass requires a Backward variant"));
    }
    Ok(
        RenderPlan {
            render_mode: render_mode_of(render_mip),
            has_min_scale,
            track_refine_weight: request.compute_refine_weight,
            hand_out_deferred: request.defer_sh_grad,
            keep_state: params_tracked || request.compute_refine_weight || request.defer_sh_grad,
        },
    )
}

/// A gradient row is written from the last of the visible splats that stands for
/// it and has a color gradient, and from none where there is no such splat.
pub proof fn rows_come_from_the_last_splat(
    global_from_compact: Seq<u32>,
    v_combined: Seq<u32>,
    n: int,
    splat: int,
)
    requires
        0 <= n <= u32::MAX,
    ensures
        ({
            let source = row_source(global_from_compact, v_combined, n, splat);
            let stands = |k: int|
                global_from_compact[k] == splat && sh_grad_materialize::has_color_gradient(
                    v_combined,
                    k,
                );
            &&& source <= n
            &&& source > 0 ==> stands(source - 1)
            &&& forall|k: int| source <= k < n ==> !#[trigger] stands(k)
        }),
    decreases n,
{
    if n > 0 {
        rows_come_from_the_last_splat(global_from_compact, v_combined, n - 1, splat);
    }
}

} // verus!
