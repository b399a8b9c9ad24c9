//! The walk of a pixel through the splats of its tile: how each falls off,
//! what the cutoff leaves of it, and when the pixel is saturated.
use vstd::prelude::*;

use crate::counting;
use crate::raster_census;
use crate::raster_census::{
    check_frame, report_frame, select_tiles, tile_span, RasterCensusInput, RasterCensusReport,
    TileSpan,
};
use crate::raster_replay::PairOutcome;
use crate::scalar;
use crate::scalar::{
    eval_exp, eval_from_count, eval_less, eval_literal, eval_minus, eval_negated, eval_one, eval_over, eval_plus,
    eval_same, eval_three, eval_times, eval_two, eval_zero, Scalar,
};

verus! {

/// The operations that the walk needs beside those of the image kernels.
pub trait RasterScalar: Scalar {
    /// The opacity that the cutoff lies at.
    fn cutoff_mid() -> Self;

    /// The width of the smooth cutoff.
    fn cutoff_band() -> Self;

    /// The smaller of the two.
    fn smaller(self, other: Self) -> Self;

    /// The value, held between zero and one.
    fn to_unit(self) -> Self;
}

pub open spec fn half<S: RasterScalar>() -> S {
    scalar::literal("0.5")
}

/// The greatest opacity of a splat.
pub open spec fn alpha_cap<S: RasterScalar>() -> S {
    scalar::literal("0.999")
}

/// What `RasterScalar::cutoff_mid` returns.
pub open spec fn cutoff_mid<S: RasterScalar>() -> S {
    choose|r: S| call_ensures(S::cutoff_mid, (), r)
}

/// What `RasterScalar::cutoff_band` returns.
pub open spec fn cutoff_band<S: RasterScalar>() -> S {
    choose|r: S| call_ensures(S::cutoff_band, (), r)
}

/// The transmittance at which a pixel is saturated.
pub open spec fn least_transmittance<S: RasterScalar>() -> S {
    scalar::literal("1.0e-4")
}

/// What `RasterScalar::to_unit` returns.
pub open spec fn to_unit<S: RasterScalar>(a: S) -> S {
    choose|r: S| call_ensures(S::to_unit, (a,), r)
}

/// What `RasterScalar::smaller` returns.
pub open spec fn smaller<S: RasterScalar>(a: S, b: S) -> S {
    choose|r: S| call_ensures(S::smaller, (a, b), r)
}

/// Every operation's result is a function of its arguments.
pub open spec fn deterministic<S: RasterScalar>() -> bool {
    &&& scalar::deterministic::<S>()
    &&& forall|r: S, q: S|
        #[trigger] call_ensures(S::cutoff_mid, (), r) && #[trigger] call_ensures(
            S::cutoff_mid,
            (),
            q,
        ) ==> r == q
    &&& forall|r: S, q: S|
        #[trigger] call_ensures(S::cutoff_band, (), r) && #[trigger] call_ensures(
            S::cutoff_band,
            (),
            q,
        ) ==> r == q
    &&& forall|a: S, r: S, q: S|
        #[trigger] call_ensures(S::to_unit, (a,), r) && #[trigger] call_ensures(
            S::to_unit,
            (a,),
            q,
        ) ==> r == q
    &&& forall|a: S, b: S, r: S, q: S|
        #[trigger] call_ensures(S::smaller, (a, b), r) && #[trigger] call_ensures(
            S::smaller,
            (a, b),
            q,
        ) ==> r == q
}

fn eval_half<S: RasterScalar>() -> (r: S)
    ensures
        deterministic::<S>() ==> r == half::<S>(),
{
    eval_literal("0.5")
}

fn eval_alpha_cap<S: RasterScalar>() -> (r: S)
    ensures
        deterministic::<S>() ==> r == alpha_cap::<S>(),
{
    eval_literal("0.999")
}

fn eval_cutoff_mid<S: RasterScalar>() -> (r: S)
    ensures
        deterministic::<S>() ==> r == cutoff_mid::<S>(),
{
    S::cutoff_mid()
}

fn eval_cutoff_band<S: RasterScalar>() -> (r: S)
    ensures
        deterministic::<S>() ==> r == cutoff_band::<S>(),
{
    S::cutoff_band()
}

fn eval_least_transmittance<S: RasterScalar>() -> (r: S)
    ensures
        deterministic::<S>() ==> r == least_transmittance::<S>(),
{
    eval_literal("1.0e-4")
}

fn eval_to_unit<S: RasterScalar>(a: S) -> (r: S)
    ensures
        deterministic::<S>() ==> r == to_unit(a),
{
    a.to_unit()
}

fn eval_smaller<S: RasterScalar>(a: S, b: S) -> (r: S)
    ensures
        deterministic::<S>() ==> r == smaller(a, b),
{
    a.smaller(b)
}

/// `a <= b`.
pub open spec fn at_most<S: RasterScalar>(a: S, b: S) -> bool {
    scalar::less(a, b) || scalar::same(a, b)
}

fn eval_at_most<S: RasterScalar>(a: S, b: S) -> (r: bool)
    ensures
        deterministic::<S>() ==> r == at_most(a, b),
{
    eval_less(a, b) || eval_same(a, b)
}

/// What the cutoff leaves of an opacity.
pub open spec fn cutoff<S: RasterScalar>(alpha: S, smooth: bool) -> S {
    if !smooth {
        if at_most(cutoff_mid(), alpha) {
            scalar::one()
        } else {
            scalar::zero()
        }
    } else {
        let low = scalar::difference(
            cutoff_mid(),
            scalar::product(half(), cutoff_band()),
        );
        let t = to_unit(scalar::quotient(scalar::difference(alpha, low), cutoff_band()));
        scalar::product(
            scalar::product(t, t),
            scalar::difference(scalar::three(), scalar::product(scalar::two(), t)),
        )
    }
}

/// The weight that the cutoff gives an opacity.
pub fn cutoff_weight<S: RasterScalar>(alpha: S, smooth_cutoff: bool) -> (r: S)
    ensures
        deterministic::<S>() ==> r == cutoff(alpha, smooth_cutoff),
{
    if !smooth_cutoff {
        if eval_at_most(eval_cutoff_mid(), alpha) {
            eval_one()
        } else {
            eval_zero()
        }
    } else {
        let low: S = eval_minus(eval_cutoff_mid(), eval_times(eval_half(), eval_cutoff_band()));
        let t: S = eval_to_unit(eval_over(eval_minus(alpha, low), eval_cutoff_band()));
        eval_times(eval_times(t, t), eval_minus(eval_three(), eval_times(eval_two(), t)))
    }
}

/// A projected splat: its centre, the three parts of its inverse covariance,
/// and its opacity.
#[derive(Clone, Copy)]
pub struct ProjectedSplat<S> {
    pub x: S,
    pub y: S,
    pub conic_x: S,
    pub conic_xy: S,
    pub conic_y: S,
    pub opacity: S,
}

/// The splat in a row of projected values.
pub open spec fn splat_at<S>(projected: Seq<S>, gid: int) -> ProjectedSplat<S> {
    ProjectedSplat {
        x: projected[gid * 9],
        y: projected[gid * 9 + 1],
        conic_x: projected[gid * 9 + 2],
        conic_xy: projected[gid * 9 + 3],
        conic_y: projected[gid * 9 + 4],
        opacity: projected[gid * 9 + 5],
    }
}

/// The exponent that a splat falls off with at a point.
pub open spec fn falloff<S: RasterScalar>(s: ProjectedSplat<S>, px: S, py: S) -> S {
    let dx = scalar::difference(px, s.x);
    let dy = scalar::difference(py, s.y);
    scalar::sum(
        scalar::product(
            half(),
            scalar::sum(
                scalar::product(scalar::product(s.conic_x, dx), dx),
                scalar::product(scalar::product(s.conic_y, dy), dy),
            ),
        ),
        scalar::product(scalar::product(s.conic_xy, dx), dy),
    )
}

/// A splat's opacity at a point.
pub open spec fn opacity_at<S: RasterScalar>(s: ProjectedSplat<S>, sigma: S) -> S {
    smaller(scalar::product(s.opacity, scalar::exponential(scalar::negation(sigma))), alpha_cap())
}

/// What becomes of a pixel and a splat, and the transmittance behind it.
pub open spec fn met<S: RasterScalar>(
    transmittance: S,
    s: ProjectedSplat<S>,
    px: S,
    py: S,
    smooth: bool,
) -> (PairOutcome, S) {
    let sigma = falloff(s, px, py);
    let alpha = opacity_at(s, sigma);
    let weight = cutoff(alpha, smooth);
    let next = scalar::product(
        transmittance,
        scalar::difference(scalar::one(), scalar::product(alpha, weight)),
    );
    if !scalar::same(sigma, sigma) || scalar::less(sigma, scalar::zero()) {
        (PairOutcome::SigmaRejected, transmittance)
    } else if !scalar::same(weight, weight) || at_most(weight, scalar::zero()) {
        (PairOutcome::CutoffRejected, transmittance)
    } else if at_most(next, least_transmittance()) {
        (PairOutcome::EarlyTerminated, transmittance)
    } else {
        (PairOutcome::Composited, next)
    }
}

/// Lets a pixel meet a splat.
pub fn meet<S: RasterScalar>(
    transmittance: S,
    s: ProjectedSplat<S>,
    px: S,
    py: S,
    smooth_cutoff: bool,
) -> (r: (PairOutcome, S))
    ensures
        deterministic::<S>() ==> r == met(transmittance, s, px, py, smooth_cutoff),
{
    let dx: S = eval_minus(px, s.x);
    let dy: S = eval_minus(py, s.y);
    let sigma: S = eval_plus(
        eval_times(
            eval_half(),
            eval_plus(
                eval_times(eval_times(s.conic_x, dx), dx),
                eval_times(eval_times(s.conic_y, dy), dy),
            ),
        ),
        eval_times(eval_times(s.conic_xy, dx), dy),
    );
    let alpha: S = eval_smaller(
        eval_times(s.opacity, eval_exp(eval_negated(sigma))),
        eval_alpha_cap(),
    );
    if !eval_same(sigma, sigma) || eval_less(sigma, eval_zero()) {
        return (PairOutcome::SigmaRejected, transmittance);
    }
    let weight: S = cutoff_weight(alpha, smooth_cutoff);
    if !eval_same(weight, weight) || eval_at_most(weight, eval_zero()) {
        return (PairOutcome::CutoffRejected, transmittance);
    }
    let next: S = eval_times(transmittance, eval_minus(eval_one(), eval_times(alpha, weight)));
    if eval_at_most(next, eval_least_transmittance()) {
        return (PairOutcome::EarlyTerminated, transmittance);
    }
    (PairOutcome::Composited, next)
}

/// What a walk goes through: the projected splats, the splats of the entries
/// of a tile's range, how many splats there are, and the cutoff.
pub struct Walk<S> {
    pub projected: Seq<S>,
    pub gids: Seq<u32>,
    pub visible: u32,
    pub smooth: bool,
}

/// What becomes of a pixel at entry `e`, and the transmittance behind it. A
/// saturated pixel stays so; an entry that refers to no splat leaves nothing.
pub open spec fn walked<S: RasterScalar>(w: Walk<S>, px: S, py: S, e: int) -> (PairOutcome, S)
    decreases e,
{
    let before = if e <= 0 {
        (PairOutcome::CutoffRejected, scalar::one())
    } else {
        walked(w, px, py, e - 1)
    };
    if before.0 == PairOutcome::EarlyTerminated {
        before
    } else if w.gids[e] >= w.visible {
        (PairOutcome::CutoffRejected, before.1)
    } else {
        met(before.1, splat_at(w.projected, w.gids[e] as int), px, py, w.smooth)
    }
}

/// A pixel's centre.
pub open spec fn centre<S: RasterScalar>(pixel: u32) -> S {
    scalar::sum(scalar::from_count(pixel), half())
}

fn eval_centre<S: RasterScalar>(pixel: u32) -> (r: S)
    ensures
        deterministic::<S>() ==> r == centre::<S>(pixel),
{
    eval_plus(eval_from_count(pixel), eval_half())
}

/// Appends what becomes of one pixel at each entry of a tile's range.
fn walk_pixel<S: RasterScalar>(
    row: &mut Vec<PairOutcome>,
    input: &RasterCensusInput<'_>,
    projected: &Vec<S>,
    smooth_cutoff: bool,
    lo: u32,
    hi: u32,
    x: u32,
    y: u32,
)
    requires
        lo <= hi <= input.compact_gid_from_isect@.len(),
        input.num_visible * 9 <= projected.len(),
    ensures
        final(row).len() == old(row).len() + (hi - lo),
        forall|i: int| 0 <= i < old(row).len() ==> final(row)[i] == old(row)[i],
        deterministic::<S>() ==> forall|e: int|
            0 <= e < hi - lo ==> final(row)[#[trigger] counting::shifted(
                old(row).len() as int,
                e,
            )] == walked(
                walk_of(input, projected@, smooth_cutoff, lo as int, hi as int),
                centre::<S>(x),
                centre::<S>(y),
                e,
            ).0,
{
    let ghost w = walk_of(input, projected@, smooth_cutoff, lo as int, hi as int);
    let ghost before = row@;
    let px: S = eval_centre(x);
    let py: S = eval_centre(y);
    let mut transmittance: S = eval_one();
    let mut saturated: bool = false;
    let mut isect: u32 = lo;
    while isect < hi
        invariant
            lo <= isect <= hi <= input.compact_gid_from_isect@.len(),
            input.num_visible * 9 <= projected.len(),
            w == walk_of(input, projected@, smooth_cutoff, lo as int, hi as int),
            deterministic::<S>() ==> px == centre::<S>(x) && py == centre::<S>(y),
            row.len() == before.len() + (isect - lo),
            forall|i: int| 0 <= i < before.len() ==> row[i] == before[i],
            deterministic::<S>() ==> forall|e: int|
                0 <= e < isect - lo ==> row[#[trigger] counting::shifted(
                    before.len() as int,
                    e,
                )] == walked(w, px, py, e).0,
            deterministic::<S>() && isect == lo ==> transmittance == scalar::one::<S>(),
            isect == lo ==> !saturated,
            deterministic::<S>() && isect > lo ==> transmittance == walked(
                w,
                px,
                py,
                isect - lo - 1,
            ).1 && saturated == (walked(w, px, py, isect - lo - 1).0
                == PairOutcome::EarlyTerminated),
        decreases hi - isect,
    {
        let gid: u32 = input.compact_gid_from_isect[isect as usize];
        assert(w.gids[isect - lo] == gid);
        if saturated {
            row.push(PairOutcome::EarlyTerminated);
        } else if gid >= input.num_visible {
            row.push(PairOutcome::CutoffRejected);
        } else {
            proof {
                assert(gid * 9 + 9 <= projected.len()) by (nonlinear_arith)
                    requires
                        gid + 1 <= input.num_visible,
                        input.num_visible * 9 <= projected.len(),
                ;
            }
            let base: usize = gid as usize * 9;
            let splat: ProjectedSplat<S> = ProjectedSplat {
                x: projected[base],
                y: projected[base + 1],
                conic_x: projected[base + 2],
                conic_xy: projected[base + 3],
                conic_y: projected[base + 4],
                opacity: projected[base + 5],
            };
            let (outcome, next) = meet(transmittance, splat, px, py, smooth_cutoff);
            row.push(outcome);
            transmittance = next;
            saturated = outcome == PairOutcome::EarlyTerminated;
        }
        proof {
            assert(counting::shifted(before.len() as int, isect - lo) == row.len() - 1);
        }
        isect = isect + 1;
    }
}

/// The walk through a range of intersections.
pub open spec fn walk_of<S>(
    input: &RasterCensusInput<'_>,
    projected: Seq<S>,
    smooth: bool,
    lo: int,
    hi: int,
) -> Walk<S> {
    Walk {
        projected,
        gids: input.compact_gid_from_isect@.subrange(lo, hi),
        visible: input.num_visible,
        smooth,
    }
}

/// What becomes of pixel `p` of a tile at entry `e`.
pub open spec fn outcome_of<S: RasterScalar>(
    input: &RasterCensusInput<'_>,
    projected: Seq<S>,
    smooth: bool,
    t: int,
    p: int,
    e: int,
) -> PairOutcome {
    let x = input.tile_left(t) + p % input.tile_columns(t);
    let y = input.tile_top(t) + p / input.tile_columns(t);
    walked(
        walk_of(
            input,
            projected,
            smooth,
            input.pre_offsets@[2 * t] as int,
            input.pre_offsets@[2 * t + 1] as int,
        ),
        centre::<S>(x as u32),
        centre::<S>(y as u32),
        e,
    ).0
}

/// A table holds what becomes of every pixel of a tile at every entry.
pub open spec fn is_table<S: RasterScalar>(
    input: &RasterCensusInput<'_>,
    projected: Seq<S>,
    smooth: bool,
    t: int,
    table: Seq<PairOutcome>,
) -> bool {
    &&& table.len() == input.tile_pixels(t) * input.entries(t)
    &&& deterministic::<S>() ==> forall|p: int, e: int|
        0 <= p < input.tile_pixels(t) && 0 <= e < input.entries(t) ==> table[
            #[trigger] counting::cell_index(p, input.entries(t), e)] == outcome_of(
            input,
            projected,
            smooth,
            t,
            p,
            e,
        )
}

/// What becomes of every pixel of a tile at every entry, a row of entries for
/// each pixel.
#[verifier::rlimit(40)]
fn walk_tile<S: RasterScalar>(
    input: &RasterCensusInput<'_>,
    projected: &Vec<S>,
    smooth_cutoff: bool,
    tile_id: usize,
) -> (table: Vec<PairOutcome>)
    requires
        input.num_tiles() <= u32::MAX,
        tile_id < input.num_tiles(),
        input.tile_ok(tile_id as int),
        2 * input.num_tiles() <= input.pre_offsets@.len(),
        input.pre_offsets@[2 * tile_id] <= input.pre_offsets@[2 * tile_id + 1]
            <= input.compact_gid_from_isect@.len(),
        input.num_visible * 9 <= projected.len(),
    ensures
        is_table(input, projected@, smooth_cutoff, tile_id as int, table@),
{
    let span: TileSpan = tile_span(input, tile_id);
    let pre_len: usize = input.pre_offsets.len();
    assert(2 * tile_id + 1 < pre_len);
    let lo: u32 = input.pre_offsets[2 * tile_id];
    let hi: u32 = input.pre_offsets[2 * tile_id + 1];
    let ghost t = tile_id as int;
    let ghost n = hi - lo;
    let ghost cols = span.columns as int;
    let mut table: Vec<PairOutcome> = Vec::new();
    let mut row: u32 = 0;
    proof {
        assert(0 * cols == 0 && 0 * n == 0);
    }
    while row < span.rows
        invariant
            t == tile_id,
            n == hi - lo,
            0 <= n,
            cols == span.columns,
            row <= span.rows,
            span.min_x == input.tile_left(t),
            span.min_y == input.tile_top(t),
            span.columns == input.tile_columns(t),
            span.rows == input.tile_rows(t),
            span.min_x + span.columns <= u32::MAX,
            span.min_y + span.rows <= u32::MAX,
            lo == input.pre_offsets@[2 * t],
            hi == input.pre_offsets@[2 * t + 1],
            lo <= hi <= input.compact_gid_from_isect@.len(),
            input.num_visible * 9 <= projected.len(),
            table.len() == row * cols * n,
            deterministic::<S>() ==> forall|p: int, e: int|
                0 <= p < row * cols && 0 <= e < n ==> table[#[trigger] counting::cell_index(
                    p,
                    n,
                    e,
                )] == outcome_of(input, projected@, smooth_cutoff, t, p, e),
        decreases span.rows - row,
    {
        let mut col: u32 = 0;
        proof {
            assert(row * cols + 0 == row * cols);
        }
        while col < span.columns
            invariant
                t == tile_id,
                n == hi - lo,
                0 <= n,
                cols == span.columns,
                row < span.rows,
                col <= span.columns,
                span.min_x == input.tile_left(t),
                span.min_y == input.tile_top(t),
                span.columns == input.tile_columns(t),
                span.rows == input.tile_rows(t),
                span.min_x + span.columns <= u32::MAX,
                span.min_y + span.rows <= u32::MAX,
                lo == input.pre_offsets@[2 * t],
                hi == input.pre_offsets@[2 * t + 1],
                lo <= hi <= input.compact_gid_from_isect@.len(),
                input.num_visible * 9 <= projected.len(),
                table.len() == (row * cols + col) * n,
                deterministic::<S>() ==> forall|p: int, e: int|
                    0 <= p < row * cols + col && 0 <= e < n ==> table[
                        #[trigger] counting::cell_index(p, n, e)] == outcome_of(
                        input,
                        projected@,
                        smooth_cutoff,
                        t,
                        p,
                        e,
                    ),
            decreases span.columns - col,
        {
            let ghost before = table@;
            let ghost p0 = row * cols + col;
            walk_pixel(
                &mut table,
                input,
                projected,
                smooth_cutoff,
                lo,
                hi,
                span.min_x + col,
                span.min_y + row,
            );
            proof {
                assert((p0 + 1) * n == p0 * n + n) by (nonlinear_arith);
                assert(p0 / cols == row && p0 % cols == col) by (nonlinear_arith)
                    requires
                        p0 == row * cols + col,
                        0 <= col < cols,
                ;
                if deterministic::<S>() {
                    assert forall|p: int, e: int| 0 <= p < p0 + 1 && 0 <= e < n implies table[
                        #[trigger] counting::cell_index(p, n, e)] == outcome_of(
                        input,
                        projected@,
                        smooth_cutoff,
                        t,
                        p,
                        e,
                    ) by {
                        if p < p0 {
                            assert(0 <= p * n + e < p0 * n) by (nonlinear_arith)
                                requires
                                    0 <= p < p0,
                                    0 <= e < n,
                            ;
                            assert(table[counting::cell_index(p, n, e)] == before[counting::cell_index(
                                p,
                                n,
                                e,
                            )]);
                        } else {
                            assert(counting::cell_index(p, n, e) == counting::shifted(
                                before.len() as int,
                                e,
                            ));
                        }
                    }
                }
            }
            col = col + 1;
        }
        proof {
            assert(row * cols + cols == (row + 1) * cols) by (nonlinear_arith);
        }
        row = row + 1;
    }
    proof {
        assert(span.rows * cols == input.tile_pixels(t)) by (nonlinear_arith)
            requires
                cols == input.tile_columns(t),
                span.rows == input.tile_rows(t),
                input.tile_pixels(t) == input.tile_columns(t) * input.tile_rows(t),
        ;
    }
    table
}

/// Tables of the sampled tiles.
pub open spec fn are_tables<S: RasterScalar>(
    input: &RasterCensusInput<'_>,
    projected: Seq<S>,
    smooth: bool,
    tables: Seq<Vec<PairOutcome>>,
) -> bool {
    &&& tables.len() == input.sample().len()
    &&& forall|k: int|
        0 <= k < tables.len() ==> is_table(
            input,
            projected,
            smooth,
            input.sample()[k],
            (#[trigger] tables[k])@,
        )
}

/// Walks the sampled tiles of a frame whose shape was checked.
fn walk_sample<S: RasterScalar>(
    input: &RasterCensusInput<'_>,
    projected: &Vec<S>,
    smooth_cutoff: bool,
    num_tiles: usize,
) -> (tables: Vec<Vec<PairOutcome>>)
    requires
        input.sample_ok(),
        num_tiles == input.num_tiles(),
        num_tiles <= u32::MAX,
        2 * num_tiles <= input.pre_offsets@.len(),
        input.num_intersections <= input.compact_gid_from_isect@.len(),
        raster_census::all_ranges(
            input.pre_offsets@,
            num_tiles as int,
            input.num_intersections as int,
        ),
        input.num_visible * 9 <= projected.len(),
    ensures
        are_tables(input, projected@, smooth_cutoff, tables@),
{
    let selected: Vec<usize> = select_tiles(num_tiles, input.request.sample_tiles);
    let ghost sel = input.sample();
    proof {
        assert forall|j: int| 0 <= j < selected.len() implies input.tile_ok(
            #[trigger] selected[j] as int,
        ) by {
            assert(counting::as_positions(selected@)[j] == sel[j]);
            assert(input.tile_ok(input.sample()[j]));
        }
    }
    let mut tables: Vec<Vec<PairOutcome>> = Vec::new();
    let mut k: usize = 0;
    while k < selected.len()
        invariant
            k <= selected.len(),
            forall|j: int|
                0 <= j < selected.len() ==> input.tile_ok(#[trigger] selected[j] as int),
            num_tiles == input.num_tiles(),
            num_tiles <= u32::MAX,
            2 * num_tiles <= input.pre_offsets@.len(),
            input.num_intersections <= input.compact_gid_from_isect@.len(),
            raster_census::all_ranges(
                input.pre_offsets@,
                num_tiles as int,
                input.num_intersections as int,
            ),
            input.num_visible * 9 <= projected.len(),
            sel == counting::as_positions(selected@),
            forall|j: int| 0 <= j < selected.len() ==> #[trigger] selected[j] < num_tiles,
            tables.len() == k,
            forall|j: int|
                0 <= j < k ==> is_table(
                    input,
                    projected@,
                    smooth_cutoff,
                    sel[j],
                    (#[trigger] tables[j])@,
                ),
        decreases selected.len() - k,
    {
        let tile_id: usize = selected[k];
        proof {
            assert(sel[k as int] == tile_id);
            assert(!raster_census::is_bad_range(
                input.pre_offsets@,
                tile_id as int,
                input.num_intersections as int,
            ));
        }
        tables.push(walk_tile(input, projected, smooth_cutoff, tile_id));
        k = k + 1;
    }
    tables
}

/// A frame's report is that of the outcomes that a walk finds.
pub open spec fn is_frame_report<S: RasterScalar>(
    input: &RasterCensusInput<'_>,
    projected: Seq<S>,
    smooth: bool,
    r: Result<RasterCensusReport, String>,
    tables: Seq<Vec<PairOutcome>>,
) -> bool {
    &&& are_tables(input, projected, smooth, tables)
    &&& match r {
        Err(e) => raster_census::census_error(input, tables) == Some(e@),
        Ok(report) => raster_census::census_error(input, tables) is None
            && raster_census::is_report(input, tables, report),
    }
}

/// Analyzes one rasterized frame from its projected splats.
pub fn analyze<S: RasterScalar>(
    input: &RasterCensusInput<'_>,
    projected: &Vec<S>,
    smooth_cutoff: bool,
) -> (r: Result<RasterCensusReport, String>)
    requires
        input.fits(),
        input.projected_len == projected.len(),
    ensures
        raster_census::frame_error(input) matches Some(text) ==> r matches Err(e) && e@ == text,
        raster_census::frame_error(input) is None ==> exists|tables: Seq<Vec<PairOutcome>>|
            #[trigger] is_frame_report(input, projected@, smooth_cutoff, r, tables),
{
    match check_frame(input) {
        Err(e) => Err(e),
        Ok(frame) => {
            let num_tiles: usize = frame.num_tiles;
            let tables: Vec<Vec<PairOutcome>> = walk_sample(
                input,
                projected,
                smooth_cutoff,
                num_tiles,
            );
            let r: Result<RasterCensusReport, String> = report_frame(input, frame, &tables);
            assert(is_frame_report(input, projected@, smooth_cutoff, r, tables@));
            r
        },
    }
}

/// Outcomes that a walk finds always cover the sampled pairs.
pub proof fn walked_tables_cover_the_sample<S: RasterScalar>(
    input: &RasterCensusInput<'_>,
    projected: Seq<S>,
    smooth: bool,
    tables: Seq<Vec<PairOutcome>>,
    k: int,
)
    requires
        are_tables(input, projected, smooth, tables),
        0 <= k < input.sample().len(),
    ensures
        tables.len() == input.sample().len(),
        tables[k]@.len() == input.tile_pixels(input.sample()[k]) * input.entries(
            input.sample()[k],
        ),
{
}

/// A pixel's transmittance never goes past the saturation point: a splat that
/// would take it there is not composited.
pub proof fn composited_pixels_are_not_saturated<S: RasterScalar>(
    w: Walk<S>,
    px: S,
    py: S,
    e: int,
)
    requires
        0 <= e < w.gids.len(),
        walked(w, px, py, e).0 == PairOutcome::Composited,
    ensures
        !at_most(walked(w, px, py, e).1, least_transmittance()),
{
}

/// A saturated pixel meets no further splat.
pub proof fn saturation_is_final<S: RasterScalar>(w: Walk<S>, px: S, py: S, e: int, f: int)
    requires
        0 <= e <= f,
        walked(w, px, py, e).0 == PairOutcome::EarlyTerminated,
    ensures
        walked(w, px, py, f) == walked(w, px, py, e),
    decreases f - e,
{
    if e < f {
        saturation_is_final(w, px, py, e, f - 1);
    }
}

/// What an operation of a deterministic scalar type returns is what a walk takes
/// it to return, with its arguments in their order.
pub proof fn walks_use_the_operations_of_the_type<S: RasterScalar>()
    requires
        deterministic::<S>(),
    ensures
        forall|r: S| #[trigger] call_ensures(S::cutoff_mid, (), r) ==> cutoff_mid::<S>() == r,
        forall|r: S| #[trigger] call_ensures(S::cutoff_band, (), r) ==> cutoff_band::<S>() == r,
        forall|a: S, b: S, r: S| #[trigger] call_ensures(S::smaller, (a, b), r) ==> smaller(a, b) == r,
        forall|a: S, r: S| #[trigger] call_ensures(S::to_unit, (a,), r) ==> to_unit(a) == r,
{
}

/// The pixels of a tile go row by row, from its upper left one: the outcome of
/// the one in column `col` and row `row` is that at its centre.
pub proof fn pixels_go_row_by_row<S: RasterScalar>(
    input: &RasterCensusInput<'_>,
    projected: Seq<S>,
    smooth: bool,
    t: int,
    col: int,
    row: int,
    e: int,
)
    requires
        0 <= col < input.tile_columns(t),
        0 <= row,
    ensures
        outcome_of(input, projected, smooth, t, row * input.tile_columns(t) + col, e) == walked(
            walk_of(
                input,
                projected,
                smooth,
                input.pre_offsets@[2 * t] as int,
                input.pre_offsets@[2 * t + 1] as int,
            ),
            centre::<S>((input.tile_left(t) + col) as u32),
            centre::<S>((input.tile_top(t) + row) as u32),
            e,
        ).0,
{
    let n = input.tile_columns(t);
    vstd::arithmetic::div_mod::lemma_fundamental_div_mod_converse(row * n + col, n, row, col);
}

/// What is not a number is rejected: a falloff that is not equal to itself, and a
/// weight that is not, leave the light as it was.
pub proof fn what_is_no_number_is_rejected<S: RasterScalar>(
    transmittance: S,
    s: ProjectedSplat<S>,
    px: S,
    py: S,
    smooth: bool,
)
    ensures
        ({
            let sigma = falloff(s, px, py);
            let weight = cutoff(opacity_at(s, sigma), smooth);
            let r = met(transmittance, s, px, py, smooth);
            &&& !scalar::same(sigma, sigma) ==> r == (PairOutcome::SigmaRejected, transmittance)
            &&& !scalar::same(weight, weight) ==> r.0 != PairOutcome::Composited && r.0
                != PairOutcome::EarlyTerminated && r.1 == transmittance
        }),
{
}

} // verus!
