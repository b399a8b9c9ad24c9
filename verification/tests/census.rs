//! The raster census: requests, summaries, and the replay of sampled tiles on
//! single-precision numbers.

use brush::raster_census::{
    analyze_outcomes, frame_fits, mix_id, percentile, rate, request, select_tiles, sort_values, summarize,
    take_request, validate_offsets, PendingCensus, RasterCensusInput, RasterCensusRequest, Rate,
    UVec2,
};
use brush::raster_replay::{replay_tile, PairOutcome};
use brush::raster_walk::{analyze, cutoff_weight, meet, ProjectedSplat, RasterScalar};
use brush::scalar::Scalar;

#[derive(Clone, Copy, Debug, PartialEq)]
struct F(f32);

impl Scalar for F {
    fn literal(text: &'static str) -> Self {
        F(text.parse().expect("a formula's literal is a number"))
    }
    fn exp(self) -> Self {
        F(self.0.exp())
    }
    fn zero() -> Self {
        F(0.0)
    }
    fn one() -> Self {
        F(1.0)
    }
    fn two() -> Self {
        F(2.0)
    }
    fn three() -> Self {
        F(3.0)
    }
    fn from_count(count: u32) -> Self {
        F(count as f32)
    }
    fn plus(self, other: Self) -> Self {
        F(self.0 + other.0)
    }
    fn minus(self, other: Self) -> Self {
        F(self.0 - other.0)
    }
    fn times(self, other: Self) -> Self {
        F(self.0 * other.0)
    }
    fn over(self, other: Self) -> Self {
        F(self.0 / other.0)
    }
    fn negated(self) -> Self {
        F(-self.0)
    }
    fn magnitude(self) -> Self {
        F(self.0.abs())
    }
    fn larger(self, other: Self) -> Self {
        F(self.0.max(other.0))
    }
    fn within_unit(self) -> Self {
        F(self.0.clamp(-1.0, 1.0))
    }
    fn less(self, other: Self) -> bool {
        self.0 < other.0
    }
    fn same(self, other: Self) -> bool {
        self.0 == other.0
    }
}

impl RasterScalar for F {
    fn cutoff_mid() -> Self {
        F(1.0 / 255.0)
    }
    fn cutoff_band() -> Self {
        F(1.0 / 255.0)
    }
    fn smaller(self, other: Self) -> Self {
        F(self.0.min(other.0))
    }
    fn to_unit(self) -> Self {
        F(self.0.clamp(0.0, 1.0))
    }
}

const LOW_ALPHA: f32 = 1.0e-4;

fn splat(alpha: f32) -> [f32; 9] {
    [0.5, 0.5, 1.0, 0.0, 1.0, alpha, 1.0, 1.0, 1.0]
}

fn wrap(rows: &[[f32; 9]]) -> Vec<F> {
    rows.iter().flatten().map(|&v| F(v)).collect()
}

#[test]
fn request_batch_is_ordered_and_reusable() {
    let mut pending: Option<PendingCensus> = None;
    request(&mut pending, 2, 17).expect("first request");
    assert!(request(&mut pending, 1, 1).is_err(), "overlapping request must fail");

    let first = take_request(&mut pending).expect("first report");
    let second = take_request(&mut pending).expect("second report");
    assert_eq!(first.sequence, 0);
    assert_eq!(second.sequence, 1);
    assert_eq!(first.sample_tiles, 17);
    assert_eq!(second.sample_tiles, 17);
    assert!(take_request(&mut pending).is_none());

    request(&mut pending, 1, 3).expect("request state resets after the batch");
    let next = take_request(&mut pending).expect("next report");
    assert_eq!(next.sequence, 0);
    assert_eq!(next.sample_tiles, 3);
    assert!(take_request(&mut pending).is_none());
}

#[test]
fn empty_requests_are_refused() {
    let mut pending: Option<PendingCensus> = None;
    let no_renders = request(&mut pending, 0, 1).unwrap_err();
    let no_tiles = request(&mut pending, 1, 0).unwrap_err();
    assert_ne!(no_renders, no_tiles);
    assert!(pending.is_none());
}

#[test]
fn reports_occupancy_fan_in_and_zero_contribution_entries() {
    let projected = wrap(&[splat(0.5), splat(LOW_ALPHA)]);
    let compact = [0, 1, 0];
    let pre = [0, 2, 2, 3];
    let post = [0, 1, 2, 3];
    let report = analyze(
        &RasterCensusInput {
            request: RasterCensusRequest { sequence: 3, sample_tiles: 2 },
            img_size: UVec2 { x: 32, y: 16 },
            tile_bounds: UVec2 { x: 2, y: 1 },
            tile_width: 16,
            tile_height: 16,
            num_visible: 2,
            num_intersections: 3,
            pre_offsets: &pre,
            post_offsets: &post,
            compact_gid_from_isect: &compact,
            projected_len: projected.len(),
        },
        &projected,
        false,
    )
    .expect("valid census");

    assert_eq!(report.sequence, 3);
    assert_eq!(report.valid_pre_intersections, 3);
    assert_eq!(report.post_intersections, 2);
    assert_eq!(report.occlusion_pruned_intersections, 1);
    assert_eq!(report.pre_tile_occupancy.p50, 1);
    assert_eq!(report.pre_tile_occupancy.max, 2);
    assert_eq!(report.atomic_fan_in.distribution.max, 2);
    assert_eq!(report.atomic_fan_in.distribution.zeros, 1);
    assert_eq!(report.logical_atomic_writes_without_refine, 18);
    assert_eq!(report.logical_atomic_writes_with_refine, 20);
    // The low-alpha splat contributes nowhere in tile 0, and the splat
    // centered in tile 0 has no support in tile 1.
    assert_eq!(report.sampled.zero_contribution_intersections, 2);
}

#[test]
fn sampled_replay_classifies_cutoff_composite_and_termination() {
    let projected = wrap(&[splat(LOW_ALPHA), splat(0.999), splat(0.999)]);
    let compact = [0, 1, 2];
    let offsets = [0, 3];
    let post = [0, 2];
    let report = analyze(
        &RasterCensusInput {
            request: RasterCensusRequest { sequence: 0, sample_tiles: 1 },
            img_size: UVec2 { x: 1, y: 1 },
            tile_bounds: UVec2 { x: 1, y: 1 },
            tile_width: 16,
            tile_height: 16,
            num_visible: 3,
            num_intersections: 3,
            pre_offsets: &offsets,
            post_offsets: &post,
            compact_gid_from_isect: &compact,
            projected_len: projected.len(),
        },
        &projected,
        false,
    )
    .expect("valid census");

    assert_eq!(report.sampled.potential_pairs, 3);
    assert_eq!(report.sampled.evaluated_pairs, 3);
    assert_eq!(report.sampled.cutoff_rejected_pairs, 1);
    assert_eq!(report.sampled.composited_pairs, 1);
    assert_eq!(report.sampled.early_terminated_pairs, 1);
    assert_eq!(report.sampled.early_skipped_pairs, 0);
    assert_eq!(report.sampled.zero_contribution_intersections, 2);
    assert_eq!(report.sampled.cpu_post_intersections, 2);
    assert_eq!(report.sampled.range_end_mismatches, 0);
}

#[test]
fn sampled_replay_uses_rectangular_tile_height() {
    let projected = wrap(&[[0.5, 12.5, 1.0, 0.0, 1.0, 0.5, 1.0, 1.0, 1.0]]);
    let compact = [0];
    let offsets = [0, 0, 0, 1];
    let report = analyze(
        &RasterCensusInput {
            request: RasterCensusRequest { sequence: 0, sample_tiles: 2 },
            img_size: UVec2 { x: 16, y: 16 },
            tile_bounds: UVec2 { x: 1, y: 2 },
            tile_width: 16,
            tile_height: 8,
            num_visible: 1,
            num_intersections: 1,
            pre_offsets: &offsets,
            post_offsets: &offsets,
            compact_gid_from_isect: &compact,
            projected_len: projected.len(),
        },
        &projected,
        false,
    )
    .expect("valid rectangular census");

    assert_eq!(report.tile_width, 16);
    assert_eq!(report.tile_height, 8);
    assert_eq!(report.sampled.sampled_tiles, 2);
    assert_eq!(report.sampled.potential_pairs, 128);
}

fn one_tile<'a>(offsets: &'a [u32], gids: &'a [u32], projected_len: usize) -> RasterCensusInput<'a> {
    RasterCensusInput {
        request: RasterCensusRequest { sequence: 0, sample_tiles: 1 },
        img_size: UVec2 { x: 1, y: 1 },
        tile_bounds: UVec2 { x: 1, y: 1 },
        tile_width: 16,
        tile_height: 16,
        num_visible: 1,
        num_intersections: 1,
        pre_offsets: offsets,
        post_offsets: offsets,
        compact_gid_from_isect: gids,
        projected_len,
    }
}

#[test]
fn malformed_frames_are_refused() {
    let outcomes = vec![vec![PairOutcome::Composited]];
    assert!(analyze_outcomes(&one_tile(&[0, 1], &[0], 9), &outcomes).is_ok());
    assert!(analyze_outcomes(&one_tile(&[0], &[0], 9), &outcomes).is_err());
    assert!(analyze_outcomes(&one_tile(&[1, 0], &[0], 9), &outcomes).is_err());
    assert!(analyze_outcomes(&one_tile(&[0, 2], &[0], 9), &outcomes).is_err());
    assert!(analyze_outcomes(&one_tile(&[0, 1], &[], 9), &outcomes).is_err());
    assert!(analyze_outcomes(&one_tile(&[0, 1], &[0], 8), &outcomes).is_err());
    assert!(analyze_outcomes(&one_tile(&[0, 1], &[7], 9), &outcomes).is_err());
}

#[test]
fn refused_frames_need_no_grid() {
    let frame = |offsets: &'static [u32]| RasterCensusInput {
        img_size: UVec2 { x: 8, y: 16 },
        tile_bounds: UVec2 { x: 2, y: 1 },
        ..one_tile(offsets, &[0], 9)
    };
    assert!(frame_fits(&frame(&[])));
    let e = analyze(&frame(&[]), &wrap(&[splat(0.5)]), false).unwrap_err();
    assert_eq!(e, "pre-raster tile offsets contain 0 values, expected at least 4");
    // Both tiles claim the one intersection.
    let e = analyze(&frame(&[0, 1, 0, 1]), &wrap(&[splat(0.5)]), false).unwrap_err();
    assert_eq!(e, "valid tile ranges contain 2 intersections, exceeding the reserved 1");
    // The one tile that is sampled decides.
    let fits = |tile: usize| {
        let mut input = frame(&[0, 1, 1, 1]);
        input.request.sample_tiles = tile;
        frame_fits(&input)
    };
    assert!(fits(0));
    assert_eq!(fits(1), select_tiles(2, 1) == [0]);
    assert!(!fits(2));
}

#[test]
fn tiles_may_hold_more_pixels_than_a_word_counts() {
    let mut input = one_tile(&[0, 1], &[0], 9);
    input.request.sample_tiles = 1;
    (input.tile_width, input.tile_height) = (70_000, 70_000);
    input.img_size = UVec2 { x: 70_000, y: 70_000 };
    assert!(frame_fits(&input));
}

#[test]
fn offsets_are_checked() {
    assert_eq!(validate_offsets("pre", &[0, 2, 2, 3], 2, 3), Ok(()));
    assert!(validate_offsets("pre", &[0, 2, 2], 2, 3).is_err());
    assert!(validate_offsets("pre", &[2, 0, 2, 3], 2, 3).is_err());
    assert!(validate_offsets("pre", &[0, 2, 2, 4], 2, 3).is_err());
}

#[test]
fn summaries_pick_ranks() {
    let values: Vec<u32> = (0..101).rev().collect();
    let s = summarize(&values);
    assert_eq!((s.count, s.zeros), (101, 1));
    assert_eq!(s.mean, Rate { numerator: 5050, denominator: 101 });
    assert_eq!((s.p50, s.p90, s.p99, s.max), (50, 90, 99, 100));
    let empty = summarize(&vec![]);
    assert_eq!((empty.count, empty.p50, empty.max), (0, 0, 0));
    assert_eq!(sort_values(&vec![3, 1, 2, 1]), [1, 1, 2, 3]);
    assert_eq!(percentile(&vec![], 50), 0);
    assert_eq!(rate(3, 4), Rate { numerator: 3, denominator: 4 });
}

#[test]
fn tiles_are_chosen_without_repetition() {
    assert_eq!(mix_id(0), 0xe220_a839_7b1d_cdaf);
    let all = select_tiles(5, 9);
    assert_eq!(all, [0, 1, 2, 3, 4]);
    let some = select_tiles(1000, 10);
    assert_eq!(some.len(), 10);
    assert!(some.windows(2).all(|w| w[0] < w[1]));
    assert!(some.iter().all(|&t| t < 1000));
    let more = select_tiles(1000, 25);
    assert!(some.iter().all(|t| more.contains(t)));
    assert!(select_tiles(5, 0).is_empty() && select_tiles(0, 5).is_empty());
    // The chosen tiles are those of the least mixed ids.
    let worst = some.iter().map(|&t| mix_id(t as u64)).max().unwrap();
    assert!((0..1000).filter(|t| !some.contains(&(*t as usize))).all(|t| mix_id(t) > worst));
}

#[test]
fn replay_counts_each_outcome_once() {
    let outcomes = vec![
        PairOutcome::SigmaRejected,
        PairOutcome::Composited,
        PairOutcome::EarlyTerminated,
        PairOutcome::CutoffRejected,
        PairOutcome::CutoffRejected,
        PairOutcome::CutoffRejected,
    ];
    let tile = replay_tile(&outcomes, 3, 2, &[0, 1, 2], 0, 3).unwrap();
    assert_eq!(tile.evaluated, 6);
    assert_eq!(tile.sigma_rejected, 1);
    assert_eq!(tile.composited, 1);
    assert_eq!(tile.early_terminated, 1);
    assert_eq!(tile.cutoff_rejected, 3);
    assert_eq!(tile.zero_contribution, 2);
    assert_eq!(tile.post_entries, 2);
    assert!(replay_tile(&outcomes, 3, 2, &[0, 9, 2], 0, 3).is_err());
}

#[test]
fn cutoff_is_hard_or_smooth() {
    let mid = F::cutoff_mid().0;
    assert_eq!(cutoff_weight(F(mid * 0.9), false), F(0.0));
    assert_eq!(cutoff_weight(F(mid * 1.1), false), F(1.0));
    let half = cutoff_weight(F(mid), true).0;
    assert!((half - 0.5).abs() < 1e-5, "{half}");
    assert_eq!(cutoff_weight(F(mid * 4.0), true), F(1.0));
    assert_eq!(cutoff_weight(F(0.0), true), F(0.0));
}

#[test]
fn saturated_pixels_stop() {
    let s = ProjectedSplat {
        x: F(0.5),
        y: F(0.5),
        conic_x: F(1.0),
        conic_xy: F(0.0),
        conic_y: F(1.0),
        opacity: F(1.0),
    };
    let (first, t) = meet(F(1.0), s, F(0.5), F(0.5), false);
    assert_eq!(first, PairOutcome::Composited);
    let (second, after) = meet(t, s, F(0.5), F(0.5), false);
    assert_eq!(second, PairOutcome::EarlyTerminated);
    assert_eq!(after, t);
    let (far, unchanged) = meet(F(1.0), s, F(90.5), F(0.5), false);
    assert_eq!(far, PairOutcome::CutoffRejected);
    assert_eq!(unchanged, F(1.0));
    let bad = ProjectedSplat { conic_x: F(f32::NAN), ..s };
    assert_eq!(meet(F(1.0), bad, F(0.0), F(0.5), false).0, PairOutcome::SigmaRejected);
}
