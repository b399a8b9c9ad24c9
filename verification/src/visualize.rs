//! What the visual log shows: names of its series, the arrangement of the
//! evaluated views, images that are logged only once, and statistics of the
//! distributions of splats. Values come as bit patterns.
use std::collections::HashSet;

use vstd::prelude::*;
use vstd::string::*;

use crate::counting;
use crate::float_bits;
use crate::num::{count, deterministic, lit, Geometric};
use crate::text;
use crate::text::push_decimal;

verus! {

/// The name that a series is shown under.
pub struct SeriesName {
    pub path: String,
    pub name: String,
}

impl View for SeriesName {
    type V = (Seq<char>, Seq<char>);

    open spec fn view(&self) -> (Seq<char>, Seq<char>) {
        (self.path@, self.name@)
    }
}

pub open spec fn series_views(s: Seq<SeriesName>) -> Seq<(Seq<char>, Seq<char>)> {
    Seq::new(s.len(), |i: int| s[i]@)
}

/// Series that come before those of the views.
pub open spec fn quality_series() -> Seq<(Seq<char>, Seq<char>)> {
    seq![
        ("loss/total"@, "Loss"@),
        ("train/step_ms"@, "Step time"@),
        ("psnr/eval"@, "Avg"@),
        ("ssim/eval"@, "Avg"@),
    ]
}

/// Series that come after those of the views.
pub open spec fn resource_series() -> Seq<(Seq<char>, Seq<char>)> {
    seq![
        ("splats/num_splats"@, "Total"@),
        ("splats/splats_visible"@, "Visible"@),
        ("lr/mean"@, "Means"@),
        ("lr/rotation"@, "Rotations"@),
        ("lr/scale"@, "Scales"@),
        ("lr/coeffs"@, "SH coeffs"@),
        ("lr/opac"@, "Opacity"@),
        ("memory/used"@, "Used"@),
        ("memory/reserved"@, "Reserved"@),
        ("memory/allocs"@, "Allocations"@),
        ("refine/num_added"@, "Added (total)"@),
        ("refine/num_split_oversized"@, "Split: oversized"@),
        ("refine/num_split_high_grad"@, "Split: high-grad"@),
        ("refine/num_pruned"@, "Pruned"@),
        ("refine/num_pruned_non_finite"@, "Pruned: non-finite"@),
        ("refine/effective_growth"@, "Effective growth"@),
        ("refine/duration_ms"@, "Refine duration"@),
    ]
}

/// A text with a number behind it.
pub open spec fn numbered(prefix: Seq<char>, n: int) -> Seq<char> {
    prefix + text::decimal_text(n)
}

/// The two series of each of the first `n` views.
pub open spec fn view_series(n: int) -> Seq<(Seq<char>, Seq<char>)>
    decreases n,
{
    if n <= 0 {
        Seq::empty()
    } else {
        view_series(n - 1).push(
            (numbered("psnr/per_view/"@, n - 1), numbered("View "@, n - 1)),
        ).push((numbered("ssim/per_view/"@, n - 1), numbered("View "@, n - 1)))
    }
}

fn with_number(prefix: &str, n: u64) -> (r: String)
    ensures
        r@ == numbered(prefix@, n as int),
{
    let mut r: String = String::from_str(prefix);
    push_decimal(&mut r, n);
    r
}

fn push_series(list: &mut Vec<SeriesName>, path: &str, name: &str)
    ensures
        series_views(final(list)@) == series_views(old(list)@).push((path@, name@)),
{
    let ghost before = list@;
    list.push(SeriesName { path: path.to_owned(), name: name.to_owned() });
    assert(series_views(list@) =~= series_views(before).push((path@, name@)));
}

/// The names of all series, for a number of evaluated views.
pub fn series_names(num_eval_views: u32) -> (list: Vec<SeriesName>)
    ensures
        series_views(list@) == quality_series() + view_series(num_eval_views as int)
            + resource_series(),
{
    let mut list: Vec<SeriesName> = Vec::new();
    assert(series_views(list@) =~= Seq::empty());
    push_series(&mut list, "loss/total", "Loss");
    push_series(&mut list, "train/step_ms", "Step time");
    push_series(&mut list, "psnr/eval", "Avg");
    push_series(&mut list, "ssim/eval", "Avg");
    assert(series_views(list@) =~= quality_series() + view_series(0));
    let mut i: u32 = 0;
    while i < num_eval_views
        invariant
            i <= num_eval_views,
            series_views(list@) == quality_series() + view_series(i as int),
        decreases num_eval_views - i,
    {
        let name: String = with_number("View ", i as u64);
        push_series(&mut list, with_number("psnr/per_view/", i as u64).as_str(), name.as_str());
        push_series(&mut list, with_number("ssim/per_view/", i as u64).as_str(), name.as_str());
        assert(series_views(list@) =~= quality_series() + view_series(i + 1));
        i = i + 1;
    }
    let ghost front = series_views(list@);
    push_series(&mut list, "splats/num_splats", "Total");
    push_series(&mut list, "splats/splats_visible", "Visible");
    push_series(&mut list, "lr/mean", "Means");
    push_series(&mut list, "lr/rotation", "Rotations");
    push_series(&mut list, "lr/scale", "Scales");
    push_series(&mut list, "lr/coeffs", "SH coeffs");
    push_series(&mut list, "lr/opac", "Opacity");
    push_series(&mut list, "memory/used", "Used");
    push_series(&mut list, "memory/reserved", "Reserved");
    push_series(&mut list, "memory/allocs", "Allocations");
    push_series(&mut list, "refine/num_added", "Added (total)");
    push_series(&mut list, "refine/num_split_oversized", "Split: oversized");
    push_series(&mut list, "refine/num_split_high_grad", "Split: high-grad");
    push_series(&mut list, "refine/num_pruned", "Pruned");
    push_series(&mut list, "refine/num_pruned_non_finite", "Pruned: non-finite");
    push_series(&mut list, "refine/effective_growth", "Effective growth");
    push_series(&mut list, "refine/duration_ms", "Refine duration");
    assert(series_views(list@) =~= front + resource_series());
    list
}

/// Where what is evaluated of a view is logged.
pub struct EvalPaths {
    pub render: String,
    pub ground_truth: String,
    pub psnr: String,
    pub ssim: String,
}

/// The places of a view in the log.
pub fn eval_paths(index: u32) -> (p: EvalPaths)
    ensures
        p.render@ == numbered("eval/view_"@, index as int) + "/render"@,
        p.ground_truth@ == numbered("eval/view_"@, index as int) + "/ground_truth"@,
        p.psnr@ == numbered("psnr/per_view/"@, index as int),
        p.ssim@ == numbered("ssim/per_view/"@, index as int),
{
    let mut render: String = with_number("eval/view_", index as u64);
    render.append("/render");
    let mut ground_truth: String = with_number("eval/view_", index as u64);
    ground_truth.append("/ground_truth");
    EvalPaths {
        render,
        ground_truth,
        psnr: with_number("psnr/per_view/", index as u64),
        ssim: with_number("ssim/per_view/", index as u64),
    }
}

/// A view of images or of the scene: its name, where it starts in the log, and
/// what of it is shown.
pub struct SpatialView {
    pub name: String,
    pub origin: String,
    pub contents: String,
}

/// A view shows what lies below its origin.
pub open spec fn is_spatial_view(
    v: SpatialView,
    name: Seq<char>,
    origin: Seq<char>,
    contents: Seq<char>,
) -> bool {
    v.name@ == name && v.origin@ == origin && v.contents@ == contents
}

/// The cell of an evaluated view: its two images beside each other, under a
/// label.
pub struct EvalCell {
    pub label: String,
    pub ground_truth: SpatialView,
    pub render: SpatialView,
}

/// The cell of the evaluated view `index`.
pub open spec fn is_cell(cell: EvalCell, index: int) -> bool {
    &&& cell.label@ == numbered("view "@, index)
    &&& is_spatial_view(
        cell.ground_truth,
        "Ground truth"@,
        numbered("eval/view_"@, index) + "/ground_truth"@,
        "$origin/**"@,
    )
    &&& is_spatial_view(
        cell.render,
        "Render"@,
        numbered("eval/view_"@, index) + "/render"@,
        "$origin/**"@,
    )
}

/// The cell of an evaluated view: the ground truth left, the render right.
pub fn eval_cell(index: u32) -> (cell: EvalCell)
    ensures
        is_cell(cell, index as int),
{
    let paths: EvalPaths = eval_paths(index);
    EvalCell {
        label: with_number("view ", index as u64),
        ground_truth: SpatialView {
            name: "Ground truth".to_owned(),
            origin: paths.ground_truth,
            contents: "$origin/**".to_owned(),
        },
        render: SpatialView {
            name: "Render".to_owned(),
            origin: paths.render,
            contents: "$origin/**".to_owned(),
        },
    }
}

/// Views that one grid shows.
pub const GROUP_SIZE: u32 = 4;

/// Views from `start` up to but not including `end`, shown together under a
/// label: as a grid, or as the view itself where there is only one.
pub struct EvalGroup {
    pub start: u32,
    pub end: u32,
    pub label: String,
    /// The columns of the grid; none where the one view stands for itself.
    pub columns: Option<u32>,
    /// The cells of the views, in order.
    pub cells: Vec<EvalCell>,
}

/// How the evaluated views are arranged.
pub enum EvalPanel {
    /// There are none.
    Absent,
    /// They fit one grid.
    Group(EvalGroup),
    /// They are spread over grids that can be switched between, under a name.
    Tabs(String, Vec<EvalGroup>),
}

pub open spec fn group_label(start: int, end: int) -> Seq<char> {
    if end - start == 1 {
        numbered("view "@, start)
    } else {
        numbered("views "@, start) + "-"@ + text::decimal_text(end - 1)
    }
}

/// A group shows the views from `start` to `end`.
pub open spec fn is_group(g: EvalGroup, start: int, end: int) -> bool {
    &&& g.start == start
    &&& g.end == end
    &&& g.label@ == group_label(start, end)
    &&& g.columns == (if end - start == 1 {
        None::<u32>
    } else {
        Some(2u32)
    })
    &&& g.cells.len() == end - start
    &&& forall|i: int| 0 <= i < g.cells.len() ==> is_cell(#[trigger] g.cells[i], start + i)
}

/// Where a group of four starts.
pub open spec fn group_start(g: int) -> int {
    4 * g
}

/// Where a group of four ends.
pub open spec fn group_end(g: int, n: int) -> int {
    if 4 * g + 4 <= n {
        4 * g + 4
    } else {
        n
    }
}

pub open spec fn are_groups(groups: Seq<EvalGroup>, n: int) -> bool {
    &&& groups.len() == (n + 3) / 4
    &&& forall|g: int|
        0 <= g < groups.len() ==> is_group(#[trigger] groups[g], group_start(g), group_end(g, n))
}

fn eval_group(start: u32, end: u32) -> (g: EvalGroup)
    requires
        start < end,
    ensures
        is_group(g, start as int, end as int),
{
    let label: String = if end - start == 1 {
        with_number("view ", start as u64)
    } else {
        let mut label: String = with_number("views ", start as u64);
        label.append("-");
        push_decimal(&mut label, (end - 1) as u64);
        assert(label@ =~= group_label(start as int, end as int));
        label
    };
    let columns: Option<u32> = if end - start == 1 {
        None
    } else {
        Some(2)
    };
    let mut cells: Vec<EvalCell> = Vec::new();
    let mut view: u32 = start;
    while view < end
        invariant
            start <= view <= end,
            cells.len() == view - start,
            forall|i: int| 0 <= i < cells.len() ==> is_cell(#[trigger] cells[i], start + i),
        decreases end - view,
    {
        cells.push(eval_cell(view));
        view = view + 1;
    }
    EvalGroup { start, end, label, columns, cells }
}

/// The arrangement of `n` evaluated views.
pub open spec fn is_panel(panel: EvalPanel, n: int) -> bool {
    match panel {
        EvalPanel::Absent => n == 0,
        EvalPanel::Group(g) => 0 < n <= 4 && is_group(g, 0, n),
        EvalPanel::Tabs(name, groups) => n > 4 && name@ == "Eval views"@ && are_groups(groups@, n),
    }
}

/// Arranges the evaluated views.
pub fn eval_panel(num_eval_views: u32) -> (panel: EvalPanel)
    ensures
        is_panel(panel, num_eval_views as int),
{
    if num_eval_views == 0 {
        return EvalPanel::Absent;
    }
    if num_eval_views <= GROUP_SIZE {
        return EvalPanel::Group(eval_group(0, num_eval_views));
    }
    let mut groups: Vec<EvalGroup> = Vec::new();
    let mut start: u32 = 0;
    while start < num_eval_views
        invariant
            num_eval_views > 4,
            start == 4 * groups.len() || (start == num_eval_views && groups.len() == (
            num_eval_views + 3) / 4),
            groups.len() <= (num_eval_views + 3) / 4,
            start <= num_eval_views,
            forall|g: int|
                0 <= g < groups.len() ==> is_group(
                    #[trigger] groups[g],
                    group_start(g),
                    group_end(g, num_eval_views as int),
                ),
        decreases num_eval_views - start,
    {
        let end: u32 = if num_eval_views - start >= GROUP_SIZE {
            start + GROUP_SIZE
        } else {
            num_eval_views
        };
        groups.push(eval_group(start, end));
        start = end;
    }
    EvalPanel::Tabs("Eval views".to_owned(), groups)
}

/// Every view stands in exactly one group: the one of its number divided by
/// four.
pub proof fn every_view_is_shown_once(n: int, view: int, g: int)
    requires
        0 <= view < n,
        0 <= g < (n + 3) / 4,
    ensures
        0 <= view / 4 < (n + 3) / 4,
        group_start(view / 4) <= view < group_end(view / 4, n),
        group_start(g) <= view < group_end(g, n) ==> g == view / 4,
{
}

/// The view of the scene.
pub fn scene_view() -> (v: SpatialView)
    ensures
        is_spatial_view(v, "Scene"@, "world"@, "world/**"@),
{
    SpatialView {
        name: "Scene".to_owned(),
        origin: "world".to_owned(),
        contents: "world/**".to_owned(),
    }
}

/// The views whose ground truth was logged. It never changes, so once is
/// enough.
pub struct GroundTruthLog {
    logged: HashSet<u32>,
}

impl GroundTruthLog {
    pub closed spec fn views(&self) -> Set<u32> {
        self.logged@
    }

    /// Nothing was logged.
    pub fn new() -> (log: GroundTruthLog)
        ensures
            log.views() == Set::<u32>::empty(),
    {
        GroundTruthLog { logged: HashSet::new() }
    }

    /// Marks a view as logged. Returns whether this is the first time.
    pub fn insert(&mut self, index: u32) -> (first: bool)
        ensures
            first == !old(self).views().contains(index),
            final(self).views() == old(self).views().insert(index),
    {
        broadcast use vstd::std_specs::hash::group_hash_axioms;

        self.logged.insert(index)
    }
}

/// Whether an image is shrunk before it is logged. A maximum of zero stands for
/// none.
pub fn needs_resize(width: u32, height: u32, max_size: u32) -> (r: bool)
    ensures
        r == (max_size != 0 && (width > max_size || height > max_size)),
{
    let longest: u32 = if width > height {
        width
    } else {
        height
    };
    !(max_size == 0 || longest <= max_size)
}

/// The finite values, in order.
pub open spec fn finite_values(values: Seq<u32>) -> Seq<u32>
    decreases values.len(),
{
    if values.len() == 0 {
        Seq::empty()
    } else if float_bits::is_finite(values.last()) {
        finite_values(values.drop_last()).push(values.last())
    } else {
        finite_values(values.drop_last())
    }
}

/// Numbers that order values as they compare.
pub open spec fn order_classes(values: Seq<u32>) -> Seq<int> {
    Seq::new(values.len(), |i: int| float_bits::order_key(values[i]) + 0x8000_0000)
}

/// The finite values in ascending order, equal ones as they came.
pub open spec fn ascending_finite(values: Seq<u32>) -> Seq<u32> {
    let f = finite_values(values);
    counting::reorder(f, counting::rank_order(order_classes(f)))
}

/// Sorts the finite values.
pub fn sort_finite(values: &Vec<u32>) -> (sorted: Vec<u32>)
    ensures
        sorted@ == ascending_finite(values@),
{
    let mut finite: Vec<u32> = Vec::new();
    let mut keys: Vec<u64> = Vec::new();
    let mut i: usize = 0;
    assert(values@.take(0) =~= Seq::empty());
    while i < values.len()
        invariant
            i <= values.len(),
            finite@ == finite_values(values@.take(i as int)),
            keys.len() == finite.len(),
            forall|k: int|
                0 <= k < keys.len() ==> #[trigger] keys[k] == order_classes(finite@)[k],
        decreases values.len() - i,
    {
        let value: u32 = values[i];
        proof {
            assert(values@.take(i + 1).drop_last() =~= values@.take(i as int));
            assert(values@.take(i + 1).last() == value);
        }
        if !float_bits::nan(value) && !float_bits::infinite(value) {
            finite.push(value);
            keys.push((float_bits::key(value) + 0x8000_0000) as u64);
        }
        i = i + 1;
    }
    assert(values@.take(values.len() as int) =~= values@);
    let order: Vec<usize> = counting::stable_order(&keys);
    let ghost src = counting::rank_order(order_classes(finite@));
    proof {
        assert(counting::as_classes(keys@) =~= order_classes(finite@));
    }
    let mut sorted: Vec<u32> = Vec::new();
    let mut j: usize = 0;
    while j < order.len()
        invariant
            j <= order.len(),
            order.len() == finite.len(),
            sorted.len() == j,
            counting::as_positions(order@) == src,
            forall|k: int| 0 <= k < order.len() ==> #[trigger] order[k] < finite.len(),
            forall|k: int|
                0 <= k < j ==> #[trigger] sorted[k] == counting::reorder(finite@, src)[k],
        decreases order.len() - j,
    {
        assert(counting::as_positions(order@)[j as int] == src[j as int]);
        sorted.push(finite[order[j]]);
        j = j + 1;
    }
    assert(sorted@ =~= ascending_finite(values@));
    sorted
}

/// The value at a position of a sorted list, the last one where the position
/// lies past it, and zero where there is none.
pub fn at_or_last(sorted: &Vec<u32>, index: usize) -> (bits: u32)
    ensures
        bits == (if sorted.len() == 0 {
            0
        } else if index < sorted.len() {
            sorted[index as int]
        } else {
            sorted[sorted.len() - 1]
        }),
{
    if sorted.len() == 0 {
        0
    } else if index < sorted.len() {
        sorted[index]
    } else {
        sorted[sorted.len() - 1]
    }
}

/// The value at a position of a sorted list, as [`at_or_last`] picks it.
pub open spec fn picked(sorted: Seq<u32>, index: int) -> u32 {
    if sorted.len() == 0 {
        0
    } else if index < sorted.len() {
        sorted[index]
    } else {
        sorted[sorted.len() - 1]
    }
}

/// The position of a fraction of a sorted list of `n` values.
pub open spec fn fraction_rank<S: Geometric>(fraction: &'static str, n: u32) -> u64 {
    (lit::<S>(fraction) * (count(n) - lit("1.0"))).nearest()
}

fn at_fraction<S: Geometric>(sorted: &Vec<u32>, fraction: &'static str) -> (bits: u32)
    requires
        sorted.len() <= u32::MAX,
    ensures
        deterministic::<S>() ==> bits == picked(
            sorted@,
            fraction_rank::<S>(fraction, sorted.len() as u32) as int,
        ),
{
    let n: u32 = sorted.len() as u32;
    let rank: u64 = (lit::<S>(fraction) * (count(n) - lit("1.0"))).nearest();
    let index: usize = if rank < n as u64 {
        rank as usize
    } else {
        sorted.len()
    };
    at_or_last(sorted, index)
}

/// Values at fractions of a sorted list.
#[derive(Clone, Copy, Debug, PartialEq, Eq, Structural)]
pub struct Percentiles {
    pub p01: u32,
    pub p25: u32,
    pub p50: u32,
    pub p75: u32,
    pub p95: u32,
    pub p99: u32,
    pub max: u32,
}

/// Values at fractions of the finite ones among `values`.
pub open spec fn percentiles_of<S: Geometric>(values: Seq<u32>) -> Percentiles {
    let sorted = ascending_finite(values);
    let n = sorted.len() as u32;
    Percentiles {
        p01: picked(sorted, fraction_rank::<S>("0.01", n) as int),
        p25: picked(sorted, fraction_rank::<S>("0.25", n) as int),
        p50: picked(sorted, fraction_rank::<S>("0.50", n) as int),
        p75: picked(sorted, fraction_rank::<S>("0.75", n) as int),
        p95: picked(sorted, fraction_rank::<S>("0.95", n) as int),
        p99: picked(sorted, fraction_rank::<S>("0.99", n) as int),
        max: picked(sorted, fraction_rank::<S>("1.00", n) as int),
    }
}

/// Sorts the finite values and picks those at fractions of the list; zeros where
/// there are none. Positions are computed in `S`.
pub fn percentiles<S: Geometric>(values: &Vec<u32>) -> (p: Percentiles)
    requires
        values.len() <= u32::MAX,
    ensures
        deterministic::<S>() ==> p == percentiles_of::<S>(values@),
{
    let sorted: Vec<u32> = sort_finite(values);
    proof {
        lemma_finite_count(values@);
    }
    Percentiles {
        p01: at_fraction::<S>(&sorted, "0.01"),
        p25: at_fraction::<S>(&sorted, "0.25"),
        p50: at_fraction::<S>(&sorted, "0.50"),
        p75: at_fraction::<S>(&sorted, "0.75"),
        p95: at_fraction::<S>(&sorted, "0.95"),
        p99: at_fraction::<S>(&sorted, "0.99"),
        max: at_fraction::<S>(&sorted, "1.00"),
    }
}

/// Sorted finite values ascend, and are all finite.
pub proof fn sorted_values_ascend(values: Seq<u32>, a: int, b: int)
    requires
        0 <= a < b < ascending_finite(values).len(),
    ensures
        !float_bits::is_less(ascending_finite(values)[b], ascending_finite(values)[a]),
        float_bits::is_finite(ascending_finite(values)[a]),
{
    let f = finite_values(values);
    let c = order_classes(f);
    counting::lemma_rank_order_is_stable(c);
    let src = counting::rank_order(c);
    assert(counting::precedes(c, src[a], src[b]));
    lemma_finite_values(values, src[a]);
}

proof fn lemma_finite_count(values: Seq<u32>)
    ensures
        ascending_finite(values).len() == finite_values(values).len(),
        finite_values(values).len() <= values.len(),
    decreases values.len(),
{
    if values.len() > 0 {
        lemma_finite_count(values.drop_last());
    }
}

proof fn lemma_finite_values(values: Seq<u32>, i: int)
    requires
        0 <= i < finite_values(values).len(),
    ensures
        float_bits::is_finite(finite_values(values)[i]),
    decreases values.len(),
{
    if values.len() > 0 {
        let front = finite_values(values.drop_last());
        if i < front.len() {
            lemma_finite_values(values.drop_last(), i);
        }
    }
}

/// Values of a list that lie above a threshold.
pub open spec fn above(values: Seq<u32>, threshold: u32) -> spec_fn(int) -> bool {
    |i: int| float_bits::is_less(threshold, values[i])
}

/// Values of a list that lie below a threshold.
pub open spec fn below(values: Seq<u32>, threshold: u32) -> spec_fn(int) -> bool {
    |i: int| float_bits::is_less(values[i], threshold)
}

/// Counts the values above a threshold.
pub fn count_above(values: &Vec<u32>, threshold: u32) -> (n: usize)
    ensures
        n == counting::count_where(above(values@, threshold), 0, values.len() as int),
{
    let mut n: usize = 0;
    let mut i: usize = 0;
    while i < values.len()
        invariant
            n <= i <= values.len(),
            n == counting::count_where(above(values@, threshold), 0, i as int),
        decreases values.len() - i,
    {
        if float_bits::less(threshold, values[i]) {
            n = n + 1;
        }
        i = i + 1;
    }
    n
}

/// Counts the values below a threshold.
pub fn count_under(values: &Vec<u32>, threshold: u32) -> (n: usize)
    ensures
        n == counting::count_where(below(values@, threshold), 0, values.len() as int),
{
    let mut n: usize = 0;
    let mut i: usize = 0;
    while i < values.len()
        invariant
            n <= i <= values.len(),
            n == counting::count_where(below(values@, threshold), 0, i as int),
        decreases values.len() - i,
    {
        if float_bits::less(values[i], threshold) {
            n = n + 1;
        }
        i = i + 1;
    }
    n
}

/// Bit pattern of the least scale that enters a ratio.
pub const MIN_SCALE_BITS: u32 = 0x0da2_4260;

/// A scale, or the least one where it is smaller or not a number.
pub open spec fn floored(bits: u32) -> u32 {
    if float_bits::is_nan(bits) || float_bits::is_less(bits, MIN_SCALE_BITS) {
        MIN_SCALE_BITS
    } else {
        bits
    }
}

fn floor_scale(bits: u32) -> (r: u32)
    ensures
        r == floored(bits),
{
    if float_bits::nan(bits) || float_bits::less(bits, MIN_SCALE_BITS) {
        MIN_SCALE_BITS
    } else {
        bits
    }
}

/// Three values after each was moved before those that it is less than. What is
/// not a number is less than nothing, and nothing is less than it.
pub open spec fn sorted_triple(x: u32, y: u32, z: u32) -> (u32, u32, u32) {
    let (lo, hi) = if float_bits::is_less(y, x) {
        (y, x)
    } else {
        (x, y)
    };
    if !float_bits::is_less(z, hi) {
        (lo, hi, z)
    } else if float_bits::is_less(z, lo) {
        (z, lo, hi)
    } else {
        (lo, z, hi)
    }
}

/// The three scales of a splat from the least to the greatest, each at least
/// the least that enters a ratio.
pub open spec fn scale_order(x: u32, y: u32, z: u32) -> (u32, u32, u32) {
    let s = sorted_triple(x, y, z);
    (floored(s.0), floored(s.1), floored(s.2))
}

/// The three scales of a splat from the least to the greatest, each at least
/// the least that enters a ratio.
pub fn ordered_scales(x: u32, y: u32, z: u32) -> (r: (u32, u32, u32))
    ensures
        r == scale_order(x, y, z),
{
    let (lo, hi): (u32, u32) = if float_bits::less(y, x) {
        (y, x)
    } else {
        (x, y)
    };
    let s: (u32, u32, u32) = if !float_bits::less(z, hi) {
        (lo, hi, z)
    } else if float_bits::less(z, lo) {
        (z, lo, hi)
    } else {
        (lo, z, hi)
    };
    (floor_scale(s.0), floor_scale(s.1), floor_scale(s.2))
}

/// Scales that are numbers come out in ascending order, and none is lost.
pub proof fn ordered_scales_ascend(x: u32, y: u32, z: u32)
    requires
        !float_bits::is_nan(x),
        !float_bits::is_nan(y),
        !float_bits::is_nan(z),
    ensures
        float_bits::order_key(scale_order(x, y, z).0) <= float_bits::order_key(
            scale_order(x, y, z).1,
        ),
        float_bits::order_key(scale_order(x, y, z).1) <= float_bits::order_key(
            scale_order(x, y, z).2,
        ),
        seq![
            scale_order(x, y, z).0,
            scale_order(x, y, z).1,
            scale_order(x, y, z).2,
        ].to_multiset() == seq![floored(x), floored(y), floored(z)].to_multiset(),
{
    let r = scale_order(x, y, z);
    let (a, b, c) = (floored(x), floored(y), floored(z));
    lemma_three_as_multiset(r.0, r.1, r.2);
    lemma_three_as_multiset(a, b, c);
    let p = vstd::multiset::Multiset::<u32>::empty().insert(r.0).insert(r.1).insert(r.2);
    let q = vstd::multiset::Multiset::<u32>::empty().insert(a).insert(b).insert(c);
    assert(p =~= q);
}

proof fn lemma_three_as_multiset(a: u32, b: u32, c: u32)
    ensures
        seq![a, b, c].to_multiset() == vstd::multiset::Multiset::<u32>::empty().insert(a).insert(
            b,
        ).insert(c),
{
    let e = Seq::<u32>::empty();
    e.to_multiset_ensures();
    e.push(a).to_multiset_ensures();
    e.push(a).push(b).to_multiset_ensures();
    assert(seq![a, b, c] =~= e.push(a).push(b).push(c));
    vstd::seq_lib::to_multiset_len(e);
    assert(e.to_multiset() =~= vstd::multiset::Multiset::<u32>::empty());
}

/// The least scale that enters a ratio is the nearest pattern to the thirtieth
/// power of a tenth.
pub proof fn least_scale_is_what_it_stands_for()
    ensures
        float_bits::is_nearest(MIN_SCALE_BITS, 1, 1_000_000_000_000_000_000_000_000_000_000),
{
    vstd::arithmetic::power2::lemma2_to64();
    vstd::arithmetic::power2::lemma2_to64_rest();
    vstd::arithmetic::power2::lemma_pow2_adds(61, 62);
    assert(vstd::arithmetic::power2::pow2(123) == 0x2000_0000_0000_0000 * 0x4000_0000_0000_0000);
}

/// What is left of values are the finite ones, each as often as before.
pub proof fn finite_values_are_kept(values: Seq<u32>, v: u32)
    ensures
        finite_values(values).to_multiset().count(v) == (if float_bits::is_finite(v) {
            values.to_multiset().count(v)
        } else {
            0
        }),
    decreases values.len(),
{
    broadcast use vstd::seq_lib::group_to_multiset_ensures;

    if values.len() == 0 {
        assert(values =~= Seq::<u32>::empty());
        Seq::<u32>::empty().to_multiset_ensures();
        assert(Seq::<u32>::empty().to_multiset().len() == 0);
    } else {
        let front = values.drop_last();
        finite_values_are_kept(front, v);
        assert(values =~= front.push(values.last()));
        front.to_multiset_ensures();
        finite_values(front).to_multiset_ensures();
    }
}

/// What is picked of a list is the value at its position, the last one past the
/// end, and zero where there is none.
pub proof fn picks_come_from_the_list(sorted: Seq<u32>, index: int)
    requires
        0 <= index,
    ensures
        sorted.len() > 0 ==> sorted.contains(picked(sorted, index)),
        index < sorted.len() ==> picked(sorted, index) == sorted[index],
        index >= sorted.len() > 0 ==> picked(sorted, index) == sorted.last(),
        sorted.len() == 0 ==> picked(sorted, index) == 0,
{
}

} // verus!
