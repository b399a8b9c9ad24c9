//! What is sent to the visual log: which number goes where, and how the views are
//! arranged.
use vstd::prelude::*;
use vstd::string::*;

use crate::distribution::SplatDistribution;
use crate::text;
use crate::text::push_decimal;
use crate::visualize;
use crate::visualize::{
    eval_panel, eval_paths, scene_view, EvalPanel, EvalPaths, Percentiles, SpatialView,
};

verus! {

/// A number of the log.
#[derive(Clone, Copy, Debug)]
pub enum LogValue<V> {
    /// The bit pattern of a single-precision number.
    Bits(u32),
    /// A part of a whole.
    Share(u32, u32),
    /// A whole number.
    Whole(i128),
    /// A number as it was measured.
    Measured(V),
}

/// A number and its place in the log.
pub struct LogEntry<V> {
    pub path: String,
    pub value: LogValue<V>,
}

impl<V> View for LogEntry<V> {
    type V = (Seq<char>, LogValue<V>);

    open spec fn view(&self) -> (Seq<char>, LogValue<V>) {
        (self.path@, self.value)
    }
}

pub open spec fn entry_views<V>(s: Seq<LogEntry<V>>) -> Seq<(Seq<char>, LogValue<V>)> {
    Seq::new(s.len(), |i: int| s[i]@)
}

fn push_entry<V>(list: &mut Vec<LogEntry<V>>, path: &str, value: LogValue<V>)
    ensures
        entry_views(final(list)@) == entry_views(old(list)@).push((path@, value)),
{
    let ghost before = list@;
    list.push(LogEntry { path: path.to_owned(), value });
    assert(entry_views(list@) =~= entry_views(before).push((path@, value)));
}

/// The mean quality over the evaluated views.
pub fn eval_entries<V>(avg_psnr: V, avg_ssim: V) -> (list: Vec<LogEntry<V>>)
    ensures
        entry_views(list@) == seq![
            ("psnr/eval"@, LogValue::Measured(avg_psnr)),
            ("ssim/eval"@, LogValue::Measured(avg_ssim)),
        ],
{
    let mut list: Vec<LogEntry<V>> = Vec::new();
    push_entry(&mut list, "psnr/eval", LogValue::Measured(avg_psnr));
    push_entry(&mut list, "ssim/eval", LogValue::Measured(avg_ssim));
    assert(entry_views(list@) =~= seq![
        ("psnr/eval"@, LogValue::Measured(avg_psnr)),
        ("ssim/eval"@, LogValue::Measured(avg_ssim)),
    ]);
    list
}

/// The quality of one evaluated view.
pub fn view_entries<V>(index: u32, psnr: V, ssim: V) -> (list: Vec<LogEntry<V>>)
    ensures
        entry_views(list@) == seq![
            (
                visualize::numbered("psnr/per_view/"@, index as int),
                LogValue::Measured(psnr),
            ),
            (
                visualize::numbered("ssim/per_view/"@, index as int),
                LogValue::Measured(ssim),
            ),
        ],
{
    let paths: EvalPaths = eval_paths(index);
    let mut list: Vec<LogEntry<V>> = Vec::new();
    push_entry(&mut list, paths.psnr.as_str(), LogValue::Measured(psnr));
    push_entry(&mut list, paths.ssim.as_str(), LogValue::Measured(ssim));
    assert(entry_views(list@) =~= seq![
        (
            visualize::numbered("psnr/per_view/"@, index as int),
            LogValue::Measured(psnr),
        ),
        (
            visualize::numbered("ssim/per_view/"@, index as int),
            LogValue::Measured(ssim),
        ),
    ]);
    list
}

/// Where the number of splats goes.
pub open spec fn splat_log<V>(num_splats: u32) -> Seq<(Seq<char>, LogValue<V>)> {
    seq![("splats/num_splats"@, LogValue::Whole(num_splats as i128))]
}

/// The number of splats.
pub fn splat_entries<V>(num_splats: u32) -> (list: Vec<LogEntry<V>>)
    ensures
        entry_views(list@) == splat_log::<V>(num_splats),
{
    let mut list: Vec<LogEntry<V>> = Vec::new();
    push_entry(&mut list, "splats/num_splats", LogValue::Whole(num_splats as i128));
    assert(entry_views(list@) =~= splat_log::<V>(num_splats));
    list
}

/// What a training step reports.
#[derive(Clone, Copy, Debug)]
pub struct TrainStats<V> {
    pub loss: V,
    pub step_ms: V,
    pub lr_mean: V,
    pub lr_rotation: V,
    pub lr_scale: V,
    pub lr_coeffs: V,
    pub lr_opac: V,
    pub num_visible: u32,
}

/// Where the numbers of a training step go.
pub open spec fn train_log<V>(stats: TrainStats<V>) -> Seq<(Seq<char>, LogValue<V>)> {
    seq![
        ("loss/total"@, LogValue::Measured(stats.loss)),
        ("train/step_ms"@, LogValue::Measured(stats.step_ms)),
        ("lr/mean"@, LogValue::Measured(stats.lr_mean)),
        ("lr/rotation"@, LogValue::Measured(stats.lr_rotation)),
        ("lr/scale"@, LogValue::Measured(stats.lr_scale)),
        ("lr/coeffs"@, LogValue::Measured(stats.lr_coeffs)),
        ("lr/opac"@, LogValue::Measured(stats.lr_opac)),
        ("splats/splats_visible"@, LogValue::Whole(stats.num_visible as i128)),
    ]
}

/// The numbers of a training step.
pub fn train_entries<V>(stats: TrainStats<V>) -> (list: Vec<LogEntry<V>>)
    ensures
        entry_views(list@) == train_log(stats),
{
    let mut list: Vec<LogEntry<V>> = Vec::new();
    push_entry(&mut list, "loss/total", LogValue::Measured(stats.loss));
    push_entry(&mut list, "train/step_ms", LogValue::Measured(stats.step_ms));
    push_entry(&mut list, "lr/mean", LogValue::Measured(stats.lr_mean));
    push_entry(&mut list, "lr/rotation", LogValue::Measured(stats.lr_rotation));
    push_entry(&mut list, "lr/scale", LogValue::Measured(stats.lr_scale));
    push_entry(&mut list, "lr/coeffs", LogValue::Measured(stats.lr_coeffs));
    push_entry(&mut list, "lr/opac", LogValue::Measured(stats.lr_opac));
    push_entry(&mut list, "splats/splats_visible", LogValue::Whole(stats.num_visible as i128));
    assert(entry_views(list@) =~= train_log(stats));
    list
}

/// What a refinement of the splats reports.
#[derive(Clone, Copy, Debug)]
pub struct RefineStats {
    pub num_added: u32,
    pub num_split_oversized: u32,
    pub num_split_high_grad: u32,
    pub num_pruned: u32,
    pub num_pruned_non_finite: u32,
}

/// Where the numbers of a refinement go. The effective growth is what was added
/// without what was pruned, and can be negative.
pub open spec fn refine_log<V>(refine: RefineStats, duration_ms: V) -> Seq<
    (Seq<char>, LogValue<V>),
> {
    seq![
        ("refine/num_added"@, LogValue::Whole(refine.num_added as i128)),
        ("refine/num_split_oversized"@, LogValue::Whole(refine.num_split_oversized as i128)),
        ("refine/num_split_high_grad"@, LogValue::Whole(refine.num_split_high_grad as i128)),
        ("refine/num_pruned"@, LogValue::Whole(refine.num_pruned as i128)),
        ("refine/num_pruned_non_finite"@, LogValue::Whole(refine.num_pruned_non_finite as i128)),
        (
            "refine/effective_growth"@,
            LogValue::Whole((refine.num_added - refine.num_pruned) as i128),
        ),
        ("refine/duration_ms"@, LogValue::Measured(duration_ms)),
    ]
}

/// The numbers of a refinement.
pub fn refine_entries<V>(refine: RefineStats, duration_ms: V) -> (list: Vec<LogEntry<V>>)
    ensures
        entry_views(list@) == refine_log(refine, duration_ms),
{
    let growth: i128 = refine.num_added as i128 - refine.num_pruned as i128;
    let mut list: Vec<LogEntry<V>> = Vec::new();
    push_entry(&mut list, "refine/num_added", LogValue::Whole(refine.num_added as i128));
    push_entry(
        &mut list,
        "refine/num_split_oversized",
        LogValue::Whole(refine.num_split_oversized as i128),
    );
    push_entry(
        &mut list,
        "refine/num_split_high_grad",
        LogValue::Whole(refine.num_split_high_grad as i128),
    );
    push_entry(&mut list, "refine/num_pruned", LogValue::Whole(refine.num_pruned as i128));
    push_entry(
        &mut list,
        "refine/num_pruned_non_finite",
        LogValue::Whole(refine.num_pruned_non_finite as i128),
    );
    push_entry(&mut list, "refine/effective_growth", LogValue::Whole(growth));
    push_entry(&mut list, "refine/duration_ms", LogValue::Measured(duration_ms));
    assert(entry_views(list@) =~= refine_log(refine, duration_ms));
    list
}

/// Where the numbers of the memory go.
pub open spec fn memory_log<V>(bytes_in_use: u64, bytes_reserved: u64, number_allocs: u64) -> Seq<
    (Seq<char>, LogValue<V>),
> {
    seq![
        ("memory/used"@, LogValue::Whole(bytes_in_use as i128)),
        ("memory/reserved"@, LogValue::Whole(bytes_reserved as i128)),
        ("memory/allocs"@, LogValue::Whole(number_allocs as i128)),
    ]
}

/// The memory in use.
pub fn memory_entries<V>(bytes_in_use: u64, bytes_reserved: u64, number_allocs: u64) -> (list: Vec<
    LogEntry<V>,
>)
    ensures
        entry_views(list@) == memory_log::<V>(bytes_in_use, bytes_reserved, number_allocs),
{
    let mut list: Vec<LogEntry<V>> = Vec::new();
    push_entry(&mut list, "memory/used", LogValue::Whole(bytes_in_use as i128));
    push_entry(&mut list, "memory/reserved", LogValue::Whole(bytes_reserved as i128));
    push_entry(&mut list, "memory/allocs", LogValue::Whole(number_allocs as i128));
    assert(entry_views(list@) =~= memory_log::<V>(bytes_in_use, bytes_reserved, number_allocs));
    list
}

/// Where the percentiles of a distribution go.
pub open spec fn percentile_log<V>(prefix: Seq<char>, p: Percentiles) -> Seq<
    (Seq<char>, LogValue<V>),
> {
    seq![
        (prefix + "/p01"@, LogValue::Bits(p.p01)),
        (prefix + "/p25"@, LogValue::Bits(p.p25)),
        (prefix + "/p50"@, LogValue::Bits(p.p50)),
        (prefix + "/p75"@, LogValue::Bits(p.p75)),
        (prefix + "/p95"@, LogValue::Bits(p.p95)),
        (prefix + "/p99"@, LogValue::Bits(p.p99)),
        (prefix + "/max"@, LogValue::Bits(p.max)),
    ]
}

fn push_below<V>(list: &mut Vec<LogEntry<V>>, prefix: &str, leaf: &str, value: LogValue<V>)
    ensures
        entry_views(final(list)@) == entry_views(old(list)@).push((prefix@ + leaf@, value)),
{
    let mut path: String = String::from_str(prefix);
    path.append(leaf);
    push_entry(list, path.as_str(), value);
}

fn push_percentiles<V>(list: &mut Vec<LogEntry<V>>, prefix: &str, p: Percentiles)
    ensures
        entry_views(final(list)@) == entry_views(old(list)@) + percentile_log(prefix@, p),
{
    push_below(list, prefix, "/p01", LogValue::Bits(p.p01));
    push_below(list, prefix, "/p25", LogValue::Bits(p.p25));
    push_below(list, prefix, "/p50", LogValue::Bits(p.p50));
    push_below(list, prefix, "/p75", LogValue::Bits(p.p75));
    push_below(list, prefix, "/p95", LogValue::Bits(p.p95));
    push_below(list, prefix, "/p99", LogValue::Bits(p.p99));
    push_below(list, prefix, "/max", LogValue::Bits(p.max));
    assert(entry_views(list@) =~= entry_views(old(list)@) + percentile_log(prefix@, p));
}

/// The shares of splats beyond the thresholds.
pub open spec fn share_log<V>(d: SplatDistribution) -> Seq<(Seq<char>, LogValue<V>)> {
    seq![
        ("splat_dist/frac_spindle_gt_3"@, LogValue::Share(d.spindle_gt_3, d.total)),
        ("splat_dist/frac_spindle_gt_5"@, LogValue::Share(d.spindle_gt_5, d.total)),
        ("splat_dist/frac_spindle_gt_10"@, LogValue::Share(d.spindle_gt_10, d.total)),
        ("splat_dist/frac_opac_lt_05"@, LogValue::Share(d.opac_lt_05, d.total)),
        ("splat_dist/frac_opac_lt_20"@, LogValue::Share(d.opac_lt_20, d.total)),
    ]
}

/// Where the distributions over splats go.
pub open spec fn distribution_log<V>(d: SplatDistribution) -> Seq<(Seq<char>, LogValue<V>)> {
    percentile_log("splat_dist/scale_max_log10"@, d.scale_max_log10) + percentile_log(
        "splat_dist/scale_min_log10"@,
        d.scale_min_log10,
    ) + percentile_log("splat_dist/opacity"@, d.opacity) + percentile_log(
        "splat_dist/spindle"@,
        d.spindle,
    ) + percentile_log("splat_dist/flatness"@, d.flatness) + share_log(d)
}

/// The distributions over splats.
pub fn distribution_entries<V>(d: &SplatDistribution) -> (list: Vec<LogEntry<V>>)
    ensures
        entry_views(list@) == distribution_log::<V>(*d),
{
    let mut list: Vec<LogEntry<V>> = Vec::new();
    assert(entry_views(list@) =~= Seq::empty());
    push_percentiles(&mut list, "splat_dist/scale_max_log10", d.scale_max_log10);
    push_percentiles(&mut list, "splat_dist/scale_min_log10", d.scale_min_log10);
    push_percentiles(&mut list, "splat_dist/opacity", d.opacity);
    push_percentiles(&mut list, "splat_dist/spindle", d.spindle);
    push_percentiles(&mut list, "splat_dist/flatness", d.flatness);
    let ghost front = entry_views(list@);
    push_entry(
        &mut list,
        "splat_dist/frac_spindle_gt_3",
        LogValue::Share(d.spindle_gt_3, d.total),
    );
    push_entry(
        &mut list,
        "splat_dist/frac_spindle_gt_5",
        LogValue::Share(d.spindle_gt_5, d.total),
    );
    push_entry(
        &mut list,
        "splat_dist/frac_spindle_gt_10",
        LogValue::Share(d.spindle_gt_10, d.total),
    );
    push_entry(&mut list, "splat_dist/frac_opac_lt_05", LogValue::Share(d.opac_lt_05, d.total));
    push_entry(&mut list, "splat_dist/frac_opac_lt_20", LogValue::Share(d.opac_lt_20, d.total));
    assert(entry_views(list@) =~= front + share_log(*d));
    assert(entry_views(list@) =~= distribution_log::<V>(*d));
    list
}

/// A graph: its name and the series that it shows.
pub struct Graph {
    pub name: String,
    pub contents: Vec<String>,
}

impl View for Graph {
    type V = (Seq<char>, Seq<Seq<char>>);

    open spec fn view(&self) -> (Seq<char>, Seq<Seq<char>>) {
        (self.name@, text::texts(self.contents@))
    }
}

/// A cell of the row of graphs.
pub enum GraphCell {
    /// One graph.
    Single(Graph),
    /// Graphs that can be switched between, under a name.
    Tabs(String, Vec<Graph>),
}

/// A cell without its storage: the name of its tabs where it has any, and its
/// graphs.
pub open spec fn cell_view(cell: GraphCell) -> (Option<Seq<char>>, Seq<
    (Seq<char>, Seq<Seq<char>>),
>) {
    match cell {
        GraphCell::Single(g) => (None, seq![g@]),
        GraphCell::Tabs(name, graphs) => (Some(name@), graph_views(graphs@)),
    }
}

pub open spec fn graph_views(s: Seq<Graph>) -> Seq<(Seq<char>, Seq<Seq<char>>)> {
    Seq::new(s.len(), |i: int| s[i]@)
}

pub open spec fn cell_views(s: Seq<GraphCell>) -> Seq<
    (Option<Seq<char>>, Seq<(Seq<char>, Seq<Seq<char>>)>),
> {
    Seq::new(s.len(), |i: int| cell_view(s[i]))
}

/// The graphs of quality, one tab each.
pub open spec fn quality_graphs() -> Seq<(Seq<char>, Seq<Seq<char>>)> {
    seq![
        ("PSNR"@, seq!["psnr/eval"@]),
        ("PSNR per view"@, seq!["psnr/per_view/**"@]),
        ("SSIM"@, seq!["ssim/eval"@]),
        ("SSIM per view"@, seq!["ssim/per_view/**"@]),
        ("Loss"@, seq!["loss/**"@]),
    ]
}

/// The series of the graph of refinements.
pub open spec fn refine_contents() -> Seq<Seq<char>> {
    seq![
        "refine/num_split_oversized"@,
        "refine/num_split_high_grad"@,
        "refine/num_pruned"@,
        "refine/num_pruned_non_finite"@,
        "refine/effective_growth"@,
    ]
}

/// The graphs that are not shown at first.
pub open spec fn other_graphs() -> Seq<(Seq<char>, Seq<Seq<char>>)> {
    seq![
        ("Throughput"@, seq!["train/step_ms"@, "refine/duration_ms"@]),
        ("Learning rates"@, seq!["lr/**"@]),
    ]
}

/// The row of graphs.
pub open spec fn graph_row_view() -> Seq<
    (Option<Seq<char>>, Seq<(Seq<char>, Seq<Seq<char>>)>),
> {
    seq![
        (Some("Quality"@), quality_graphs()),
        (None, seq![("Splats"@, seq!["splats/**"@])]),
        (None, seq![("Refine"@, refine_contents())]),
        (None, seq![("Memory"@, seq!["memory/**"@])]),
        (Some("Other"@), other_graphs()),
    ]
}

fn push_text(list: &mut Vec<String>, s: &str)
    ensures
        text::texts(final(list)@) == text::texts(old(list)@).push(s@),
{
    let ghost before = list@;
    list.push(s.to_owned());
    assert(text::texts(list@) =~= text::texts(before).push(s@));
}

fn one_series(name: &str, content: &str) -> (g: Graph)
    ensures
        g@ == (name@, seq![content@]),
{
    let mut contents: Vec<String> = Vec::new();
    push_text(&mut contents, content);
    assert(text::texts(contents@) =~= seq![content@]);
    Graph { name: name.to_owned(), contents }
}

fn push_graph(list: &mut Vec<Graph>, g: Graph)
    ensures
        graph_views(final(list)@) == graph_views(old(list)@).push(g@),
{
    let ghost before = list@;
    list.push(g);
    assert(graph_views(list@) =~= graph_views(before).push(g@));
}

fn push_cell(list: &mut Vec<GraphCell>, cell: GraphCell)
    ensures
        cell_views(final(list)@) == cell_views(old(list)@).push(cell_view(cell)),
{
    let ghost before = list@;
    list.push(cell);
    assert(cell_views(list@) =~= cell_views(before).push(cell_view(cell)));
}

fn quality_tabs() -> (graphs: Vec<Graph>)
    ensures
        graph_views(graphs@) == quality_graphs(),
{
    let mut graphs: Vec<Graph> = Vec::new();
    push_graph(&mut graphs, one_series("PSNR", "psnr/eval"));
    push_graph(&mut graphs, one_series("PSNR per view", "psnr/per_view/**"));
    push_graph(&mut graphs, one_series("SSIM", "ssim/eval"));
    push_graph(&mut graphs, one_series("SSIM per view", "ssim/per_view/**"));
    push_graph(&mut graphs, one_series("Loss", "loss/**"));
    assert(graph_views(graphs@) =~= quality_graphs());
    graphs
}

fn refine_graph() -> (g: Graph)
    ensures
        g@ == ("Refine"@, refine_contents()),
{
    let mut contents: Vec<String> = Vec::new();
    push_text(&mut contents, "refine/num_split_oversized");
    push_text(&mut contents, "refine/num_split_high_grad");
    push_text(&mut contents, "refine/num_pruned");
    push_text(&mut contents, "refine/num_pruned_non_finite");
    push_text(&mut contents, "refine/effective_growth");
    assert(text::texts(contents@) =~= refine_contents());
    Graph { name: "Refine".to_owned(), contents }
}

fn other_tabs() -> (graphs: Vec<Graph>)
    ensures
        graph_views(graphs@) == other_graphs(),
{
    let mut contents: Vec<String> = Vec::new();
    push_text(&mut contents, "train/step_ms");
    push_text(&mut contents, "refine/duration_ms");
    assert(text::texts(contents@) =~= seq!["train/step_ms"@, "refine/duration_ms"@]);
    let mut graphs: Vec<Graph> = Vec::new();
    push_graph(&mut graphs, Graph { name: "Throughput".to_owned(), contents });
    push_graph(&mut graphs, one_series("Learning rates", "lr/**"));
    assert(graph_views(graphs@) =~= other_graphs());
    graphs
}

/// The row of graphs under the views.
pub fn graph_row() -> (row: Vec<GraphCell>)
    ensures
        cell_views(row@) == graph_row_view(),
{
    let mut row: Vec<GraphCell> = Vec::new();
    push_cell(&mut row, GraphCell::Tabs("Quality".to_owned(), quality_tabs()));
    push_cell(&mut row, GraphCell::Single(one_series("Splats", "splats/**")));
    push_cell(&mut row, GraphCell::Single(refine_graph()));
    push_cell(&mut row, GraphCell::Single(one_series("Memory", "memory/**")));
    push_cell(&mut row, GraphCell::Tabs("Other".to_owned(), other_tabs()));
    assert(cell_views(row@) =~= graph_row_view());
    row
}

/// How the log is arranged: the evaluated views beside the scene, over a row of
/// graphs.
pub struct Arrangement {
    pub views: EvalPanel,
    pub scene: SpatialView,
    /// Widths of the evaluated views and of the scene; none where the scene
    /// stands alone.
    pub column_shares: Option<(u32, u32)>,
    pub graphs: Vec<GraphCell>,
    /// Heights of the two rows.
    pub row_shares: (u32, u32),
}

/// The arrangement for a number of evaluated views.
pub fn default_blueprint(num_eval_views: u32) -> (a: Arrangement)
    ensures
        visualize::is_panel(a.views, num_eval_views as int),
        visualize::is_spatial_view(a.scene, "Scene"@, "world"@, "world/**"@),
        a.column_shares == (if num_eval_views == 0 {
            None::<(u32, u32)>
        } else {
            Some((3u32, 1u32))
        }),
        cell_views(a.graphs@) == graph_row_view(),
        a.row_shares == (3u32, 2u32),
{
    Arrangement {
        views: eval_panel(num_eval_views),
        scene: scene_view(),
        column_shares: if num_eval_views == 0 {
            None
        } else {
            Some((3, 1))
        },
        graphs: graph_row(),
        row_shares: (3, 2),
    }
}

/// The place of a camera of the scene in the log.
pub fn camera_path(index: u64) -> (path: String)
    ensures
        path@ == visualize::numbered("world/dataset/camera/"@, index as int),
{
    let mut path: String = String::from_str("world/dataset/camera/");
    push_decimal(&mut path, index);
    path
}

/// What was pruned and what the splats effectively grew by make up what was
/// added.
pub proof fn growth_and_pruning_make_up_the_added<V>(refine: RefineStats, duration_ms: V)
    ensures
        ({
            let log = refine_log(refine, duration_ms);
            &&& log[5].1->Whole_0 + log[3].1->Whole_0 == log[0].1->Whole_0
            &&& log[0].1 is Whole
            &&& log[3].1 is Whole
            &&& log[5].1 is Whole
        }),
{
}

/// Every series that has a name, other than those of the evaluation, is logged,
/// and the graph of refinements shows logged series.
pub proof fn named_series_are_logged<V>(
    num_splats: u32,
    stats: TrainStats<V>,
    memory: (u64, u64, u64),
    refine: RefineStats,
    duration_ms: V,
    k: int,
)
    ensures
        ({
            let splats = splat_log::<V>(num_splats);
            let train = train_log(stats);
            let used = memory_log::<V>(memory.0, memory.1, memory.2);
            let refined = refine_log(refine, duration_ms);
            let named = visualize::resource_series();
            let first = visualize::quality_series();
            &&& 0 <= k < 2 ==> (#[trigger] first[k]).0 == train[k].0
            &&& named[0].0 == splats[0].0
            &&& named[1].0 == train[7].0
            &&& 2 <= k < 7 ==> (#[trigger] named[k]).0 == train[k].0
            &&& 7 <= k < 10 ==> named[k].0 == used[k - 7].0
            &&& 10 <= k < 17 ==> named[k].0 == refined[k - 10].0
            &&& 0 <= k < 5 ==> #[trigger] refine_contents()[k] == refined[k + 1].0
        }),
{
}

} // verus!
