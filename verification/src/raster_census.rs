//! Workload census of the tile-based raster pipeline: occupancy of the tiles,
//! fan-in of the splats, and a replay of sampled tiles.

use crate::counting;
use crate::get_tile_offset;
use crate::raster_replay;
use crate::raster_replay::{replay_tile, PairOutcome, TileReplay};
use crate::sums;
use crate::text;
use vstd::prelude::*;
use vstd::string::StringExecFns;

verus! {

/// Values stored per projected splat.
pub const PROJECTED_LANES: u32 = 9;

/// A pair of unsigned extents.
#[derive(Clone, Copy, Debug, PartialEq, Eq, Structural)]
pub struct UVec2 {
    pub x: u32,
    pub y: u32,
}

/// A batch of renders that still want a census.
#[derive(Clone, Copy, Debug, PartialEq, Eq, Structural)]
pub struct PendingCensus {
    pub remaining: usize,
    pub sample_tiles: usize,
    pub next_sequence: usize,
}

impl PendingCensus {
    /// A batch in flight has renders left, and the renders already served and
    /// the ones left make up a count that a `usize` can hold.
    pub open spec fn wf(self) -> bool {
        &&& self.remaining > 0
        &&& self.sample_tiles > 0
        &&& self.next_sequence + self.remaining <= usize::MAX
    }
}

/// No batch, or a well-formed one.
pub open spec fn pending_wf(pending: Option<PendingCensus>) -> bool {
    pending is Some ==> pending->0.wf()
}

/// The census that one render is asked for.
#[derive(Clone, Copy, Debug, PartialEq, Eq, Structural)]
pub struct RasterCensusRequest {
    pub sequence: usize,
    pub sample_tiles: usize,
}

/// Requests a census for the next `render_count` renders. Only one batch may be
/// active at a time.
pub fn request(
    pending: &mut Option<PendingCensus>,
    render_count: usize,
    sample_tiles: usize,
) -> (r: Result<(), String>)
    requires
        pending_wf(*old(pending)),
    ensures
        pending_wf(*final(pending)),
        r is Ok <==> render_count > 0 && sample_tiles > 0 && *old(pending) is None,
        r is Ok ==> *final(pending) == Some(
            PendingCensus { remaining: render_count, sample_tiles, next_sequence: 0 },
        ),
        r is Err ==> *final(pending) == *old(pending),
        r is Err ==> r->Err_0@ == (if render_count == 0 {
            "raster census requires at least one render"@
        } else if sample_tiles == 0 {
            "raster census requires at least one sampled tile"@
        } else {
            "a raster census request is already active"@
        }),
{
    if render_count == 0 {
        return Err(String::from_str("raster census requires at least one render"));
    }
    if sample_tiles == 0 {
        return Err(String::from_str("raster census requires at least one sampled tile"));
    }
    if pending.is_some() {
        return Err(String::from_str("a raster census request is already active"));
    }
    *pending = Some(PendingCensus { remaining: render_count, sample_tiles, next_sequence: 0 });
    Ok(())
}

/// The request that a state hands out.
pub open spec fn taken_request(pending: Option<PendingCensus>) -> Option<RasterCensusRequest> {
    match pending {
        None => None,
        Some(state) => Some(
            RasterCensusRequest {
                sequence: state.next_sequence,
                sample_tiles: state.sample_tiles,
            },
        ),
    }
}

/// The state after a request was handed out. The batch ends with its last
/// render.
pub open spec fn after_take(pending: Option<PendingCensus>) -> Option<PendingCensus> {
    match pending {
        None => None,
        Some(state) => if state.remaining == 1 {
            None
        } else {
            Some(
                PendingCensus {
                    remaining: (state.remaining - 1) as usize,
                    sample_tiles: state.sample_tiles,
                    next_sequence: (state.next_sequence + 1) as usize,
                },
            )
        },
    }
}

/// Takes the next request of the active batch.
pub fn take_request(pending: &mut Option<PendingCensus>) -> (r: Option<RasterCensusRequest>)
    requires
        pending_wf(*old(pending)),
    ensures
        pending_wf(*final(pending)),
        r == taken_request(*old(pending)),
        *final(pending) == after_take(*old(pending)),
{
    match *pending {
        None => None,
        Some(state) => {
            let request = RasterCensusRequest {
                sequence: state.next_sequence,
                sample_tiles: state.sample_tiles,
            };
            if state.remaining == 1 {
                *pending = None;
            } else {
                *pending = Some(
                    PendingCensus {
                        remaining: state.remaining - 1,
                        sample_tiles: state.sample_tiles,
                        next_sequence: state.next_sequence + 1,
                    },
                );
            }
            Some(request)
        },
    }
}

/// The state of a batch of `count` renders after `taken` of them.
pub open spec fn batch_state(count: int, sample_tiles: usize, taken: int) -> Option<PendingCensus>
    decreases taken,
{
    if taken <= 0 {
        Some(PendingCensus { remaining: count as usize, sample_tiles, next_sequence: 0 })
    } else {
        after_take(batch_state(count, sample_tiles, taken - 1))
    }
}

/// A batch of `count` renders hands out the sequence numbers `0..count` in
/// order, each with the batch's tile count, and is over after them.
pub proof fn batch_is_ordered_and_ends(count: int, sample_tiles: usize, taken: int)
    requires
        0 < count <= usize::MAX,
        sample_tiles > 0,
        0 <= taken <= count,
    ensures
        taken < count ==> taken_request(batch_state(count, sample_tiles, taken)) == Some(
            RasterCensusRequest { sequence: taken as usize, sample_tiles },
        ),
        taken < count ==> pending_wf(batch_state(count, sample_tiles, taken))
            && batch_state(count, sample_tiles, taken)->0.remaining == count - taken,
        taken == count ==> batch_state(count, sample_tiles, taken) is None,
    decreases taken,
{
    if taken > 0 {
        batch_is_ordered_and_ends(count, sample_tiles, taken - 1);
    }
}

/// A quotient kept as its two terms. A zero denominator stands for the value
/// zero.
#[derive(Clone, Copy, Debug, PartialEq, Eq, Structural)]
pub struct Rate {
    pub numerator: u64,
    pub denominator: u64,
}

/// Pairs a numerator with its denominator.
pub fn rate(numerator: u64, denominator: u64) -> (r: Rate)
    ensures
        r == (Rate { numerator, denominator }),
{
    Rate { numerator, denominator }
}

/// Distribution of a list of counts.
#[derive(Clone, Copy, Debug, PartialEq, Eq, Structural)]
pub struct DistributionSummary {
    pub count: usize,
    pub zeros: usize,
    pub mean: Rate,
    pub p50: u32,
    pub p90: u32,
    pub p99: u32,
    pub max: u32,
}

/// The values as classes of the stable order.
pub open spec fn value_classes(values: Seq<u32>) -> Seq<int> {
    Seq::new(values.len(), |i: int| values[i] as int)
}

/// The values in ascending order.
pub open spec fn ascending(values: Seq<u32>) -> Seq<u32> {
    counting::reorder(values, counting::rank_order(value_classes(values)))
}

/// Nearest-rank index of a percentile in a list of `len` values.
pub open spec fn percentile_index(len: int, percent: int) -> int {
    let k = (len * percent + 99) / 100;
    if k <= 0 {
        0
    } else if k > len {
        len - 1
    } else {
        k - 1
    }
}

/// Nearest-rank percentile of ascending values, zero where there are none.
pub open spec fn percentile_of(sorted: Seq<u32>, percent: int) -> u32 {
    if sorted.len() == 0 {
        0
    } else {
        sorted[percentile_index(sorted.len() as int, percent)]
    }
}

/// Nearest-rank percentile of a sorted list.
pub fn percentile(sorted: &Vec<u32>, percent: u32) -> (r: u32)
    ensures
        r == percentile_of(sorted@, percent as int),
{
    if sorted.len() == 0 {
        return 0;
    }
    let len: u128 = sorted.len() as u128;
    proof {
        assert(len * percent <= 0xffff_ffff_ffff_ffff * 0xffff_ffff) by (nonlinear_arith)
            requires
                0 <= len <= 0xffff_ffff_ffff_ffff,
                0 <= percent <= 0xffff_ffff,
        ;
    }
    let k: u128 = (len * (percent as u128) + 99) / 100;
    let index: u128 = if k == 0 {
        0
    } else if k > len {
        len - 1
    } else {
        k - 1
    };
    sorted[index as usize]
}

/// Positions with the value `v`.
pub open spec fn count_value(values: Seq<u32>, v: int) -> int {
    counting::count_class(value_classes(values), v, 0, values.len() as int)
}

/// The summary of a list of counts.
pub open spec fn is_summary(values: Seq<u32>, s: DistributionSummary) -> bool {
    &&& s.count == values.len()
    &&& s.zeros == count_value(values, 0)
    &&& s.mean.numerator == sums::sum_range(values, 0, values.len() as int)
    &&& s.mean.denominator == values.len()
    &&& s.p50 == percentile_of(ascending(values), 50)
    &&& s.p90 == percentile_of(ascending(values), 90)
    &&& s.p99 == percentile_of(ascending(values), 99)
    &&& s.max == percentile_of(ascending(values), 100)
}

/// Ascending copy of a list of counts.
pub fn sort_values(values: &Vec<u32>) -> (sorted: Vec<u32>)
    ensures
        sorted@ == ascending(values@),
        sorted.len() == values.len(),
{
    let mut keys: Vec<u64> = Vec::new();
    let mut i: usize = 0;
    while i < values.len()
        invariant
            i <= values.len(),
            keys.len() == i,
            forall|k: int| 0 <= k < i ==> #[trigger] keys[k] == values[k],
        decreases values.len() - i,
    {
        keys.push(values[i] as u64);
        i = i + 1;
    }
    let order: Vec<usize> = counting::stable_order(&keys);
    proof {
        assert(counting::as_classes(keys@) =~= value_classes(values@));
    }
    let mut sorted: Vec<u32> = Vec::new();
    let mut j: usize = 0;
    while j < order.len()
        invariant
            j <= order.len(),
            order.len() == values.len(),
            sorted.len() == j,
            forall|k: int| 0 <= k < order.len() ==> #[trigger] order[k] < values.len(),
            forall|k: int| 0 <= k < j ==> #[trigger] sorted[k] == values[order[k] as int],
        decreases order.len() - j,
    {
        sorted.push(values[order[j]]);
        j = j + 1;
    }
    proof {
        let src = counting::rank_order(value_classes(values@));
        assert(counting::as_positions(order@) == src);
        assert forall|k: int| 0 <= k < sorted.len() implies sorted[k] == ascending(values@)[k] by {
            assert(counting::as_positions(order@)[k] == src[k]);
        }
        assert(sorted@ =~= ascending(values@));
    }
    sorted
}

/// Count, zeros, total and percentiles of a list of counts.
pub fn summarize(values: &Vec<u32>) -> (s: DistributionSummary)
    requires
        sums::sum_range(values@, 0, values.len() as int) <= u64::MAX,
    ensures
        is_summary(values@, s),
{
    let sorted: Vec<u32> = sort_values(values);
    let ghost c = value_classes(values@);
    let mut sum: u64 = 0;
    let mut zeros: usize = 0;
    let mut i: usize = 0;
    while i < values.len()
        invariant
            i <= values.len(),
            c == value_classes(values@),
            sums::sum_range(values@, 0, values.len() as int) <= u64::MAX,
            sum == sums::sum_range(values@, 0, i as int),
            zeros == counting::count_class(c, 0, 0, i as int),
            zeros <= i,
        decreases values.len() - i,
    {
        proof {
            sums::lemma_sum_monotone(values@, 0, i + 1, values.len() as int);
        }
        if values[i] == 0 {
            zeros = zeros + 1;
        }
        sum = sum + values[i] as u64;
        i = i + 1;
    }
    DistributionSummary {
        count: values.len(),
        zeros,
        mean: rate(sum, values.len() as u64),
        p50: percentile(&sorted, 50),
        p90: percentile(&sorted, 90),
        p99: percentile(&sorted, 99),
        max: percentile(&sorted, 100),
    }
}

/// Sorting keeps every value and puts none before a smaller one, so the last of
/// a non-empty list is its maximum.
pub proof fn maximum_bounds_every_value(values: Seq<u32>, i: int)
    requires
        0 <= i < values.len(),
    ensures
        values[i] <= percentile_of(ascending(values), 100),
        values.contains(percentile_of(ascending(values), 100)),
{
    let c = value_classes(values);
    let n = values.len() as int;
    let src = counting::rank_order(c);
    counting::lemma_rank_order_is_stable(c);
    assert(percentile_index(n, 100) == n - 1);
    let last = src[n - 1];
    assert(ascending(values)[n - 1] == values[last]);
    counting::lemma_rank_bounds(c, i);
    let k = counting::rank(c, i);
    assert(counting::rank(c, src[k]) == k);
    counting::lemma_rank_injective(c, src[k], i);
    if k < n - 1 {
        assert(counting::precedes(c, src[k], src[n - 1]));
    }
    assert(c[i] == values[i] as int && c[last] == values[last] as int);
}

/// The percentiles of a list ascend.
pub proof fn percentiles_ascend(values: Seq<u32>, p: int, q: int)
    requires
        0 <= p <= q,
    ensures
        percentile_of(ascending(values), p) <= percentile_of(ascending(values), q),
{
    let c = value_classes(values);
    let n = values.len() as int;
    if n > 0 {
        counting::lemma_rank_order_is_stable(c);
        let src = counting::rank_order(c);
        assert(n * p <= n * q) by (nonlinear_arith)
            requires
                0 <= p <= q,
                n > 0,
        ;
        assert(0 <= n * p) by (nonlinear_arith)
            requires
                0 <= p,
                n > 0,
        ;
        let a = percentile_index(n, p);
        let b = percentile_index(n, q);
        assert(0 <= a <= b < n);
        if a < b {
            assert(counting::precedes(c, src[a], src[b]));
        }
        assert(0 <= src[a] < n && 0 <= src[b] < n);
    }
}

/// One round of the id mixer.
pub open spec fn mixed(value: u64) -> u64 {
    let a = value.wrapping_add(0x9e37_79b9_7f4a_7c15);
    let b = (a ^ (a >> 30u64)).wrapping_mul(0xbf58_476d_1ce4_e5b9);
    let c = (b ^ (b >> 27u64)).wrapping_mul(0x94d0_49bb_1331_11eb);
    c ^ (c >> 31u64)
}

/// Scrambles an id.
pub fn mix_id(value: u64) -> (r: u64)
    ensures
        r == mixed(value),
{
    let a: u64 = value.wrapping_add(0x9e37_79b9_7f4a_7c15);
    let b: u64 = (a ^ (a >> 30u64)).wrapping_mul(0xbf58_476d_1ce4_e5b9);
    let c: u64 = (b ^ (b >> 27u64)).wrapping_mul(0x94d0_49bb_1331_11eb);
    c ^ (c >> 31u64)
}

/// The scrambled ids of `n` tiles.
pub open spec fn tile_classes(n: int) -> Seq<int> {
    Seq::new(n as nat, |t: int| mixed(t as u64) as int)
}

/// Tile `t` is among the `requested` tiles with the smallest scrambled ids.
pub open spec fn is_chosen(n: int, requested: int, t: int) -> bool {
    counting::rank(tile_classes(n), t) < requested
}

/// The chosen tiles below `hi`, ascending.
pub open spec fn chosen_below(n: int, requested: int, hi: int) -> Seq<int>
    decreases hi,
{
    if hi <= 0 {
        Seq::empty()
    } else if is_chosen(n, requested, hi - 1) {
        chosen_below(n, requested, hi - 1).push(hi - 1)
    } else {
        chosen_below(n, requested, hi - 1)
    }
}

/// The tiles that a census of `requested` out of `n` tiles samples.
pub open spec fn chosen_tiles(n: int, requested: int) -> Seq<int> {
    chosen_below(n, requested, n)
}

/// Picks the `requested` tiles with the smallest scrambled ids, in ascending
/// order.
pub fn select_tiles(num_tiles: usize, requested: usize) -> (selected: Vec<usize>)
    ensures
        counting::as_positions(selected@) == chosen_tiles(num_tiles as int, requested as int),
        forall|k: int| 0 <= k < selected.len() ==> #[trigger] selected[k] < num_tiles,
{
    let ghost n = num_tiles as int;
    let mut keys: Vec<u64> = Vec::new();
    let mut t: usize = 0;
    while t < num_tiles
        invariant
            t <= num_tiles,
            keys.len() == t,
            forall|k: int| 0 <= k < t ==> #[trigger] keys[k] == mixed(k as u64),
        decreases num_tiles - t,
    {
        keys.push(mix_id(t as u64));
        t = t + 1;
    }
    let order: Vec<usize> = counting::stable_order(&keys);
    let ghost c = tile_classes(n);
    let ghost src = counting::rank_order(c);
    proof {
        assert(counting::as_classes(keys@) =~= c);
        counting::lemma_rank_order_is_stable(c);
        assert forall|k: int| 0 <= k < n implies order[k] == #[trigger] src[k] by {
            assert(counting::as_positions(order@)[k] == src[k]);
        }
    }
    let keep: usize = if requested < num_tiles {
        requested
    } else {
        num_tiles
    };
    let mut flags: Vec<bool> = vec![false; num_tiles];
    proof {
        assert forall|i: int| 0 <= i < n implies #[trigger] flags[i] == (counting::rank(c, i) < 0) by {
            counting::lemma_rank_bounds(c, i);
        }
    }
    let mut k: usize = 0;
    while k < keep
        invariant
            k <= keep,
            keep <= num_tiles,
            n == num_tiles,
            c == tile_classes(n),
            src == counting::rank_order(c),
            src.len() == n,
            order.len() == n,
            flags.len() == n,
            forall|i: int| 0 <= i < n ==> order[i] == #[trigger] src[i],
            forall|i: int| 0 <= i < n ==> 0 <= #[trigger] src[i] < n,
            forall|i: int| 0 <= i < n ==> counting::rank(c, #[trigger] src[i]) == i,
            forall|i: int|
                0 <= i < n ==> #[trigger] flags[i] == (counting::rank(c, i) < k),
        decreases keep - k,
    {
        let at: usize = order[k];
        proof {
            assert(at == src[k as int]);
            assert forall|i: int| 0 <= i < n && i != at implies counting::rank(c, i) != k by {
                if counting::rank(c, i) == k {
                    counting::lemma_rank_injective(c, i, at as int);
                }
            }
        }
        flags.set(at, true);
        k = k + 1;
    }
    let mut selected: Vec<usize> = Vec::new();
    let mut u: usize = 0;
    proof {
        assert(counting::as_positions(selected@) =~= chosen_below(n, requested as int, 0));
    }
    while u < num_tiles
        invariant
            u <= num_tiles,
            n == num_tiles,
            c == tile_classes(n),
            flags.len() == n,
            keep == if requested < num_tiles {
                requested
            } else {
                num_tiles
            },
            forall|i: int|
                0 <= i < n ==> #[trigger] flags[i] == (counting::rank(c, i) < keep),
            counting::as_positions(selected@) == chosen_below(n, requested as int, u as int),
            forall|k: int| 0 <= k < selected.len() ==> #[trigger] selected[k] < num_tiles,
        decreases num_tiles - u,
    {
        proof {
            counting::lemma_rank_bounds(c, u as int);
        }
        let ghost before = selected@;
        if flags[u] {
            selected.push(u);
            proof {
                assert(counting::as_positions(selected@) =~= counting::as_positions(before).push(
                    u as int,
                ));
            }
        }
        u = u + 1;
    }
    selected
}

proof fn lemma_chosen_below(n: int, requested: int, hi: int)
    requires
        0 <= hi <= n,
    ensures
        chosen_below(n, requested, hi).len() <= hi,
        forall|k: int|
            0 <= k < chosen_below(n, requested, hi).len() ==> 0 <= #[trigger] chosen_below(
                n,
                requested,
                hi,
            )[k] < hi && is_chosen(n, requested, chosen_below(n, requested, hi)[k]),
        forall|a: int, b: int|
            0 <= a < b < chosen_below(n, requested, hi).len() ==> #[trigger] chosen_below(
                n,
                requested,
                hi,
            )[a] < #[trigger] chosen_below(n, requested, hi)[b],
        forall|t: int|
            0 <= t < hi && is_chosen(n, requested, t) ==> #[trigger] chosen_below(
                n,
                requested,
                hi,
            ).contains(t),
    decreases hi,
{
    if hi > 0 {
        lemma_chosen_below(n, requested, hi - 1);
        let rest = chosen_below(n, requested, hi - 1);
        let all = chosen_below(n, requested, hi);
        assert forall|t: int| 0 <= t < hi && is_chosen(n, requested, t) implies #[trigger] all.contains(
        t) by {
            if t == hi - 1 {
                assert(all[all.len() - 1] == t);
            } else {
                assert(rest.contains(t));
                let k = choose|k: int| 0 <= k < rest.len() && rest[k] == t;
                assert(all[k] == t);
            }
        }
    }
}

/// A larger sample holds every tile of a smaller one.
pub proof fn larger_samples_contain_smaller(n: int, requested: int, more: int, t: int)
    requires
        0 <= n,
        requested <= more,
        chosen_tiles(n, requested).contains(t),
    ensures
        chosen_tiles(n, more).contains(t),
{
    lemma_chosen_below(n, requested, n);
    lemma_chosen_below(n, more, n);
    let small = chosen_tiles(n, requested);
    let k = choose|k: int| 0 <= k < small.len() && small[k] == t;
    assert(is_chosen(n, requested, small[k]));
}

/// A sample of as many tiles as there are holds all of them, and a sample of none
/// holds none.
pub proof fn full_and_empty_samples(n: int, requested: int)
    requires
        0 <= n,
    ensures
        requested >= n ==> chosen_tiles(n, requested) == Seq::new(n as nat, |i: int| i),
        requested <= 0 ==> chosen_tiles(n, requested) == Seq::<int>::empty(),
        n == 0 ==> chosen_tiles(n, requested) == Seq::<int>::empty(),
{
    lemma_extreme_samples(n, requested, n);
}

proof fn lemma_extreme_samples(n: int, requested: int, hi: int)
    requires
        0 <= hi <= n,
    ensures
        requested >= n ==> chosen_below(n, requested, hi) == Seq::new(hi as nat, |i: int| i),
        requested <= 0 ==> chosen_below(n, requested, hi) == Seq::<int>::empty(),
    decreases hi,
{
    if hi > 0 {
        lemma_extreme_samples(n, requested, hi - 1);
        counting::lemma_rank_bounds(tile_classes(n), hi - 1);
        if requested >= n {
            assert(chosen_below(n, requested, hi) =~= Seq::new(hi as nat, |i: int| i));
        }
    } else {
        assert(chosen_below(n, requested, hi) =~= Seq::new(hi as nat, |i: int| i));
    }
}

/// A sample holds as many tiles as asked for, as far as there are tiles, each
/// once and in ascending order.
pub proof fn sample_has_the_requested_size(n: int, requested: int)
    requires
        0 <= n,
        0 <= requested,
    ensures
        chosen_tiles(n, requested).len() == if requested < n {
            requested
        } else {
            n
        },
        forall|a: int, b: int|
            0 <= a < b < chosen_tiles(n, requested).len() ==> #[trigger] chosen_tiles(
                n,
                requested,
            )[a] < #[trigger] chosen_tiles(n, requested)[b],
{
    let c = tile_classes(n);
    let src = counting::rank_order(c);
    let chosen = chosen_tiles(n, requested);
    let keep = if requested < n {
        requested
    } else {
        n
    };
    lemma_chosen_below(n, requested, n);
    counting::lemma_rank_order_is_stable(c);
    counting::lemma_stable_order_no_duplicates(c, src);
    let head = src.take(keep);
    assert(head.no_duplicates());
    assert(chosen.no_duplicates());
    assert(head.to_set() =~= chosen.to_set()) by {
        assert forall|t: int| head.to_set().contains(t) implies chosen.to_set().contains(t) by {
            assert(head.contains(t));
            let k = choose|k: int| 0 <= k < head.len() && head[k] == t;
            assert(src[k] == t);
            assert(counting::rank(c, src[k]) == k);
            assert(is_chosen(n, requested, t));
            assert(chosen.contains(t));
        }
        assert forall|t: int| chosen.to_set().contains(t) implies head.to_set().contains(t) by {
            assert(chosen.contains(t));
            let j = choose|j: int| 0 <= j < chosen.len() && chosen[j] == t;
            assert(is_chosen(n, requested, chosen[j]));
            counting::lemma_rank_bounds(c, t);
            let k = counting::rank(c, t);
            assert(counting::rank(c, src[k]) == k);
            counting::lemma_rank_injective(c, src[k], t);
            assert(head[k] == t);
            assert(head.contains(t));
        }
    }
    head.unique_seq_to_set();
    chosen.unique_seq_to_set();
}

/// Report on offsets that are too short.
pub open spec fn short_offsets_text(label: Seq<char>, len: int, want: int) -> Seq<char> {
    label + " tile offsets contain "@ + text::decimal_text(len) + " values, expected at least "@
        + text::decimal_text(want)
}

/// Report on a range that is reversed or leaves the intersection list.
pub open spec fn bad_range_text(label: Seq<char>, t: int, lo: int, hi: int, max: int) -> Seq<char> {
    label + " tile "@ + text::decimal_text(t) + " has invalid range "@ + text::decimal_text(lo)
        + ".."@ + text::decimal_text(hi) + " for "@ + text::decimal_text(max) + " intersections"@
}

/// Tile `t` has a reversed range or one past `max`.
pub open spec fn is_bad_range(offsets: Seq<u32>, t: int, max: int) -> bool {
    offsets[2 * t] > offsets[2 * t + 1] || offsets[2 * t + 1] > max
}

/// Each of the first `n` tiles has a range inside the first `max`
/// intersections.
pub open spec fn all_ranges(offsets: Seq<u32>, n: int, max: int) -> bool {
    forall|t: int| 0 <= t < n ==> !#[trigger] is_bad_range(offsets, t, max)
}

/// First tile from `from` on with a bad range.
pub open spec fn first_bad_range(offsets: Seq<u32>, from: int, n: int, max: int) -> Option<int>
    decreases n - from,
{
    if from >= n {
        None
    } else if is_bad_range(offsets, from, max) {
        Some(from)
    } else {
        first_bad_range(offsets, from + 1, n, max)
    }
}

/// What is wrong with a list of tile ranges, if anything.
pub open spec fn offsets_error(
    label: Seq<char>,
    offsets: Seq<u32>,
    n: int,
    max: int,
) -> Option<Seq<char>> {
    if offsets.len() < 2 * n {
        Some(short_offsets_text(label, offsets.len() as int, 2 * n))
    } else {
        match first_bad_range(offsets, 0, n, max) {
            Some(t) => Some(
                bad_range_text(
                    label,
                    t,
                    offsets[2 * t] as int,
                    offsets[2 * t + 1] as int,
                    max,
                ),
            ),
            None => None,
        }
    }
}

/// The offsets that are computed from sorted tile ids, over slots that start
/// out as zeros, have no error.
pub proof fn computed_offsets_are_valid(
    label: Seq<char>,
    ids: Seq<u32>,
    num_inter: int,
    num_tiles: int,
    before: Seq<u32>,
    after: Seq<u32>,
)
    requires
        0 <= num_inter <= ids.len(),
        0 <= num_tiles,
        get_tile_offset::is_sorted(ids, num_inter),
        before.len() == after.len(),
        2 * num_tiles <= before.len(),
        forall|k: int| 0 <= k < before.len() ==> #[trigger] before[k] == 0,
        get_tile_offset::writes_runs(ids, num_inter, num_tiles, before, after),
    ensures
        offsets_error(label, after, num_tiles, num_inter) is None,
{
    assert forall|t: int| 0 <= t < num_tiles implies !is_bad_range(after, t, num_inter) by {
        get_tile_offset::tile_runs_are_ranges(ids, num_inter, t);
        let lo = get_tile_offset::run_start(ids, num_inter, t);
        assert(before[2 * t] == 0 && before[2 * t + 1] == 0);
    }
    lemma_all_ranges_good(after, 0, num_tiles, num_inter);
}

proof fn lemma_all_ranges_good(offsets: Seq<u32>, from: int, n: int, max: int)
    requires
        forall|t: int| from <= t < n ==> !is_bad_range(offsets, t, max),
    ensures
        first_bad_range(offsets, from, n, max) is None,
    decreases n - from,
{
    if from < n {
        assert(!is_bad_range(offsets, from, max));
        lemma_all_ranges_good(offsets, from + 1, n, max);
    }
}

/// Without an error, every tile has a range inside the list.
pub proof fn valid_offsets_are_ranges(
    label: Seq<char>,
    offsets: Seq<u32>,
    n: int,
    max: int,
    t: int,
)
    requires
        offsets_error(label, offsets, n, max) is None,
        0 <= t < n,
    ensures
        2 * n <= offsets.len(),
        offsets[2 * t] <= offsets[2 * t + 1] <= max,
{
    lemma_no_bad_range(offsets, 0, n, max, t);
}

proof fn lemma_no_bad_range(offsets: Seq<u32>, from: int, n: int, max: int, t: int)
    requires
        first_bad_range(offsets, from, n, max) is None,
        from <= t < n,
    ensures
        !is_bad_range(offsets, t, max),
    decreases n - from,
{
    if from < t {
        lemma_no_bad_range(offsets, from + 1, n, max, t);
    }
}

/// Checks that the offsets hold a range for every tile, each in order and
/// inside the intersection list.
pub fn validate_offsets(
    label: &str,
    offsets: &[u32],
    num_tiles: usize,
    max_intersections: u32,
) -> (r: Result<(), String>)
    requires
        2 * num_tiles <= usize::MAX,
    ensures
        match r {
            Ok(()) => offsets_error(
                label@,
                offsets@,
                num_tiles as int,
                max_intersections as int,
            ) is None,
            Err(e) => offsets_error(
                label@,
                offsets@,
                num_tiles as int,
                max_intersections as int,
            ) == Some(e@),
        },
{
    if offsets.len() < num_tiles * 2 {
        let mut e: String = String::from_str(label);
        e.append(" tile offsets contain ");
        text::push_decimal(&mut e, offsets.len() as u64);
        e.append(" values, expected at least ");
        text::push_decimal(&mut e, (num_tiles * 2) as u64);
        return Err(e);
    }
    let mut tile_id: usize = 0;
    while tile_id < num_tiles
        invariant
            tile_id <= num_tiles,
            2 * num_tiles <= offsets.len(),
            first_bad_range(offsets@, 0, num_tiles as int, max_intersections as int)
                == first_bad_range(
                offsets@,
                tile_id as int,
                num_tiles as int,
                max_intersections as int,
            ),
        decreases num_tiles - tile_id,
    {
        let lo: u32 = offsets[tile_id * 2];
        let hi: u32 = offsets[tile_id * 2 + 1];
        if lo > hi || hi > max_intersections {
            let mut e: String = String::from_str(label);
            e.append(" tile ");
            text::push_decimal(&mut e, tile_id as u64);
            e.append(" has invalid range ");
            text::push_decimal(&mut e, lo as u64);
            e.append("..");
            text::push_decimal(&mut e, hi as u64);
            e.append(" for ");
            text::push_decimal(&mut e, max_intersections as u64);
            e.append(" intersections");
            return Err(e);
        }
        tile_id = tile_id + 1;
    }
    Ok(())
}

/// What a census reads: the launch geometry, the intersection list, and the
/// tile ranges before and after rasterization.
pub struct RasterCensusInput<'a> {
    pub request: RasterCensusRequest,
    pub img_size: UVec2,
    pub tile_bounds: UVec2,
    pub tile_width: u32,
    pub tile_height: u32,
    pub num_visible: u32,
    pub num_intersections: u32,
    pub pre_offsets: &'a [u32],
    pub post_offsets: &'a [u32],
    pub compact_gid_from_isect: &'a [u32],
    /// Number of projected splat values that were read back.
    pub projected_len: usize,
}

/// Fan-in of the splats: how many intersections survive for each.
#[derive(Clone, Copy, Debug, PartialEq, Eq, Structural)]
pub struct AtomicFanInSummary {
    pub distribution: DistributionSummary,
    pub one: usize,
    pub multiple: usize,
}

/// Totals over the sampled tiles.
#[derive(Clone, Copy, Debug, PartialEq, Eq, Structural)]
pub struct SampledRasterWorkload {
    pub requested_tiles: usize,
    pub sampled_tiles: usize,
    pub sampled_intersections: u64,
    pub potential_pairs: u64,
    pub evaluated_pairs: u64,
    pub early_skipped_pairs: u64,
    pub sigma_rejected_pairs: u64,
    pub cutoff_rejected_pairs: u64,
    pub early_terminated_pairs: u64,
    pub composited_pairs: u64,
    pub zero_contribution_intersections: u64,
    pub gpu_post_intersections: u64,
    pub cpu_post_intersections: u64,
    pub range_end_mismatches: usize,
    pub max_range_end_difference: u32,
    pub evaluated_fraction: Rate,
    pub rejection_rate: Rate,
    pub cutoff_rejection_rate: Rate,
    pub zero_contribution_rate: Rate,
}

/// The result of a census.
#[derive(Clone, Copy, Debug, PartialEq, Eq, Structural)]
pub struct RasterCensusReport {
    pub sequence: usize,
    pub image_width: u32,
    pub image_height: u32,
    pub tile_width: u32,
    pub tile_height: u32,
    pub tiles_x: u32,
    pub tiles_y: u32,
    pub visible_splats: u32,
    pub reserved_intersections: u32,
    pub valid_pre_intersections: u64,
    pub sentinel_intersections: u64,
    pub post_intersections: u64,
    pub occlusion_pruned_intersections: u64,
    pub pre_tile_occupancy: DistributionSummary,
    pub post_tile_occupancy: DistributionSummary,
    pub atomic_fan_in: AtomicFanInSummary,
    pub logical_atomic_writes_without_refine: u64,
    pub logical_atomic_writes_with_refine: u64,
    pub sampled: SampledRasterWorkload,
}

impl<'a> RasterCensusInput<'a> {
    pub open spec fn num_tiles(&self) -> int {
        self.tile_bounds.x * self.tile_bounds.y
    }

    /// Tile `t` starts in the image or at its border, and its extent fits the
    /// words that hold it.
    pub open spec fn tile_ok(&self, t: int) -> bool {
        &&& self.tile_left(t) + self.tile_width <= u32::MAX
        &&& self.tile_top(t) + self.tile_height <= u32::MAX
        &&& self.tile_left(t) <= self.img_size.x
        &&& self.tile_top(t) <= self.img_size.y
    }

    /// Every sampled tile starts in the image or at its border, and the pairs of
    /// the sample can be counted.
    pub open spec fn sample_ok(&self) -> bool {
        &&& forall|s: int|
            0 <= s < self.sample().len() ==> self.tile_ok(#[trigger] self.sample()[s])
        &&& sample_sum(sample_pairs(self), self.sample().len() as int) <= u64::MAX
    }

    /// The number of offsets that a frame needs can be counted, unless the frame
    /// is refused before.
    pub open spec fn countable(&self) -> bool {
        self.tile_width > 0 && self.tile_height > 0 && self.num_tiles() <= usize::MAX ==> 2
            * self.num_tiles() <= u64::MAX
    }

    /// What a frame must satisfy for its walk: tiles are numbered by 32 bits,
    /// and where no check refuses the frame, the sampled tiles touch the image.
    pub open spec fn fits(&self) -> bool {
        &&& self.countable()
        &&& shape_error(self) is None ==> self.num_tiles() <= u32::MAX
        &&& frame_error(self) is None ==> self.sample_ok()
    }

    /// The first column of pixels of tile `t`.
    pub open spec fn tile_left(&self, t: int) -> int {
        (t % (self.tile_bounds.x as int)) * self.tile_width
    }

    /// The first row of pixels of tile `t`.
    pub open spec fn tile_top(&self, t: int) -> int {
        (t / (self.tile_bounds.x as int)) * self.tile_height
    }

    /// Columns of pixels of tile `t`.
    pub open spec fn tile_columns(&self, t: int) -> int {
        smaller(self.tile_left(t) + self.tile_width, self.img_size.x as int) - self.tile_left(t)
    }

    /// Rows of pixels of tile `t`.
    pub open spec fn tile_rows(&self, t: int) -> int {
        smaller(self.tile_top(t) + self.tile_height, self.img_size.y as int) - self.tile_top(t)
    }

    /// Pixels of tile `t` that lie in the image.
    pub open spec fn tile_pixels(&self, t: int) -> int {
        self.tile_columns(t) * self.tile_rows(t)
    }

    /// Intersections of tile `t` before rasterization.
    pub open spec fn entries(&self, t: int) -> int {
        self.pre_offsets@[2 * t + 1] - self.pre_offsets@[2 * t]
    }

    /// The sampled tiles.
    pub open spec fn sample(&self) -> Seq<int> {
        chosen_tiles(self.num_tiles(), self.request.sample_tiles as int)
    }
}

pub open spec fn smaller(a: int, b: int) -> int {
    if a < b {
        a
    } else {
        b
    }
}

/// Report on a splat index past the visible ones.
pub open spec fn bad_gid_text(isect: int, gid: int, visible: int) -> Seq<char> {
    "intersection "@ + text::decimal_text(isect) + " references compact splat "@
        + text::decimal_text(gid) + ", but only "@ + text::decimal_text(visible) + " are visible"@
}

/// Report on a fan-in that does not fit its counter.
pub open spec fn fan_in_overflow_text(gid: int) -> Seq<char> {
    "atomic fan-in overflow for compact splat "@ + text::decimal_text(gid)
}

/// Report on a tile whose range after rasterization is no prefix of the range
/// before.
pub open spec fn changed_range_text(t: int, a: int, b: int, c: int, d: int) -> Seq<char> {
    "tile "@ + text::decimal_text(t) + " changed from "@ + text::decimal_text(a) + ".."@
        + text::decimal_text(b) + " to invalid post range "@ + text::decimal_text(c) + ".."@
        + text::decimal_text(d)
}

fn bad_gid_message(isect: u32, gid: u32, visible: u32) -> (e: String)
    ensures
        e@ == bad_gid_text(isect as int, gid as int, visible as int),
{
    let mut e: String = String::from_str("intersection ");
    text::push_decimal(&mut e, isect as u64);
    e.append(" references compact splat ");
    text::push_decimal(&mut e, gid as u64);
    e.append(", but only ");
    text::push_decimal(&mut e, visible as u64);
    e.append(" are visible");
    e
}

/// Counts the intersections `lo..hi` toward the fan-in of their splats.
pub open spec fn count_range(
    gids: Seq<u32>,
    visible: u32,
    lo: int,
    hi: int,
    fan: Seq<u32>,
) -> Result<Seq<u32>, Seq<char>>
    decreases hi - lo,
{
    if lo >= hi {
        Ok(fan)
    } else if gids[lo] >= visible {
        Err(bad_gid_text(lo, gids[lo] as int, visible as int))
    } else if fan[gids[lo] as int] == u32::MAX {
        Err(fan_in_overflow_text(gids[lo] as int))
    } else {
        count_range(
            gids,
            visible,
            lo + 1,
            hi,
            fan.update(gids[lo] as int, (fan[gids[lo] as int] + 1) as u32),
        )
    }
}

/// Counts the surviving intersections of the tiles `t..n`, each after its range
/// is checked.
pub open spec fn count_tiles(
    pre: Seq<u32>,
    post: Seq<u32>,
    gids: Seq<u32>,
    visible: u32,
    t: int,
    n: int,
    fan: Seq<u32>,
) -> Result<Seq<u32>, Seq<char>>
    decreases n - t,
{
    if t >= n {
        Ok(fan)
    } else if post[2 * t] != pre[2 * t] || post[2 * t + 1] < post[2 * t] || post[2 * t + 1] > pre[2
        * t + 1] {
        Err(
            changed_range_text(
                t,
                pre[2 * t] as int,
                pre[2 * t + 1] as int,
                post[2 * t] as int,
                post[2 * t + 1] as int,
            ),
        )
    } else {
        match count_range(gids, visible, post[2 * t] as int, post[2 * t + 1] as int, fan) {
            Err(e) => Err(e),
            Ok(f) => count_tiles(pre, post, gids, visible, t + 1, n, f),
        }
    }
}

/// A fan-in of zero for every visible splat.
pub open spec fn no_fan_in(visible: u32) -> Seq<u32> {
    Seq::new(visible as nat, |g: int| 0u32)
}

/// Lengths of the ranges of `n` tiles.
pub open spec fn occupancies(offsets: Seq<u32>, n: int) -> Seq<u32> {
    Seq::new(n as nat, |t: int| (offsets[2 * t + 1] - offsets[2 * t]) as u32)
}

/// Occupancy of the tiles and fan-in of the splats.
pub struct Occupancy {
    pub pre: Vec<u32>,
    pub post: Vec<u32>,
    pub fan_in: Vec<u32>,
}

proof fn lemma_sum_update(s: Seq<u32>, k: int, v: u32, hi: int)
    requires
        0 <= k < s.len(),
        0 <= hi <= s.len(),
    ensures
        sums::sum_range(s.update(k, v), 0, hi) == sums::sum_range(s, 0, hi) + if k < hi {
            v - s[k]
        } else {
            0
        },
    decreases hi,
{
    if hi > 0 {
        lemma_sum_update(s, k, v, hi - 1);
    }
}

/// Every surviving intersection counts once: the fan-in grows by the length of
/// the range.
pub proof fn range_fan_in_is_conserved(
    gids: Seq<u32>,
    visible: u32,
    lo: int,
    hi: int,
    fan: Seq<u32>,
)
    requires
        lo <= hi,
        fan.len() == visible,
        count_range(gids, visible, lo, hi, fan) is Ok,
    ensures
        ({
            let f = count_range(gids, visible, lo, hi, fan)->Ok_0;
            &&& f.len() == visible
            &&& sums::sum_range(f, 0, visible as int) == sums::sum_range(fan, 0, visible as int)
                + (hi - lo)
        }),
    decreases hi - lo,
{
    if lo < hi {
        let g = gids[lo] as int;
        let next = fan.update(g, (fan[g] + 1) as u32);
        lemma_sum_update(fan, g, (fan[g] + 1) as u32, visible as int);
        range_fan_in_is_conserved(gids, visible, lo + 1, hi, next);
    }
}

/// The fan-in of all splats adds up to the surviving intersections of all
/// tiles.
pub proof fn fan_in_is_conserved(
    pre: Seq<u32>,
    post: Seq<u32>,
    gids: Seq<u32>,
    visible: u32,
    t: int,
    n: int,
    fan: Seq<u32>,
)
    requires
        0 <= t <= n,
        2 * n <= post.len(),
        fan.len() == visible,
        count_tiles(pre, post, gids, visible, t, n, fan) is Ok,
    ensures
        ({
            let f = count_tiles(pre, post, gids, visible, t, n, fan)->Ok_0;
            &&& f.len() == visible
            &&& sums::sum_range(f, 0, visible as int) == sums::sum_range(fan, 0, visible as int)
                + sums::sum_range(occupancies(post, n), t, n)
        }),
    decreases n - t,
{
    if t < n {
        let lo = post[2 * t] as int;
        let hi = post[2 * t + 1] as int;
        range_fan_in_is_conserved(gids, visible, lo, hi, fan);
        let f = count_range(gids, visible, lo, hi, fan)->Ok_0;
        fan_in_is_conserved(pre, post, gids, visible, t + 1, n, f);
        sums::lemma_sum_split(occupancies(post, n), t, t + 1, n);
        assert(sums::sum_range(occupancies(post, n), t, t) == 0);
    }
}

/// Counts tile occupancy and splat fan-in.
fn count_occupancy(input: &RasterCensusInput<'_>, num_tiles: usize) -> (r: Result<Occupancy, String>)
    requires
        num_tiles <= u32::MAX,
        2 * num_tiles <= input.pre_offsets.len(),
        2 * num_tiles <= input.post_offsets.len(),
        input.num_intersections <= input.compact_gid_from_isect.len(),
        all_ranges(input.pre_offsets@, num_tiles as int, input.num_intersections as int),
        all_ranges(input.post_offsets@, num_tiles as int, input.num_intersections as int),
    ensures
        ({
            let counted = count_tiles(
                input.pre_offsets@,
                input.post_offsets@,
                input.compact_gid_from_isect@,
                input.num_visible,
                0,
                num_tiles as int,
                no_fan_in(input.num_visible),
            );
            match r {
                Err(e) => counted == Err::<Seq<u32>, Seq<char>>(e@),
                Ok(occ) => {
                    &&& counted == Ok::<Seq<u32>, Seq<char>>(occ.fan_in@)
                    &&& occ.fan_in.len() == input.num_visible
                    &&& occ.pre@ == occupancies(input.pre_offsets@, num_tiles as int)
                    &&& occ.post@ == occupancies(input.post_offsets@, num_tiles as int)
                    &&& forall|t: int|
                        0 <= t < num_tiles ==> #[trigger] occ.post[t] <= occ.pre[t]
                },
            }
        }),
{
    let ghost pre = input.pre_offsets@;
    let ghost post = input.post_offsets@;
    let ghost gids = input.compact_gid_from_isect@;
    let ghost n = num_tiles as int;
    let visible: u32 = input.num_visible;
    let ghost zeros = no_fan_in(visible);
    let mut pre_occ: Vec<u32> = Vec::new();
    let mut post_occ: Vec<u32> = Vec::new();
    let mut fan_in: Vec<u32> = vec![0u32; visible as usize];
    proof {
        assert(fan_in@ =~= zeros);
    }
    let mut tile_id: usize = 0;
    while tile_id < num_tiles
        invariant
            tile_id <= num_tiles,
            n == num_tiles,
            visible == input.num_visible,
            zeros == no_fan_in(visible),
            pre == input.pre_offsets@,
            post == input.post_offsets@,
            gids == input.compact_gid_from_isect@,
            num_tiles <= u32::MAX,
            2 * num_tiles <= input.pre_offsets.len(),
            2 * num_tiles <= input.post_offsets.len(),
            input.num_intersections <= input.compact_gid_from_isect.len(),
            all_ranges(pre, n, input.num_intersections as int),
            all_ranges(post, n, input.num_intersections as int),
            fan_in.len() == visible,
            pre_occ.len() == tile_id,
            post_occ.len() == tile_id,
            forall|t: int|
                0 <= t < tile_id ==> #[trigger] pre_occ[t] == (pre[2 * t + 1] - pre[2 * t]) as u32,
            forall|t: int|
                0 <= t < tile_id ==> #[trigger] post_occ[t] == (post[2 * t + 1] - post[2
                    * t]) as u32,
            forall|t: int| 0 <= t < tile_id ==> #[trigger] post_occ[t] <= pre_occ[t],
            count_tiles(pre, post, gids, visible, 0, n, zeros) == count_tiles(
                pre,
                post,
                gids,
                visible,
                tile_id as int,
                n,
                fan_in@,
            ),
        decreases num_tiles - tile_id,
    {
        let ghost ti = tile_id as int;
        let pre_lo: u32 = input.pre_offsets[tile_id * 2];
        let pre_hi: u32 = input.pre_offsets[tile_id * 2 + 1];
        let post_lo: u32 = input.post_offsets[tile_id * 2];
        let post_hi: u32 = input.post_offsets[tile_id * 2 + 1];
        proof {
            assert(pre_lo == pre[2 * ti] && pre_hi == pre[2 * ti + 1]);
            assert(post_lo == post[2 * ti] && post_hi == post[2 * ti + 1]);
            assert(!is_bad_range(pre, ti, input.num_intersections as int));
            assert(!is_bad_range(post, ti, input.num_intersections as int));
        }
        if post_lo != pre_lo || post_hi < post_lo || post_hi > pre_hi {
            let mut e: String = String::from_str("tile ");
            text::push_decimal(&mut e, tile_id as u64);
            e.append(" changed from ");
            text::push_decimal(&mut e, pre_lo as u64);
            e.append("..");
            text::push_decimal(&mut e, pre_hi as u64);
            e.append(" to invalid post range ");
            text::push_decimal(&mut e, post_lo as u64);
            e.append("..");
            text::push_decimal(&mut e, post_hi as u64);
            return Err(e);
        }
        pre_occ.push(pre_hi - pre_lo);
        post_occ.push(post_hi - post_lo);
        let ghost start = fan_in@;
        let mut isect_id: u32 = post_lo;
        while isect_id < post_hi
            invariant
                ti == tile_id,
                tile_id < num_tiles,
                n == num_tiles,
                visible == input.num_visible,
                zeros == no_fan_in(visible),
                pre == input.pre_offsets@,
                post == input.post_offsets@,
                gids == input.compact_gid_from_isect@,
                post_hi <= input.num_intersections,
                input.num_intersections <= input.compact_gid_from_isect.len(),
                post_lo <= isect_id <= post_hi,
                post_lo == post[2 * ti],
                post_hi == post[2 * ti + 1],
                post[2 * ti] == pre[2 * ti],
                post[2 * ti + 1] <= pre[2 * ti + 1],
                fan_in.len() == visible,
                count_range(gids, visible, post_lo as int, post_hi as int, start) == count_range(
                    gids,
                    visible,
                    isect_id as int,
                    post_hi as int,
                    fan_in@,
                ),
                count_tiles(pre, post, gids, visible, 0, n, zeros) == count_tiles(
                    pre,
                    post,
                    gids,
                    visible,
                    ti,
                    n,
                    start,
                ),
            decreases post_hi - isect_id,
        {
            let compact_gid: u32 = input.compact_gid_from_isect[isect_id as usize];
            if compact_gid >= visible {
                return Err(bad_gid_message(isect_id, compact_gid, visible));
            }
            let count: u32 = fan_in[compact_gid as usize];
            if count == u32::MAX {
                let mut e: String = String::from_str("atomic fan-in overflow for compact splat ");
                text::push_decimal(&mut e, compact_gid as u64);
                return Err(e);
            }
            fan_in.set(compact_gid as usize, count + 1);
            isect_id = isect_id + 1;
        }
        tile_id = tile_id + 1;
    }
    proof {
        assert(pre_occ@ =~= occupancies(pre, n));
        assert(post_occ@ =~= occupancies(post, n));
    }
    Ok(Occupancy { pre: pre_occ, post: post_occ, fan_in })
}

/// Sum of `f` over the first `k` sampled tiles.
pub open spec fn sample_sum(f: spec_fn(int) -> int, k: int) -> int
    decreases k,
{
    if k <= 0 {
        0
    } else {
        sample_sum(f, k - 1) + f(k - 1)
    }
}

/// Largest value of `f` over the first `k` sampled tiles, at least zero.
pub open spec fn sample_max(f: spec_fn(int) -> int, k: int) -> int
    decreases k,
{
    if k <= 0 {
        0
    } else if f(k - 1) > sample_max(f, k - 1) {
        f(k - 1)
    } else {
        sample_max(f, k - 1)
    }
}

proof fn lemma_sample_sum_monotone(f: spec_fn(int) -> int, a: int, b: int)
    requires
        0 <= a <= b,
        forall|s: int| 0 <= s < b ==> 0 <= #[trigger] f(s),
    ensures
        0 <= sample_sum(f, a) <= sample_sum(f, b),
    decreases b,
{
    if a < b {
        lemma_sample_sum_monotone(f, a, b - 1);
        assert(0 <= f(b - 1));
    } else if a > 0 {
        lemma_sample_sum_monotone(f, a - 1, a - 1);
        assert(0 <= f(a - 1));
    }
}

proof fn lemma_sample_sum_eq(f: spec_fn(int) -> int, g: spec_fn(int) -> int, k: int)
    requires
        forall|s: int| 0 <= s < k ==> #[trigger] f(s) == g(s),
    ensures
        sample_sum(f, k) == sample_sum(g, k),
    decreases k,
{
    if k > 0 {
        lemma_sample_sum_eq(f, g, k - 1);
        assert(f(k - 1) == g(k - 1));
    }
}

proof fn lemma_sample_sum_le(f: spec_fn(int) -> int, g: spec_fn(int) -> int, k: int)
    requires
        forall|s: int| 0 <= s < k ==> 0 <= #[trigger] f(s) <= g(s),
    ensures
        0 <= sample_sum(f, k) <= sample_sum(g, k),
    decreases k,
{
    if k > 0 {
        lemma_sample_sum_le(f, g, k - 1);
        assert(0 <= f(k - 1) <= g(k - 1));
    }
}

proof fn lemma_sample_sum_scaled(f: spec_fn(int) -> int, g: spec_fn(int) -> int, m: int, k: int)
    requires
        forall|s: int| 0 <= s < k ==> 0 <= #[trigger] f(s) <= g(s) * m,
    ensures
        sample_sum(f, k) <= sample_sum(g, k) * m,
    decreases k,
{
    if k > 0 {
        lemma_sample_sum_scaled(f, g, m, k - 1);
        let a = sample_sum(g, k - 1);
        let b = g(k - 1);
        assert(f(k - 1) <= g(k - 1) * m);
        assert((a + b) * m == a * m + b * m) by (nonlinear_arith);
    } else {
        assert(0 * m == 0) by (nonlinear_arith);
    }
}

/// Entries of the sampled tiles.
pub open spec fn sample_entries(input: &RasterCensusInput<'_>) -> spec_fn(int) -> int {
    |s: int| input.entries(input.sample()[s])
}

/// Pixel-splat pairs of the sampled tiles.
pub open spec fn sample_pairs(input: &RasterCensusInput<'_>) -> spec_fn(int) -> int {
    |s: int| input.entries(input.sample()[s]) * input.tile_pixels(input.sample()[s])
}

/// Intersections of the sampled tiles after rasterization.
pub open spec fn sample_post(input: &RasterCensusInput<'_>) -> spec_fn(int) -> int {
    |s: int|
        input.post_offsets@[2 * input.sample()[s] + 1] - input.post_offsets@[2 * input.sample()[s]]
}

/// Evaluated pairs of the sampled tiles.
pub open spec fn sample_evaluated(
    input: &RasterCensusInput<'_>,
    outcomes: Seq<Vec<PairOutcome>>,
) -> spec_fn(int) -> int {
    |s: int|
        raster_replay::evaluated_total(
            outcomes[s]@,
            input.entries(input.sample()[s]),
            input.tile_pixels(input.sample()[s]),
        )
}

/// Evaluated pairs of the sampled tiles with outcome `kind`.
pub open spec fn sample_outcome(
    input: &RasterCensusInput<'_>,
    outcomes: Seq<Vec<PairOutcome>>,
    kind: PairOutcome,
) -> spec_fn(int) -> int {
    |s: int|
        raster_replay::outcome_total(
            outcomes[s]@,
            input.entries(input.sample()[s]),
            input.tile_pixels(input.sample()[s]),
            kind,
        )
}

/// Idle entries of the sampled tiles.
pub open spec fn sample_idle(
    input: &RasterCensusInput<'_>,
    outcomes: Seq<Vec<PairOutcome>>,
) -> spec_fn(int) -> int {
    |s: int|
        counting::count_where(
            raster_replay::idle(
                outcomes[s]@,
                input.entries(input.sample()[s]),
                input.tile_pixels(input.sample()[s]),
            ),
            0,
            input.entries(input.sample()[s]),
        )
}

/// Entries of the sampled tiles up to the last that contributes.
pub open spec fn sample_reach(
    input: &RasterCensusInput<'_>,
    outcomes: Seq<Vec<PairOutcome>>,
) -> spec_fn(int) -> int {
    |s: int|
        raster_replay::reach(
            outcomes[s]@,
            input.entries(input.sample()[s]),
            input.tile_pixels(input.sample()[s]),
            input.entries(input.sample()[s]),
        )
}

/// Distance between the replayed and the rasterized end of the range of a
/// sampled tile.
pub open spec fn sample_gap(
    input: &RasterCensusInput<'_>,
    outcomes: Seq<Vec<PairOutcome>>,
) -> spec_fn(int) -> int {
    |s: int|
        {
            let d = input.pre_offsets@[2 * input.sample()[s]] + sample_reach(input, outcomes)(s)
                - input.post_offsets@[2 * input.sample()[s] + 1];
            if d < 0 {
                -d
            } else {
                d
            }
        }
}

/// One where the replayed and the rasterized ends differ, else zero.
pub open spec fn sample_mismatch(
    input: &RasterCensusInput<'_>,
    outcomes: Seq<Vec<PairOutcome>>,
) -> spec_fn(int) -> int {
    |s: int|
        if sample_gap(input, outcomes)(s) != 0 {
            1
        } else {
            0
        }
}

/// Report on recorded outcomes that do not cover the sampled pairs.
pub open spec fn uncovered_text() -> Seq<char> {
    "recorded outcomes do not cover the sampled pairs"@
}

/// What goes wrong when the sampled tiles from the `s`-th on are replayed.
pub open spec fn sample_error(
    input: &RasterCensusInput<'_>,
    outcomes: Seq<Vec<PairOutcome>>,
    s: int,
) -> Option<Seq<char>>
    decreases input.sample().len() - s,
{
    if s >= input.sample().len() {
        None
    } else {
        let t = input.sample()[s];
        if outcomes[s]@.len() != input.tile_pixels(t) * input.entries(t) {
            Some(uncovered_text())
        } else {
            match raster_replay::replay_error(
                outcomes[s]@,
                input.entries(t),
                input.compact_gid_from_isect@,
                input.pre_offsets@[2 * t] as int,
                input.num_visible,
                0,
                input.tile_pixels(t),
            ) {
                Some(i) => Some(
                    bad_gid_text(
                        i,
                        input.compact_gid_from_isect@[i] as int,
                        input.num_visible as int,
                    ),
                ),
                None => sample_error(input, outcomes, s + 1),
            }
        }
    }
}

/// The totals of the first `k` sampled tiles, without what is derived from
/// them.
pub open spec fn is_partial_sample(
    input: &RasterCensusInput<'_>,
    outcomes: Seq<Vec<PairOutcome>>,
    k: int,
    w: SampledRasterWorkload,
) -> bool {
    &&& w.sampled_intersections == sample_sum(sample_entries(input), k)
    &&& w.potential_pairs == sample_sum(sample_pairs(input), k)
    &&& w.gpu_post_intersections == sample_sum(sample_post(input), k)
    &&& w.evaluated_pairs == sample_sum(sample_evaluated(input, outcomes), k)
    &&& w.sigma_rejected_pairs == sample_sum(
        sample_outcome(input, outcomes, PairOutcome::SigmaRejected),
        k,
    )
    &&& w.cutoff_rejected_pairs == sample_sum(
        sample_outcome(input, outcomes, PairOutcome::CutoffRejected),
        k,
    )
    &&& w.early_terminated_pairs == sample_sum(
        sample_outcome(input, outcomes, PairOutcome::EarlyTerminated),
        k,
    )
    &&& w.composited_pairs == sample_sum(
        sample_outcome(input, outcomes, PairOutcome::Composited),
        k,
    )
    &&& w.zero_contribution_intersections == sample_sum(sample_idle(input, outcomes), k)
    &&& w.cpu_post_intersections == sample_sum(sample_reach(input, outcomes), k)
    &&& w.range_end_mismatches == sample_sum(sample_mismatch(input, outcomes), k)
    &&& w.max_range_end_difference == sample_max(sample_gap(input, outcomes), k)
}

/// The report on the sampled tiles.
pub open spec fn is_sample_report(
    input: &RasterCensusInput<'_>,
    outcomes: Seq<Vec<PairOutcome>>,
    w: SampledRasterWorkload,
) -> bool {
    &&& w.requested_tiles == input.request.sample_tiles
    &&& w.sampled_tiles == input.sample().len()
    &&& is_partial_sample(input, outcomes, input.sample().len() as int, w)
    &&& w.early_skipped_pairs == w.potential_pairs - w.evaluated_pairs
    &&& w.evaluated_fraction == (Rate {
        numerator: w.evaluated_pairs,
        denominator: w.potential_pairs,
    })
    &&& w.rejection_rate.numerator == w.sigma_rejected_pairs + w.cutoff_rejected_pairs
    &&& w.rejection_rate.denominator == w.evaluated_pairs
    &&& w.cutoff_rejection_rate == (Rate {
        numerator: w.cutoff_rejected_pairs,
        denominator: w.evaluated_pairs,
    })
    &&& w.zero_contribution_rate == (Rate {
        numerator: w.zero_contribution_intersections,
        denominator: w.sampled_intersections,
    })
}

/// The chosen tiles hold no more entries than all tiles together.
proof fn lemma_chosen_entries(
    input: &RasterCensusInput<'_>,
    n: int,
    requested: int,
    hi: int,
)
    requires
        0 <= hi <= n,
        2 * n <= input.pre_offsets@.len(),
        all_ranges(input.pre_offsets@, n, input.num_intersections as int),
    ensures
        ({
            let sel = chosen_below(n, requested, hi);
            sample_sum(|s: int| input.entries(sel[s]), sel.len() as int) <= sums::sum_range(
                occupancies(input.pre_offsets@, n),
                0,
                hi,
            )
        }),
    decreases hi,
{
    if hi > 0 {
        lemma_chosen_entries(input, n, requested, hi - 1);
        let rest = chosen_below(n, requested, hi - 1);
        let sel = chosen_below(n, requested, hi);
        let f = |s: int| input.entries(sel[s]);
        let g = |s: int| input.entries(rest[s]);
        let occ = occupancies(input.pre_offsets@, n);
        assert(!is_bad_range(input.pre_offsets@, hi - 1, input.num_intersections as int));
        assert(occ[hi - 1] == input.entries(hi - 1));
        lemma_sample_sum_eq(f, g, rest.len() as int);
        if is_chosen(n, requested, hi - 1) {
            assert(sample_sum(f, sel.len() as int) == sample_sum(f, rest.len() as int) + f(
                sel.len() - 1,
            ));
        }
    }
}

/// The pixels of a tile fit its extent and the image.
proof fn lemma_tile_geometry(input: &RasterCensusInput<'_>, t: int)
    requires
        input.tile_ok(t),
        0 <= t < input.num_tiles(),
    ensures
        ({
            let tx = t % (input.tile_bounds.x as int);
            let ty = t / (input.tile_bounds.x as int);
            &&& input.tile_bounds.x > 0
            &&& 0 <= tx < input.tile_bounds.x
            &&& 0 <= ty < input.tile_bounds.y
            &&& 0 <= tx * input.tile_width
            &&& 0 <= ty * input.tile_height
            &&& 0 <= input.tile_columns(t) <= u32::MAX
            &&& 0 <= input.tile_rows(t) <= u32::MAX
            &&& 0 <= input.tile_pixels(t) <= u64::MAX
        }),
{
    let bx = input.tile_bounds.x as int;
    let by = input.tile_bounds.y as int;
    let tw = input.tile_width as int;
    let th = input.tile_height as int;
    assert(bx > 0) by (nonlinear_arith)
        requires
            0 <= t < bx * by,
            bx >= 0,
            by >= 0,
    ;
    vstd::arithmetic::div_mod::lemma_fundamental_div_mod(t, bx);
    let tx = t % bx;
    let ty = t / bx;
    assert(0 <= ty < by) by (nonlinear_arith)
        requires
            t == bx * ty + tx,
            0 <= tx < bx,
            0 <= t < bx * by,
    ;
    assert(0 <= tx * tw && 0 <= ty * th) by (nonlinear_arith)
        requires
            0 <= tx,
            0 <= ty,
            0 <= tw,
            0 <= th,
    ;
    let cols = input.tile_columns(t);
    let rows = input.tile_rows(t);
    assert(0 <= cols * rows <= 0xffff_ffff * 0xffff_ffff) by (nonlinear_arith)
        requires
            0 <= cols <= 0xffff_ffff,
            0 <= rows <= 0xffff_ffff,
    ;
}

/// What holds of the input once its shape and its ranges are checked.
pub open spec fn is_checked(input: &RasterCensusInput<'_>) -> bool {
    let n = input.num_tiles();
    &&& input.sample_ok()
    &&& n <= u32::MAX
    &&& 2 * n <= input.pre_offsets@.len()
    &&& 2 * n <= input.post_offsets@.len()
    &&& input.num_intersections <= input.compact_gid_from_isect@.len()
    &&& all_ranges(input.pre_offsets@, n, input.num_intersections as int)
    &&& all_ranges(input.post_offsets@, n, input.num_intersections as int)
    &&& sums::sum_range(occupancies(input.pre_offsets@, n), 0, n) <= input.num_intersections
}

/// Bounds on the totals of the first `k` sampled tiles.
proof fn lemma_sample_bounds(input: &RasterCensusInput<'_>, k: int)
    requires
        is_checked(input),
        0 <= k <= input.sample().len(),
    ensures
        input.sample().len() <= u32::MAX,
        forall|s: int|
            0 <= s < input.sample().len() ==> 0 <= #[trigger] input.sample()[s]
                < input.num_tiles(),
        0 <= sample_sum(sample_entries(input), k) <= u32::MAX,
        0 <= sample_sum(sample_pairs(input), k) <= u64::MAX,
        0 <= sample_sum(sample_post(input), k) <= u64::MAX,
{
    let n = input.num_tiles();
    let m = input.request.sample_tiles as int;
    let sel = input.sample();
    assert(n >= 0) by (nonlinear_arith)
        requires
            n == input.tile_bounds.x * input.tile_bounds.y,
    ;
    lemma_chosen_below(n, m, n);
    lemma_chosen_entries(input, n, m, n);
    let full = sel.len() as int;
    let f = sample_entries(input);
    lemma_sample_sum_eq(f, |s: int| input.entries(sel[s]), full);
    assert forall|s: int| 0 <= s < full implies 0 <= #[trigger] f(s) by {
        assert(0 <= sel[s] < n);
        assert(!is_bad_range(input.pre_offsets@, sel[s], input.num_intersections as int));
    }
    lemma_sample_sum_monotone(f, k, full);
    let g = sample_pairs(input);
    assert forall|s: int| 0 <= s < full implies 0 <= #[trigger] g(s) by {
        let t = sel[s];
        assert(0 <= f(s));
        assert(input.tile_ok(input.sample()[s]));
        lemma_tile_geometry(input, t);
        let e = input.entries(t);
        let p = input.tile_pixels(t);
        assert(0 <= e * p) by (nonlinear_arith)
            requires
                0 <= e,
                0 <= p,
        ;
    }
    lemma_sample_sum_monotone(g, k, full);
    let h = sample_post(input);
    let one = |s: int| 1int;
    assert forall|s: int| 0 <= s < k implies 0 <= #[trigger] h(s) <= one(s) * 0xffff_ffff by {
        assert(0 <= sel[s] < n);
        assert(!is_bad_range(input.post_offsets@, sel[s], input.num_intersections as int));
    }
    lemma_sample_sum_scaled(h, one, 0xffff_ffff, k);
    lemma_sample_sum_monotone(h, 0, k);
    lemma_sample_sum_ones(k);
}

proof fn lemma_sample_sum_ones(k: int)
    requires
        0 <= k,
    ensures
        sample_sum(|s: int| 1int, k) == k,
    decreases k,
{
    if k > 0 {
        lemma_sample_sum_ones(k - 1);
    }
}

/// The part of a tile that lies in the image.
pub struct TileSpan {
    pub min_x: u32,
    pub min_y: u32,
    pub columns: u32,
    pub rows: u32,
}

/// Where a tile lies.
pub fn tile_span(input: &RasterCensusInput<'_>, tile_id: usize) -> (span: TileSpan)
    requires
        input.num_tiles() <= u32::MAX,
        tile_id < input.num_tiles(),
        input.tile_ok(tile_id as int),
    ensures
        span.min_x == input.tile_left(tile_id as int),
        span.min_y == input.tile_top(tile_id as int),
        span.columns == input.tile_columns(tile_id as int),
        span.rows == input.tile_rows(tile_id as int),
        span.min_x + span.columns <= u32::MAX,
        span.min_y + span.rows <= u32::MAX,
        span.columns * span.rows <= u64::MAX,
{
    proof {
        lemma_tile_geometry(input, tile_id as int);
    }
    let tile_x: u32 = tile_id as u32 % input.tile_bounds.x;
    let tile_y: u32 = tile_id as u32 / input.tile_bounds.x;
    let min_x: u32 = tile_x * input.tile_width;
    let min_y: u32 = tile_y * input.tile_height;
    let right: u32 = min_x + input.tile_width;
    let bottom: u32 = min_y + input.tile_height;
    let max_x: u32 = if right < input.img_size.x {
        right
    } else {
        input.img_size.x
    };
    let max_y: u32 = if bottom < input.img_size.y {
        bottom
    } else {
        input.img_size.y
    };
    TileSpan { min_x, min_y, columns: max_x - min_x, rows: max_y - min_y }
}

/// Pixels of a tile that lie in the image.
fn tile_pixel_count(input: &RasterCensusInput<'_>, tile_id: usize) -> (pixels: u64)
    requires
        input.num_tiles() <= u32::MAX,
        tile_id < input.num_tiles(),
        input.tile_ok(tile_id as int),
    ensures
        pixels == input.tile_pixels(tile_id as int),
{
    let span: TileSpan = tile_span(input, tile_id);
    assert(0 <= span.columns * span.rows) by (nonlinear_arith);
    span.columns as u64 * span.rows as u64
}

/// Adding the terms of the `k`-th tile to totals of the first `k` gives the
/// totals of the first `k + 1`.
proof fn lemma_partial_step(
    input: &RasterCensusInput<'_>,
    outs: Seq<Vec<PairOutcome>>,
    k: int,
    before: SampledRasterWorkload,
    after: SampledRasterWorkload,
)
    requires
        0 <= k,
        is_partial_sample(input, outs, k, before),
        after.sampled_intersections == before.sampled_intersections + sample_entries(input)(k),
        after.potential_pairs == before.potential_pairs + sample_pairs(input)(k),
        after.gpu_post_intersections == before.gpu_post_intersections + sample_post(input)(k),
        after.evaluated_pairs == before.evaluated_pairs + sample_evaluated(input, outs)(k),
        after.sigma_rejected_pairs == before.sigma_rejected_pairs + sample_outcome(
            input,
            outs,
            PairOutcome::SigmaRejected,
        )(k),
        after.cutoff_rejected_pairs == before.cutoff_rejected_pairs + sample_outcome(
            input,
            outs,
            PairOutcome::CutoffRejected,
        )(k),
        after.early_terminated_pairs == before.early_terminated_pairs + sample_outcome(
            input,
            outs,
            PairOutcome::EarlyTerminated,
        )(k),
        after.composited_pairs == before.composited_pairs + sample_outcome(
            input,
            outs,
            PairOutcome::Composited,
        )(k),
        after.zero_contribution_intersections == before.zero_contribution_intersections
            + sample_idle(input, outs)(k),
        after.cpu_post_intersections == before.cpu_post_intersections + sample_reach(input, outs)(
            k,
        ),
        after.range_end_mismatches == before.range_end_mismatches + sample_mismatch(input, outs)(
            k,
        ),
        after.max_range_end_difference == (if sample_gap(input, outs)(k)
            > before.max_range_end_difference {
            sample_gap(input, outs)(k)
        } else {
            before.max_range_end_difference as int
        }),
    ensures
        is_partial_sample(input, outs, k + 1, after),
{
}

/// The terms of a replayed tile.
spec fn are_tile_terms(
    input: &RasterCensusInput<'_>,
    outs: Seq<Vec<PairOutcome>>,
    k: int,
    tile: TileReplay,
) -> bool {
    &&& sample_evaluated(input, outs)(k) == tile.evaluated
    &&& sample_outcome(input, outs, PairOutcome::SigmaRejected)(k) == tile.sigma_rejected
    &&& sample_outcome(input, outs, PairOutcome::CutoffRejected)(k) == tile.cutoff_rejected
    &&& sample_outcome(input, outs, PairOutcome::EarlyTerminated)(k) == tile.early_terminated
    &&& sample_outcome(input, outs, PairOutcome::Composited)(k) == tile.composited
    &&& sample_idle(input, outs)(k) == tile.zero_contribution
    &&& sample_reach(input, outs)(k) == tile.post_entries
    &&& tile.evaluated <= sample_pairs(input)(k)
    &&& tile.sigma_rejected <= tile.evaluated
    &&& tile.cutoff_rejected <= tile.evaluated
    &&& tile.early_terminated <= tile.evaluated
    &&& tile.composited <= tile.evaluated
    &&& tile.zero_contribution <= sample_entries(input)(k)
    &&& tile.post_entries <= sample_entries(input)(k)
}

proof fn lemma_tile_terms(
    input: &RasterCensusInput<'_>,
    outs: Seq<Vec<PairOutcome>>,
    k: int,
    tile: TileReplay,
)
    requires
        is_checked(input),
        0 <= k < input.sample().len(),
        raster_replay::is_replay(
            outs[k]@,
            input.entries(input.sample()[k]),
            input.tile_pixels(input.sample()[k]),
            tile,
        ),
    ensures
        are_tile_terms(input, outs, k, tile),
{
    lemma_sample_bounds(input, k);
    let t = input.sample()[k];
    lemma_tile_geometry(input, t);
    assert(!is_bad_range(input.pre_offsets@, t, input.num_intersections as int));
    let o = outs[k]@;
    let n = input.entries(t);
    let pixels = input.tile_pixels(t);
    raster_replay::evaluated_is_at_most_potential(o, n, pixels);
    raster_replay::lemma_outcome_total_bounds(o, n, pixels, PairOutcome::SigmaRejected);
    raster_replay::lemma_outcome_total_bounds(o, n, pixels, PairOutcome::CutoffRejected);
    raster_replay::lemma_outcome_total_bounds(o, n, pixels, PairOutcome::EarlyTerminated);
    raster_replay::lemma_outcome_total_bounds(o, n, pixels, PairOutcome::Composited);
    counting::lemma_count_bounds(raster_replay::idle(o, n, pixels), 0, n);
    raster_replay::lemma_reach_bounds(o, n, pixels, n);
}

/// The totals of some tiles are ordered as the totals of all pairs are.
spec fn is_ordered_sample(w: SampledRasterWorkload, k: int) -> bool {
    &&& w.evaluated_pairs <= w.potential_pairs
    &&& w.sigma_rejected_pairs <= w.evaluated_pairs
    &&& w.cutoff_rejected_pairs <= w.evaluated_pairs
    &&& w.early_terminated_pairs <= w.evaluated_pairs
    &&& w.composited_pairs <= w.evaluated_pairs
    &&& w.zero_contribution_intersections <= w.sampled_intersections
    &&& w.cpu_post_intersections <= w.sampled_intersections
    &&& w.range_end_mismatches <= k
}

/// Adds one replayed tile to the totals.
fn add_tile(
    input: &RasterCensusInput<'_>,
    outcomes: &Vec<Vec<PairOutcome>>,
    k: usize,
    w: &mut SampledRasterWorkload,
    tile: TileReplay,
    entry_count: u32,
    pairs: u64,
    pre_lo: u32,
    post_lo: u32,
    post_hi: u32,
)
    requires
        is_checked(input),
        k < input.sample().len(),
        is_partial_sample(input, outcomes@, k as int, *old(w)),
        is_ordered_sample(*old(w), k as int),
        are_tile_terms(input, outcomes@, k as int, tile),
        entry_count == sample_entries(input)(k as int),
        pairs == sample_pairs(input)(k as int),
        post_lo <= post_hi,
        pre_lo == input.pre_offsets@[2 * input.sample()[k as int]],
        post_lo == input.post_offsets@[2 * input.sample()[k as int]],
        post_hi == input.post_offsets@[2 * input.sample()[k as int] + 1],
        pre_lo + entry_count <= u32::MAX,
    ensures
        is_partial_sample(input, outcomes@, k + 1, *final(w)),
        is_ordered_sample(*final(w), k + 1),
        final(w).requested_tiles == old(w).requested_tiles,
        final(w).sampled_tiles == old(w).sampled_tiles,
{
    let ghost before = *w;
    proof {
        lemma_sample_bounds(input, k + 1);
        assert(sample_post(input)(k as int) == post_hi - post_lo);
    }
    w.sampled_intersections = w.sampled_intersections + entry_count as u64;
    w.potential_pairs = w.potential_pairs + pairs;
    w.gpu_post_intersections = w.gpu_post_intersections + (post_hi - post_lo) as u64;
    w.evaluated_pairs = w.evaluated_pairs + tile.evaluated;
    w.sigma_rejected_pairs = w.sigma_rejected_pairs + tile.sigma_rejected;
    w.cutoff_rejected_pairs = w.cutoff_rejected_pairs + tile.cutoff_rejected;
    w.early_terminated_pairs = w.early_terminated_pairs + tile.early_terminated;
    w.composited_pairs = w.composited_pairs + tile.composited;
    w.zero_contribution_intersections = w.zero_contribution_intersections + tile.zero_contribution;
    w.cpu_post_intersections = w.cpu_post_intersections + tile.post_entries as u64;
    let cpu_post_hi: u32 = pre_lo + tile.post_entries;
    let difference: u32 = if cpu_post_hi > post_hi {
        cpu_post_hi - post_hi
    } else {
        post_hi - cpu_post_hi
    };
    assert(sample_gap(input, outcomes@)(k as int) == difference);
    assert(sample_mismatch(input, outcomes@)(k as int) == (if difference != 0 {
        1int
    } else {
        0int
    }));
    if difference != 0 {
        w.range_end_mismatches = w.range_end_mismatches + 1;
        if difference > w.max_range_end_difference {
            w.max_range_end_difference = difference;
        }
    }
    proof {
        lemma_partial_step(input, outcomes@, k as int, before, *w);
    }
}

/// Replays the sampled tiles against their recorded outcomes and totals them.
fn replay_sample(
    input: &RasterCensusInput<'_>,
    selected: &Vec<usize>,
    outcomes: &Vec<Vec<PairOutcome>>,
) -> (r: Result<SampledRasterWorkload, String>)
    requires
        is_checked(input),
        counting::as_positions(selected@) == input.sample(),
        outcomes.len() == input.sample().len(),
    ensures
        match r {
            Err(e) => sample_error(input, outcomes@, 0) == Some(e@),
            Ok(w) => sample_error(input, outcomes@, 0) is None && w.requested_tiles
                == input.request.sample_tiles && w.sampled_tiles == input.sample().len()
                && is_partial_sample(input, outcomes@, input.sample().len() as int, w)
                && is_ordered_sample(w, input.sample().len() as int),
        },
{
    let none: Rate = rate(0, 0);
    let mut w = SampledRasterWorkload {
        requested_tiles: input.request.sample_tiles,
        sampled_tiles: selected.len(),
        sampled_intersections: 0,
        potential_pairs: 0,
        evaluated_pairs: 0,
        early_skipped_pairs: 0,
        sigma_rejected_pairs: 0,
        cutoff_rejected_pairs: 0,
        early_terminated_pairs: 0,
        composited_pairs: 0,
        zero_contribution_intersections: 0,
        gpu_post_intersections: 0,
        cpu_post_intersections: 0,
        range_end_mismatches: 0,
        max_range_end_difference: 0,
        evaluated_fraction: none,
        rejection_rate: none,
        cutoff_rejection_rate: none,
        zero_contribution_rate: none,
    };
    let ghost sel = input.sample();
    let pre_len: usize = input.pre_offsets.len();
    let mut k: usize = 0;
    while k < selected.len()
        invariant
            is_checked(input),
            pre_len == input.pre_offsets@.len(),
            sel == input.sample(),
            counting::as_positions(selected@) == sel,
            selected.len() == sel.len(),
            outcomes.len() == sel.len(),
            k <= selected.len(),
            w.requested_tiles == input.request.sample_tiles,
            w.sampled_tiles == sel.len(),
            is_partial_sample(input, outcomes@, k as int, w),
            is_ordered_sample(w, k as int),
            sample_error(input, outcomes@, 0) == sample_error(input, outcomes@, k as int),
        decreases selected.len() - k,
    {
        let tile_id: usize = selected[k];
        let ghost t = tile_id as int;
        proof {
            assert(counting::as_positions(selected@)[k as int] == sel[k as int]);
            lemma_sample_bounds(input, k as int);
            lemma_tile_geometry(input, t);
            assert(!is_bad_range(input.pre_offsets@, t, input.num_intersections as int));
            assert(!is_bad_range(input.post_offsets@, t, input.num_intersections as int));
        }
        let pre_lo: u32 = input.pre_offsets[tile_id * 2];
        let pre_hi: u32 = input.pre_offsets[tile_id * 2 + 1];
        let post_lo: u32 = input.post_offsets[tile_id * 2];
        let post_hi: u32 = input.post_offsets[tile_id * 2 + 1];
        let entry_count: u32 = pre_hi - pre_lo;
        let valid_pixels: u64 = tile_pixel_count(input, tile_id);
        proof {
            lemma_sample_bounds(input, k + 1);
            assert(entry_count * valid_pixels == sample_pairs(input)(k as int));
            assert(entry_count * valid_pixels == valid_pixels * entry_count) by (nonlinear_arith);
        }
        let pairs: u64 = entry_count as u64 * valid_pixels;
        if outcomes[k].len() as u64 != pairs {
            return Err(String::from_str("recorded outcomes do not cover the sampled pairs"));
        }
        let replayed: Result<TileReplay, u32> = replay_tile(
            &outcomes[k],
            entry_count,
            valid_pixels,
            input.compact_gid_from_isect,
            pre_lo,
            input.num_visible,
        );
        match replayed {
            Err(isect) => {
                proof {
                    lemma_replay_error_in_range(
                        outcomes[k as int]@,
                        input.entries(t),
                        input.compact_gid_from_isect@,
                        pre_lo as int,
                        input.num_visible,
                        0,
                        input.tile_pixels(t),
                    );
                }
                let gid: u32 = input.compact_gid_from_isect[isect as usize];
                return Err(bad_gid_message(isect, gid, input.num_visible));
            },
            Ok(tile) => {
                proof {
                    lemma_tile_terms(input, outcomes@, k as int, tile);
                }
                add_tile(
                    input,
                    outcomes,
                    k,
                    &mut w,
                    tile,
                    entry_count,
                    pairs,
                    pre_lo,
                    post_lo,
                    post_hi,
                );
            },
        }
        k = k + 1;
    }
    Ok(w)
}

/// A replay only reports intersections of the tile.
proof fn lemma_replay_error_in_range(
    o: Seq<PairOutcome>,
    entries: int,
    gids: Seq<u32>,
    pre_lo: int,
    visible: u32,
    p: int,
    pixels: int,
)
    requires
        0 <= entries,
    ensures
        match raster_replay::replay_error(o, entries, gids, pre_lo, visible, p, pixels) {
            Some(i) => pre_lo <= i < pre_lo + entries,
            None => true,
        },
    decreases pixels - p,
{
    if p < pixels {
        raster_replay::lemma_stop_bounds(o, entries, p, 0);
        lemma_first_bad_in_range(
            gids,
            pre_lo,
            visible,
            0,
            raster_replay::stop(o, entries, p),
        );
        lemma_replay_error_in_range(o, entries, gids, pre_lo, visible, p + 1, pixels);
    }
}

proof fn lemma_first_bad_in_range(gids: Seq<u32>, pre_lo: int, visible: u32, from: int, hi: int)
    ensures
        match raster_replay::first_bad(gids, pre_lo, visible, from, hi) {
            Some(e) => from <= e < hi,
            None => true,
        },
    decreases hi - from,
{
    if from < hi {
        lemma_first_bad_in_range(gids, pre_lo, visible, from + 1, hi);
    }
}

/// Number of projected splat values that a census expects.
pub open spec fn expected_projected(input: &RasterCensusInput<'_>) -> int {
    input.num_visible * 9
}

/// What is wrong with the shape of the input, if anything.
pub open spec fn shape_error(input: &RasterCensusInput<'_>) -> Option<Seq<char>> {
    let n = input.num_tiles();
    let max = input.num_intersections as int;
    if input.tile_width == 0 || input.tile_height == 0 {
        Some("raster census tile dimensions must be at least 1"@)
    } else if n > usize::MAX {
        Some("tile count overflow"@)
    } else if let Some(e) = offsets_error("pre-raster"@, input.pre_offsets@, n, max) {
        Some(e)
    } else if let Some(e) = offsets_error("post-raster"@, input.post_offsets@, n, max) {
        Some(e)
    } else if input.projected_len < expected_projected(input) {
        Some(
            "projected splat readback contains "@ + text::decimal_text(input.projected_len as int)
                + " values, expected at least "@ + text::decimal_text(expected_projected(input)),
        )
    } else if input.compact_gid_from_isect@.len() < max {
        Some(
            "intersection readback contains "@ + text::decimal_text(
                input.compact_gid_from_isect@.len() as int,
            ) + " values, expected at least "@ + text::decimal_text(max),
        )
    } else {
        None
    }
}

/// The surviving fan-in of every splat, or the first range or index that is
/// wrong.
pub open spec fn counted_fan_in(input: &RasterCensusInput<'_>) -> Result<Seq<u32>, Seq<char>> {
    count_tiles(
        input.pre_offsets@,
        input.post_offsets@,
        input.compact_gid_from_isect@,
        input.num_visible,
        0,
        input.num_tiles(),
        no_fan_in(input.num_visible),
    )
}

/// Intersections of all tiles before rasterization.
pub open spec fn pre_total(input: &RasterCensusInput<'_>) -> int {
    sums::sum_range(occupancies(input.pre_offsets@, input.num_tiles()), 0, input.num_tiles())
}

/// Intersections of all tiles after rasterization.
pub open spec fn post_total(input: &RasterCensusInput<'_>) -> int {
    sums::sum_range(occupancies(input.post_offsets@, input.num_tiles()), 0, input.num_tiles())
}

/// What is wrong with a frame before any of its tiles is walked: the first of the
/// checks, in order, that does not hold.
pub open spec fn frame_error(input: &RasterCensusInput<'_>) -> Option<Seq<char>> {
    if let Some(e) = shape_error(input) {
        Some(e)
    } else if let Err(e) = counted_fan_in(input) {
        Some(e)
    } else if pre_total(input) > input.num_intersections {
        Some(
            "valid tile ranges contain "@ + text::decimal_text(pre_total(input))
                + " intersections, exceeding the reserved "@ + text::decimal_text(
                input.num_intersections as int,
            ),
        )
    } else {
        None
    }
}

/// What a census fails with, if it fails: the first of the checks, in order,
/// that does not hold.
pub open spec fn census_error(
    input: &RasterCensusInput<'_>,
    outcomes: Seq<Vec<PairOutcome>>,
) -> Option<Seq<char>> {
    if let Some(e) = frame_error(input) {
        Some(e)
    } else if outcomes.len() != input.sample().len() {
        Some(uncovered_text())
    } else {
        sample_error(input, outcomes, 0)
    }
}

/// Splats with a fan-in above one.
pub open spec fn above_one(fan: Seq<u32>) -> spec_fn(int) -> bool {
    |g: int| fan[g] > 1
}

/// What a successful census reports.
pub open spec fn is_report(
    input: &RasterCensusInput<'_>,
    outcomes: Seq<Vec<PairOutcome>>,
    r: RasterCensusReport,
) -> bool {
    let n = input.num_tiles();
    let fan = counted_fan_in(input)->Ok_0;
    &&& r.sequence == input.request.sequence
    &&& r.image_width == input.img_size.x
    &&& r.image_height == input.img_size.y
    &&& r.tile_width == input.tile_width
    &&& r.tile_height == input.tile_height
    &&& r.tiles_x == input.tile_bounds.x
    &&& r.tiles_y == input.tile_bounds.y
    &&& r.visible_splats == input.num_visible
    &&& r.reserved_intersections == input.num_intersections
    &&& r.valid_pre_intersections == pre_total(input)
    &&& r.sentinel_intersections == input.num_intersections - pre_total(input)
    &&& r.post_intersections == post_total(input)
    &&& r.occlusion_pruned_intersections == pre_total(input) - post_total(input)
    &&& is_summary(occupancies(input.pre_offsets@, n), r.pre_tile_occupancy)
    &&& is_summary(occupancies(input.post_offsets@, n), r.post_tile_occupancy)
    &&& is_summary(fan, r.atomic_fan_in.distribution)
    &&& r.atomic_fan_in.one == count_value(fan, 1)
    &&& r.atomic_fan_in.multiple == counting::count_where(above_one(fan), 0, fan.len() as int)
    &&& r.logical_atomic_writes_without_refine == post_total(input) * 9
    &&& r.logical_atomic_writes_with_refine == post_total(input) * 10
    &&& is_sample_report(input, outcomes, r.sampled)
}

fn check_shape(input: &RasterCensusInput<'_>) -> (r: Result<usize, String>)
    requires
        input.countable(),
    ensures
        match r {
            Err(e) => shape_error(input) == Some(e@),
            Ok(n) => {
                &&& shape_error(input) is None
                &&& n == input.num_tiles()
                &&& 2 * n <= input.pre_offsets@.len()
                &&& 2 * n <= input.post_offsets@.len()
                &&& input.num_intersections <= input.compact_gid_from_isect@.len()
                &&& all_ranges(input.pre_offsets@, n as int, input.num_intersections as int)
                &&& all_ranges(input.post_offsets@, n as int, input.num_intersections as int)
            },
        },
{
    if input.tile_width == 0 || input.tile_height == 0 {
        return Err(String::from_str("raster census tile dimensions must be at least 1"));
    }
    let num_tiles: usize = match (input.tile_bounds.x as usize).checked_mul(
        input.tile_bounds.y as usize,
    ) {
        Some(n) => n,
        None => {
            return Err(String::from_str("tile count overflow"));
        },
    };
    assert(num_tiles == input.num_tiles());
    if num_tiles > usize::MAX / 2 {
        assert(input.pre_offsets@.len() == input.pre_offsets.len());
        let mut e: String = String::from_str("pre-raster");
        e.append(" tile offsets contain ");
        text::push_decimal(&mut e, input.pre_offsets.len() as u64);
        e.append(" values, expected at least ");
        text::push_decimal(&mut e, num_tiles as u64 * 2);
        return Err(e);
    }
    match validate_offsets("pre-raster", input.pre_offsets, num_tiles, input.num_intersections) {
        Err(e) => {
            return Err(e);
        },
        Ok(()) => {},
    }
    match validate_offsets("post-raster", input.post_offsets, num_tiles, input.num_intersections) {
        Err(e) => {
            return Err(e);
        },
        Ok(()) => {},
    }
    let expected: u64 = input.num_visible as u64 * PROJECTED_LANES as u64;
    if (input.projected_len as u64) < expected {
        let mut e: String = String::from_str("projected splat readback contains ");
        text::push_decimal(&mut e, input.projected_len as u64);
        e.append(" values, expected at least ");
        text::push_decimal(&mut e, expected);
        return Err(e);
    }
    if (input.compact_gid_from_isect.len() as u64) < input.num_intersections as u64 {
        let mut e: String = String::from_str("intersection readback contains ");
        text::push_decimal(&mut e, input.compact_gid_from_isect.len() as u64);
        e.append(" values, expected at least ");
        text::push_decimal(&mut e, input.num_intersections as u64);
        return Err(e);
    }
    proof {
        let n = num_tiles as int;
        let max = input.num_intersections as int;
        assert forall|t: int| 0 <= t < n implies !#[trigger] is_bad_range(
            input.pre_offsets@,
            t,
            max,
        ) by {
            valid_offsets_are_ranges("pre-raster"@, input.pre_offsets@, n, max, t);
        }
        assert forall|t: int| 0 <= t < n implies !#[trigger] is_bad_range(
            input.post_offsets@,
            t,
            max,
        ) by {
            valid_offsets_are_ranges("post-raster"@, input.post_offsets@, n, max, t);
        }
    }
    Ok(num_tiles)
}

/// Sum of a list of counts of at most 2^32 values.
fn total_of(values: &Vec<u32>) -> (total: u64)
    requires
        values.len() <= u32::MAX,
    ensures
        total == sums::sum_range(values@, 0, values.len() as int),
{
    let mut total: u64 = 0;
    let mut i: usize = 0;
    while i < values.len()
        invariant
            i <= values.len(),
            values.len() <= u32::MAX,
            total == sums::sum_range(values@, 0, i as int),
            total <= i * 0xffff_ffff,
        decreases values.len() - i,
    {
        total = total + values[i] as u64;
        i = i + 1;
    }
    total
}

/// Splats with a fan-in of one, and of more than one.
fn count_fan_in(fan_in: &Vec<u32>) -> (r: (usize, usize))
    ensures
        r.0 == count_value(fan_in@, 1),
        r.1 == counting::count_where(above_one(fan_in@), 0, fan_in.len() as int),
{
    let ghost c = value_classes(fan_in@);
    let mut one: usize = 0;
    let mut multiple: usize = 0;
    let mut g: usize = 0;
    while g < fan_in.len()
        invariant
            g <= fan_in.len(),
            c == value_classes(fan_in@),
            one <= g,
            multiple <= g,
            one == counting::count_class(c, 1, 0, g as int),
            multiple == counting::count_where(above_one(fan_in@), 0, g as int),
        decreases fan_in.len() - g,
    {
        if fan_in[g] == 1 {
            one = one + 1;
        }
        if fan_in[g] > 1 {
            multiple = multiple + 1;
        }
        g = g + 1;
    }
    (one, multiple)
}

proof fn lemma_sum_le(a: Seq<u32>, b: Seq<u32>, hi: int)
    requires
        forall|i: int| 0 <= i < hi ==> #[trigger] a[i] <= b[i],
    ensures
        sums::sum_range(a, 0, hi) <= sums::sum_range(b, 0, hi),
    decreases hi,
{
    if hi > 0 {
        lemma_sum_le(a, b, hi - 1);
        assert(a[hi - 1] <= b[hi - 1]);
    }
}

/// The four outcomes of the first `k` sampled tiles add up to the evaluated
/// pairs.
pub proof fn sampled_outcomes_add_up(
    input: &RasterCensusInput<'_>,
    outcomes: Seq<Vec<PairOutcome>>,
    k: int,
)
    requires
        is_checked(input),
        0 <= k <= input.sample().len(),
    ensures
        sample_sum(sample_outcome(input, outcomes, PairOutcome::SigmaRejected), k) + sample_sum(
            sample_outcome(input, outcomes, PairOutcome::CutoffRejected),
            k,
        ) + sample_sum(sample_outcome(input, outcomes, PairOutcome::EarlyTerminated), k)
            + sample_sum(sample_outcome(input, outcomes, PairOutcome::Composited), k)
            == sample_sum(sample_evaluated(input, outcomes), k),
    decreases k,
{
    if k > 0 {
        sampled_outcomes_add_up(input, outcomes, k - 1);
        lemma_sample_bounds(input, k);
        let t = input.sample()[k - 1];
        assert(!is_bad_range(input.pre_offsets@, t, input.num_intersections as int));
        raster_replay::outcomes_add_up(
            outcomes[k - 1]@,
            input.entries(t),
            input.tile_pixels(t),
        );
    }
}

/// Derived figures of the sampled tiles.
fn finish_sample(
    input: &RasterCensusInput<'_>,
    outcomes: &Vec<Vec<PairOutcome>>,
    totals: SampledRasterWorkload,
) -> (w: SampledRasterWorkload)
    requires
        is_checked(input),
        totals.requested_tiles == input.request.sample_tiles,
        totals.sampled_tiles == input.sample().len(),
        is_partial_sample(input, outcomes@, input.sample().len() as int, totals),
        is_ordered_sample(totals, input.sample().len() as int),
    ensures
        is_sample_report(input, outcomes@, w),
{
    let mut w: SampledRasterWorkload = totals;
    proof {
        sampled_outcomes_add_up(input, outcomes@, input.sample().len() as int);
    }
    w.early_skipped_pairs = w.potential_pairs - w.evaluated_pairs;
    w.evaluated_fraction = rate(w.evaluated_pairs, w.potential_pairs);
    w.rejection_rate = rate(w.sigma_rejected_pairs + w.cutoff_rejected_pairs, w.evaluated_pairs);
    w.cutoff_rejection_rate = rate(w.cutoff_rejected_pairs, w.evaluated_pairs);
    w.zero_contribution_rate = rate(w.zero_contribution_intersections, w.sampled_intersections);
    w
}

/// What the checks of a frame leave behind.
pub(crate) struct CheckedFrame {
    pub num_tiles: usize,
    pub occupancy: Occupancy,
    pub pre: u64,
    pub post: u64,
}

/// A frame that passed its checks, with the counts that they made.
pub(crate) open spec fn is_checked_frame(input: &RasterCensusInput<'_>, frame: CheckedFrame) -> bool {
    let n = input.num_tiles();
    &&& frame_error(input) is None
    &&& frame.num_tiles == n
    &&& n <= u32::MAX
    &&& frame.occupancy.pre@ == occupancies(input.pre_offsets@, n)
    &&& frame.occupancy.post@ == occupancies(input.post_offsets@, n)
    &&& counted_fan_in(input) == Ok::<Seq<u32>, Seq<char>>(frame.occupancy.fan_in@)
    &&& frame.occupancy.fan_in.len() == input.num_visible
    &&& forall|t: int|
        0 <= t < n ==> #[trigger] frame.occupancy.post[t] <= frame.occupancy.pre[t]
    &&& frame.pre == pre_total(input)
    &&& frame.post == post_total(input)
    &&& input.projected_len >= expected_projected(input)
    &&& 2 * n <= input.pre_offsets@.len()
    &&& 2 * n <= input.post_offsets@.len()
    &&& input.num_intersections <= input.compact_gid_from_isect@.len()
    &&& all_ranges(input.pre_offsets@, n, input.num_intersections as int)
    &&& all_ranges(input.post_offsets@, n, input.num_intersections as int)
}

/// Checks a frame before any of its tiles is walked.
pub(crate) fn check_frame(input: &RasterCensusInput<'_>) -> (r: Result<CheckedFrame, String>)
    requires
        input.countable(),
        shape_error(input) is None ==> input.num_tiles() <= u32::MAX,
    ensures
        match r {
            Err(e) => frame_error(input) == Some(e@),
            Ok(frame) => is_checked_frame(input, frame),
        },
{
    let num_tiles: usize = match check_shape(input) {
        Err(e) => {
            return Err(e);
        },
        Ok(n) => n,
    };
    let occ: Occupancy = match count_occupancy(input, num_tiles) {
        Err(e) => {
            return Err(e);
        },
        Ok(occ) => occ,
    };
    let valid_pre: u64 = total_of(&occ.pre);
    let post: u64 = total_of(&occ.post);
    if valid_pre > input.num_intersections as u64 {
        let mut e: String = String::from_str("valid tile ranges contain ");
        text::push_decimal(&mut e, valid_pre);
        e.append(" intersections, exceeding the reserved ");
        text::push_decimal(&mut e, input.num_intersections as u64);
        return Err(e);
    }
    Ok(CheckedFrame { num_tiles, occupancy: occ, pre: valid_pre, post })
}

/// Reports on a frame that passed its checks.
pub(crate) fn report_frame(
    input: &RasterCensusInput<'_>,
    frame: CheckedFrame,
    outcomes: &Vec<Vec<PairOutcome>>,
) -> (r: Result<RasterCensusReport, String>)
    requires
        input.fits(),
        is_checked_frame(input, frame),
    ensures
        match r {
            Err(e) => census_error(input, outcomes@) == Some(e@),
            Ok(report) => census_error(input, outcomes@) is None && is_report(
                input,
                outcomes@,
                report,
            ),
        },
{
    let num_tiles: usize = frame.num_tiles;
    let occ: Occupancy = frame.occupancy;
    let valid_pre: u64 = frame.pre;
    let post: u64 = frame.post;
    let ghost n = num_tiles as int;
    assert(is_checked(input));
    let selected: Vec<usize> = select_tiles(num_tiles, input.request.sample_tiles);
    proof {
        assert(counting::as_positions(selected@).len() == selected.len());
    }
    if outcomes.len() != selected.len() {
        return Err(String::from_str("recorded outcomes do not cover the sampled pairs"));
    }
    let totals: SampledRasterWorkload = match replay_sample(input, &selected, outcomes) {
        Err(e) => {
            return Err(e);
        },
        Ok(w) => w,
    };
    let sampled: SampledRasterWorkload = finish_sample(input, outcomes, totals);
    proof {
        lemma_sum_le(occ.post@, occ.pre@, n);
        fan_in_is_conserved(
            input.pre_offsets@,
            input.post_offsets@,
            input.compact_gid_from_isect@,
            input.num_visible,
            0,
            n,
            no_fan_in(input.num_visible),
        );
        sums::lemma_sum_zero(no_fan_in(input.num_visible), 0, input.num_visible as int);
    }
    let fan_counts: (usize, usize) = count_fan_in(&occ.fan_in);
    let atomic_fan_in = AtomicFanInSummary {
        distribution: summarize(&occ.fan_in),
        one: fan_counts.0,
        multiple: fan_counts.1,
    };
    Ok(
        RasterCensusReport {
            sequence: input.request.sequence,
            image_width: input.img_size.x,
            image_height: input.img_size.y,
            tile_width: input.tile_width,
            tile_height: input.tile_height,
            tiles_x: input.tile_bounds.x,
            tiles_y: input.tile_bounds.y,
            visible_splats: input.num_visible,
            reserved_intersections: input.num_intersections,
            valid_pre_intersections: valid_pre,
            sentinel_intersections: input.num_intersections as u64 - valid_pre,
            post_intersections: post,
            occlusion_pruned_intersections: valid_pre - post,
            pre_tile_occupancy: summarize(&occ.pre),
            post_tile_occupancy: summarize(&occ.post),
            atomic_fan_in,
            logical_atomic_writes_without_refine: post * 9,
            logical_atomic_writes_with_refine: post * 10,
            sampled,
        },
    )
}

/// Whether a tile starts in the image or at its border.
fn tile_fits(input: &RasterCensusInput<'_>, tile_id: usize) -> (r: bool)
    requires
        input.num_tiles() <= u32::MAX,
        tile_id < input.num_tiles(),
    ensures
        r == input.tile_ok(tile_id as int),
{
    let ghost t = tile_id as int;
    let ghost bx = input.tile_bounds.x as int;
    let ghost by = input.tile_bounds.y as int;
    proof {
        assert(bx > 0) by (nonlinear_arith)
            requires
                0 <= t < bx * by,
                bx >= 0,
                by >= 0,
        ;
    }
    let tile_x: u64 = (tile_id as u32 % input.tile_bounds.x) as u64;
    let tile_y: u64 = (tile_id as u32 / input.tile_bounds.x) as u64;
    let width: u64 = input.tile_width as u64;
    let height: u64 = input.tile_height as u64;
    proof {
        assert(0 <= tile_x * width <= 0xffff_ffff * 0xffff_ffff && 0 <= tile_y * height
            <= 0xffff_ffff * 0xffff_ffff) by (nonlinear_arith)
            requires
                0 <= tile_x <= 0xffff_ffff,
                0 <= tile_y <= 0xffff_ffff,
                0 <= width <= 0xffff_ffff,
                0 <= height <= 0xffff_ffff,
        ;
    }
    let left: u64 = tile_x * width;
    let top: u64 = tile_y * height;
    let max: u64 = u32::MAX as u64;
    if left + width > max || top + height > max || left > input.img_size.x as u64 || top
        > input.img_size.y as u64 {
        return false;
    }
    true
}

/// The pairs of the first `k` sampled tiles are some of the sample's.
proof fn lemma_pairs_grow(input: &RasterCensusInput<'_>, k: int)
    requires
        input.sample_ok(),
        all_ranges(input.pre_offsets@, input.num_tiles(), input.num_intersections as int),
        0 <= k <= input.sample().len(),
    ensures
        sample_sum(sample_pairs(input), k) <= u64::MAX,
{
    let n = input.num_tiles();
    assert(n >= 0) by (nonlinear_arith)
        requires
            n == input.tile_bounds.x * input.tile_bounds.y,
    ;
    lemma_chosen_below(n, input.request.sample_tiles as int, n);
    let g = sample_pairs(input);
    assert forall|s: int| 0 <= s < input.sample().len() implies 0 <= #[trigger] g(s) by {
        let t = input.sample()[s];
        lemma_tile_geometry(input, t);
        assert(!is_bad_range(input.pre_offsets@, t, input.num_intersections as int));
        let e = input.entries(t);
        let p = input.tile_pixels(t);
        assert(0 <= e * p) by (nonlinear_arith)
            requires
                0 <= e,
                0 <= p,
        ;
    }
    lemma_sample_sum_monotone(g, k, input.sample().len() as int);
}

/// Whether a frame is refused by its checks or can be walked.
pub fn frame_fits(input: &RasterCensusInput<'_>) -> (r: bool)
    ensures
        r == input.fits(),
{
    if input.tile_width > 0 && input.tile_height > 0 {
        match (input.tile_bounds.x as usize).checked_mul(input.tile_bounds.y as usize) {
            Some(n) => {
                assert(n == input.num_tiles());
                if n as u64 > u64::MAX / 2 {
                    return false;
                }
            },
            None => {},
        }
    }
    match check_shape(input) {
        Err(_) => {
            return true;
        },
        Ok(n) => {
            if n as u64 > u32::MAX as u64 {
                return false;
            }
        },
    }
    let frame: CheckedFrame = match check_frame(input) {
        Err(_) => {
            return true;
        },
        Ok(frame) => frame,
    };
    let selected: Vec<usize> = select_tiles(frame.num_tiles, input.request.sample_tiles);
    let ghost sel = input.sample();
    proof {
        assert(counting::as_positions(selected@) == sel);
    }
    let pre_len: usize = input.pre_offsets.len();
    let mut pairs: u64 = 0;
    let mut k: usize = 0;
    while k < selected.len()
        invariant
            k <= selected.len(),
            input.num_tiles() <= u32::MAX,
            frame_error(input) is None,
            sel == input.sample(),
            counting::as_positions(selected@) == sel,
            selected.len() == sel.len(),
            forall|j: int| 0 <= j < selected.len() ==> #[trigger] selected[j] < input.num_tiles(),
            forall|j: int| 0 <= j < k ==> input.tile_ok(#[trigger] sel[j]),
            pre_len == input.pre_offsets@.len(),
            2 * input.num_tiles() <= pre_len,
            all_ranges(input.pre_offsets@, input.num_tiles(), input.num_intersections as int),
            pairs == sample_sum(sample_pairs(input), k as int),
        decreases selected.len() - k,
    {
        let tile_id: usize = selected[k];
        let ghost t = tile_id as int;
        assert(counting::as_positions(selected@)[k as int] == sel[k as int]);
        if !tile_fits(input, tile_id) {
            assert(!input.tile_ok(input.sample()[k as int]));
            return false;
        }
        proof {
            lemma_tile_geometry(input, t);
            assert(!is_bad_range(input.pre_offsets@, t, input.num_intersections as int));
        }
        let entries: u64 = (input.pre_offsets[tile_id * 2 + 1] - input.pre_offsets[tile_id * 2]) as u64;
        let more: Option<u64> = match entries.checked_mul(tile_pixel_count(input, tile_id)) {
            Some(p) => pairs.checked_add(p),
            None => None,
        };
        match more {
            Some(total) => {
                pairs = total;
            },
            None => {
                proof {
                    if input.sample_ok() {
                        lemma_pairs_grow(input, k + 1);
                    }
                    assert(!input.sample_ok());
                }
                return false;
            },
        }
        k = k + 1;
    }
    true
}

/// Analyzes one rasterized frame.
///
/// `outcomes` records, for each sampled tile in ascending order, what became of
/// its pairs: one row of outcomes per pixel of the tile in the image, rows of
/// pixels from top to bottom, entries in the order of the tile's range. Entries
/// behind one that terminates a pixel are not read.
pub fn analyze_outcomes(
    input: &RasterCensusInput<'_>,
    outcomes: &Vec<Vec<PairOutcome>>,
) -> (r: Result<RasterCensusReport, String>)
    requires
        input.fits(),
    ensures
        match r {
            Err(e) => census_error(input, outcomes@) == Some(e@),
            Ok(report) => census_error(input, outcomes@) is None && is_report(
                input,
                outcomes@,
                report,
            ),
        },
{
    match check_frame(input) {
        Err(e) => Err(e),
        Ok(frame) => report_frame(input, frame, outcomes),
    }
}

/// The index of a percentile is the first that enough of the list lies at or
/// before: so many values are at least that share of it, and one fewer are not.
pub proof fn percentile_is_the_nearest_rank(len: int, percent: int)
    requires
        0 < len,
        1 <= percent <= 100,
    ensures
        0 <= percentile_index(len, percent) < len,
        100 * (percentile_index(len, percent) + 1) >= len * percent,
        100 * percentile_index(len, percent) < len * percent,
{
    let n = len * percent;
    assert(1 <= n <= 100 * len) by (nonlinear_arith)
        requires
            n == len * percent,
            0 < len,
            1 <= percent <= 100,
    ;
}

/// Pixel `(x, y)` lies in tile `t`.
pub open spec fn tile_holds(input: &RasterCensusInput<'_>, t: int, x: int, y: int) -> bool {
    &&& input.tile_left(t) <= x < input.tile_left(t) + input.tile_columns(t)
    &&& input.tile_top(t) <= y < input.tile_top(t) + input.tile_rows(t)
}

/// Tiles that cover an image divide it: each of its pixels lies in one of them,
/// and in no other.
pub proof fn tiles_divide_the_image(input: &RasterCensusInput<'_>, x: int, y: int)
    requires
        0 < input.tile_width,
        0 < input.tile_height,
        input.img_size.x <= input.tile_bounds.x * input.tile_width,
        input.img_size.y <= input.tile_bounds.y * input.tile_height,
        0 <= x < input.img_size.x,
        0 <= y < input.img_size.y,
    ensures
        exists|t: int| 0 <= t < input.num_tiles() && #[trigger] tile_holds(input, t, x, y),
        forall|t: int, u: int|
            0 <= t < input.num_tiles() && 0 <= u < input.num_tiles() && #[trigger] tile_holds(
                input,
                t,
                x,
                y,
            ) && #[trigger] tile_holds(input, u, x, y) ==> t == u,
{
    let (tw, th) = (input.tile_width as int, input.tile_height as int);
    let (bx, by) = (input.tile_bounds.x as int, input.tile_bounds.y as int);
    let (col, row) = (x / tw, y / th);
    lemma_place(x, tw, bx, col);
    lemma_place(y, th, by, row);
    let t = row * bx + col;
    assert(0 <= t < bx * by) by (nonlinear_arith)
        requires
            t == row * bx + col,
            0 <= row < by,
            0 <= col < bx,
    ;
    vstd::arithmetic::div_mod::lemma_fundamental_div_mod_converse(t, bx, row, col);
    assert(tile_holds(input, t, x, y));
    assert forall|t: int, u: int|
        0 <= t < input.num_tiles() && 0 <= u < input.num_tiles() && #[trigger] tile_holds(
            input,
            t,
            x,
            y,
        ) && #[trigger] tile_holds(input, u, x, y) implies t == u by {
        lemma_place(x, tw, bx, t % bx);
        lemma_place(x, tw, bx, u % bx);
        lemma_place(y, th, by, t / bx);
        lemma_place(y, th, by, u / bx);
        vstd::arithmetic::div_mod::lemma_fundamental_div_mod(t, bx);
        vstd::arithmetic::div_mod::lemma_fundamental_div_mod(u, bx);
    }
}

/// A coordinate lies in the step that its quotient gives, and in no other.
proof fn lemma_place(x: int, side: int, count: int, k: int)
    requires
        0 < side,
        0 <= x < count * side,
    ensures
        k * side <= x < k * side + side <==> k == x / side,
        0 <= x / side < count,
{
    let q = x / side;
    vstd::arithmetic::div_mod::lemma_fundamental_div_mod(x, side);
    let m = x % side;
    assert(q * side == side * q) by (nonlinear_arith);
    assert(0 <= q < count) by (nonlinear_arith)
        requires
            x == side * q + m,
            0 <= m < side,
            0 <= x < count * side,
    ;
    if k * side <= x < k * side + side {
        assert(k == q) by (nonlinear_arith)
            requires
                x == side * q + m,
                0 <= m < side,
                k * side <= x < k * side + side,
        ;
    }
}

/// The figures of a report add up: what is reserved is valid or a sentinel, what
/// is valid is kept or pruned, what could be evaluated is evaluated or skipped,
/// and what is evaluated is rejected, ends its pixel or is composited. A kept
/// intersection writes nine numbers, and one more where splats are refined.
pub proof fn reported_figures_add_up(
    input: &RasterCensusInput<'_>,
    outcomes: Seq<Vec<PairOutcome>>,
    r: RasterCensusReport,
)
    requires
        is_checked(input),
        is_report(input, outcomes, r),
    ensures
        r.valid_pre_intersections + r.sentinel_intersections == r.reserved_intersections,
        r.post_intersections + r.occlusion_pruned_intersections == r.valid_pre_intersections,
        r.logical_atomic_writes_without_refine == 9 * r.post_intersections,
        r.logical_atomic_writes_with_refine == r.logical_atomic_writes_without_refine
            + r.post_intersections,
        r.sampled.evaluated_pairs + r.sampled.early_skipped_pairs == r.sampled.potential_pairs,
        r.sampled.sigma_rejected_pairs + r.sampled.cutoff_rejected_pairs
            + r.sampled.early_terminated_pairs + r.sampled.composited_pairs
            == r.sampled.evaluated_pairs,
        r.sampled.rejection_rate.numerator + r.sampled.early_terminated_pairs
            + r.sampled.composited_pairs == r.sampled.rejection_rate.denominator,
{
    sampled_outcomes_add_up(input, outcomes, input.sample().len() as int);
}

/// The largest value over sampled tiles is one of theirs or zero, and none is
/// larger.
pub proof fn largest_over_the_sample_is_the_largest(f: spec_fn(int) -> int, k: int)
    requires
        0 <= k,
    ensures
        sample_max(f, k) >= 0,
        forall|s: int| 0 <= s < k ==> #[trigger] f(s) <= sample_max(f, k),
        sample_max(f, k) > 0 ==> exists|s: int| 0 <= s < k && #[trigger] f(s) == sample_max(f, k),
    decreases k,
{
    if k > 0 {
        largest_over_the_sample_is_the_largest(f, k - 1);
        assert(f(k - 1) <= sample_max(f, k));
    }
}

/// The fan-in of a report is that of every surviving intersection, each counted
/// once, over all visible splats: those with none, with one and with several.
pub proof fn reported_fan_in_is_complete(
    input: &RasterCensusInput<'_>,
    outcomes: Seq<Vec<PairOutcome>>,
    r: RasterCensusReport,
)
    requires
        is_checked(input),
        counted_fan_in(input) is Ok,
        is_report(input, outcomes, r),
    ensures
        r.atomic_fan_in.distribution.count == r.visible_splats,
        r.atomic_fan_in.distribution.mean.numerator == r.post_intersections,
        r.atomic_fan_in.distribution.mean.denominator == r.visible_splats,
        r.atomic_fan_in.distribution.zeros + r.atomic_fan_in.one + r.atomic_fan_in.multiple
            == r.visible_splats,
{
    let none = no_fan_in(input.num_visible);
    fan_in_is_conserved(
        input.pre_offsets@,
        input.post_offsets@,
        input.compact_gid_from_isect@,
        input.num_visible,
        0,
        input.num_tiles(),
        none,
    );
    lemma_nothing_adds_up(none, input.num_visible as int);
    let fan = counted_fan_in(input)->Ok_0;
    lemma_none_one_or_several(fan, fan.len() as int);
}

proof fn lemma_nothing_adds_up(s: Seq<u32>, hi: int)
    requires
        0 <= hi <= s.len(),
        forall|i: int| 0 <= i < s.len() ==> s[i] == 0,
    ensures
        sums::sum_range(s, 0, hi) == 0,
    decreases hi,
{
    if hi > 0 {
        lemma_nothing_adds_up(s, hi - 1);
    }
}

proof fn lemma_none_one_or_several(fan: Seq<u32>, hi: int)
    requires
        0 <= hi <= fan.len(),
    ensures
        counting::count_class(value_classes(fan), 0, 0, hi) + counting::count_class(
            value_classes(fan),
            1,
            0,
            hi,
        ) + counting::count_where(above_one(fan), 0, hi) == hi,
    decreases hi,
{
    if hi > 0 {
        lemma_none_one_or_several(fan, hi - 1);
    }
}

} // verus!
