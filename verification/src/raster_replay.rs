//! Replay of the pixel-splat pairs of one tile from their recorded outcomes.

use crate::counting;
use vstd::prelude::*;

verus! {

/// What happens when a pixel meets a splat of its tile.
#[derive(Clone, Copy, Debug, PartialEq, Eq, Structural)]
pub enum PairOutcome {
    /// The falloff exponent is negative or not a number.
    SigmaRejected,
    /// The cutoff leaves no weight.
    CutoffRejected,
    /// The pixel is saturated: this splat and all behind it are skipped.
    EarlyTerminated,
    /// The splat contributes to the pixel.
    Composited,
}

/// Tallies of a replayed tile.
#[derive(Clone, Copy, Debug, PartialEq, Eq, Structural)]
pub struct TileReplay {
    pub evaluated: u64,
    pub sigma_rejected: u64,
    pub cutoff_rejected: u64,
    pub early_terminated: u64,
    pub composited: u64,
    /// Entries that contribute to no pixel.
    pub zero_contribution: u64,
    /// Entries up to the last one that contributes to a pixel.
    pub post_entries: u32,
}

/// Outcome of pixel `p` against entry `e`, from a table with one row of
/// `entries` outcomes per pixel.
pub open spec fn outcome_at(o: Seq<PairOutcome>, entries: int, p: int, e: int) -> PairOutcome {
    o[p * entries + e]
}

/// Entries that pixel `p` evaluates, looking from entry `from` on: up to and
/// with the first that terminates it.
pub open spec fn stop_from(o: Seq<PairOutcome>, entries: int, p: int, from: int) -> int
    decreases entries - from,
{
    if from >= entries {
        entries
    } else if outcome_at(o, entries, p, from) == PairOutcome::EarlyTerminated {
        from + 1
    } else {
        stop_from(o, entries, p, from + 1)
    }
}

/// Entries that pixel `p` evaluates.
pub open spec fn stop(o: Seq<PairOutcome>, entries: int, p: int) -> int {
    stop_from(o, entries, p, 0)
}

/// Entries of pixel `p` with outcome `kind`.
pub open spec fn with_outcome(
    o: Seq<PairOutcome>,
    entries: int,
    p: int,
    kind: PairOutcome,
) -> spec_fn(int) -> bool {
    |e: int| outcome_at(o, entries, p, e) == kind
}

/// Evaluated pairs of the first `pixels` pixels.
pub open spec fn evaluated_total(o: Seq<PairOutcome>, entries: int, pixels: int) -> int
    decreases pixels,
{
    if pixels <= 0 {
        0
    } else {
        evaluated_total(o, entries, pixels - 1) + stop(o, entries, pixels - 1)
    }
}

/// Evaluated pairs of the first `pixels` pixels with outcome `kind`.
pub open spec fn outcome_total(
    o: Seq<PairOutcome>,
    entries: int,
    pixels: int,
    kind: PairOutcome,
) -> int
    decreases pixels,
{
    if pixels <= 0 {
        0
    } else {
        outcome_total(o, entries, pixels - 1, kind) + counting::count_where(
            with_outcome(o, entries, pixels - 1, kind),
            0,
            stop(o, entries, pixels - 1),
        )
    }
}

/// Entry `e` contributes to pixel `p`.
pub open spec fn contributes_to(o: Seq<PairOutcome>, entries: int, p: int, e: int) -> bool {
    e < stop(o, entries, p) && outcome_at(o, entries, p, e) == PairOutcome::Composited
}

/// Entry `e` contributes to one of the first `pixels` pixels.
pub open spec fn contributes(o: Seq<PairOutcome>, entries: int, pixels: int, e: int) -> bool {
    exists|p: int| 0 <= p < pixels && #[trigger] contributes_to(o, entries, p, e)
}

/// Entries that contribute to none of the first `pixels` pixels.
pub open spec fn idle(o: Seq<PairOutcome>, entries: int, pixels: int) -> spec_fn(int) -> bool {
    |e: int| !contributes(o, entries, pixels, e)
}

/// Entries below `hi` up to the last one that contributes.
pub open spec fn reach(o: Seq<PairOutcome>, entries: int, pixels: int, hi: int) -> int
    decreases hi,
{
    if hi <= 0 {
        0
    } else if contributes(o, entries, pixels, hi - 1) {
        hi
    } else {
        reach(o, entries, pixels, hi - 1)
    }
}

/// First entry in `from..hi` that refers to a splat past the visible ones.
pub open spec fn first_bad(
    gids: Seq<u32>,
    pre_lo: int,
    visible: u32,
    from: int,
    hi: int,
) -> Option<int>
    decreases hi - from,
{
    if from >= hi {
        None
    } else if gids[pre_lo + from] >= visible {
        Some(from)
    } else {
        first_bad(gids, pre_lo, visible, from + 1, hi)
    }
}

/// The first intersection that a replay finds referring past the visible
/// splats, from pixel `p` on.
pub open spec fn replay_error(
    o: Seq<PairOutcome>,
    entries: int,
    gids: Seq<u32>,
    pre_lo: int,
    visible: u32,
    p: int,
    pixels: int,
) -> Option<int>
    decreases pixels - p,
{
    if p >= pixels {
        None
    } else {
        match first_bad(gids, pre_lo, visible, 0, stop(o, entries, p)) {
            Some(e) => Some(pre_lo + e),
            None => replay_error(o, entries, gids, pre_lo, visible, p + 1, pixels),
        }
    }
}

pub proof fn lemma_stop_bounds(o: Seq<PairOutcome>, entries: int, p: int, from: int)
    requires
        0 <= from <= entries,
    ensures
        from <= stop_from(o, entries, p, from) <= entries,
    decreases entries - from,
{
    if from < entries && outcome_at(o, entries, p, from) != PairOutcome::EarlyTerminated {
        lemma_stop_bounds(o, entries, p, from + 1);
    }
}

/// The four outcomes split the pairs before any bound.
proof fn lemma_outcomes_split(o: Seq<PairOutcome>, entries: int, p: int, hi: int)
    requires
        0 <= hi,
    ensures
        counting::count_where(with_outcome(o, entries, p, PairOutcome::SigmaRejected), 0, hi)
            + counting::count_where(with_outcome(o, entries, p, PairOutcome::CutoffRejected), 0, hi)
            + counting::count_where(
            with_outcome(o, entries, p, PairOutcome::EarlyTerminated),
            0,
            hi,
        ) + counting::count_where(with_outcome(o, entries, p, PairOutcome::Composited), 0, hi)
            == hi,
    decreases hi,
{
    if hi > 0 {
        lemma_outcomes_split(o, entries, p, hi - 1);
    }
}

/// Every evaluated pair has exactly one outcome: the four tallies add up to the
/// evaluated pairs.
pub proof fn outcomes_add_up(o: Seq<PairOutcome>, entries: int, pixels: int)
    requires
        0 <= entries,
    ensures
        outcome_total(o, entries, pixels, PairOutcome::SigmaRejected) + outcome_total(
            o,
            entries,
            pixels,
            PairOutcome::CutoffRejected,
        ) + outcome_total(o, entries, pixels, PairOutcome::EarlyTerminated) + outcome_total(
            o,
            entries,
            pixels,
            PairOutcome::Composited,
        ) == evaluated_total(o, entries, pixels),
    decreases pixels,
{
    if pixels > 0 {
        outcomes_add_up(o, entries, pixels - 1);
        lemma_stop_bounds(o, entries, pixels - 1, 0);
        lemma_outcomes_split(o, entries, pixels - 1, stop(o, entries, pixels - 1));
    }
}

/// A replay evaluates at most every pixel against every entry.
pub proof fn evaluated_is_at_most_potential(o: Seq<PairOutcome>, entries: int, pixels: int)
    requires
        0 <= entries,
        0 <= pixels,
    ensures
        0 <= evaluated_total(o, entries, pixels) <= entries * pixels,
    decreases pixels,
{
    if pixels > 0 {
        evaluated_is_at_most_potential(o, entries, pixels - 1);
        lemma_stop_bounds(o, entries, pixels - 1, 0);
        assert(entries * pixels == entries * (pixels - 1) + entries) by (nonlinear_arith);
    } else {
        assert(entries * pixels == 0) by (nonlinear_arith)
            requires
                pixels == 0,
        ;
    }
}

/// No outcome is tallied more often than pairs are evaluated.
pub proof fn lemma_outcome_total_bounds(
    o: Seq<PairOutcome>,
    entries: int,
    pixels: int,
    kind: PairOutcome,
)
    requires
        0 <= entries,
    ensures
        0 <= outcome_total(o, entries, pixels, kind) <= evaluated_total(o, entries, pixels),
    decreases pixels,
{
    if pixels > 0 {
        lemma_outcome_total_bounds(o, entries, pixels - 1, kind);
        lemma_stop_bounds(o, entries, pixels - 1, 0);
        counting::lemma_count_bounds(
            with_outcome(o, entries, pixels - 1, kind),
            0,
            stop(o, entries, pixels - 1),
        );
    }
}

/// A contributing entry lies inside the reach, and every entry past it is idle.
pub proof fn reach_covers_contributions(
    o: Seq<PairOutcome>,
    entries: int,
    pixels: int,
    hi: int,
    e: int,
)
    requires
        0 <= e < hi,
        contributes(o, entries, pixels, e),
    ensures
        e < reach(o, entries, pixels, hi) <= hi,
    decreases hi,
{
    if !contributes(o, entries, pixels, hi - 1) {
        reach_covers_contributions(o, entries, pixels, hi - 1, e);
    }
}

pub proof fn lemma_reach_bounds(o: Seq<PairOutcome>, entries: int, pixels: int, hi: int)
    requires
        0 <= hi,
    ensures
        0 <= reach(o, entries, pixels, hi) <= hi,
    decreases hi,
{
    if hi > 0 && !contributes(o, entries, pixels, hi - 1) {
        lemma_reach_bounds(o, entries, pixels, hi - 1);
    }
}

/// What a successful replay of a tile reports.
pub open spec fn is_replay(
    o: Seq<PairOutcome>,
    entries: int,
    pixels: int,
    t: TileReplay,
) -> bool {
    &&& t.evaluated == evaluated_total(o, entries, pixels)
    &&& t.sigma_rejected == outcome_total(o, entries, pixels, PairOutcome::SigmaRejected)
    &&& t.cutoff_rejected == outcome_total(o, entries, pixels, PairOutcome::CutoffRejected)
    &&& t.early_terminated == outcome_total(o, entries, pixels, PairOutcome::EarlyTerminated)
    &&& t.composited == outcome_total(o, entries, pixels, PairOutcome::Composited)
    &&& t.zero_contribution == counting::count_where(idle(o, entries, pixels), 0, entries)
    &&& t.post_entries == reach(o, entries, pixels, entries)
}

/// Replays one tile: every pixel walks the tile's entries in order until it is
/// saturated. Fails with the first intersection that refers to a splat past the
/// visible ones.
#[verifier::spinoff_prover]
#[verifier::rlimit(60)]
pub fn replay_tile(
    outcomes: &Vec<PairOutcome>,
    entries: u32,
    pixels: u64,
    gids: &[u32],
    pre_lo: u32,
    visible: u32,
) -> (r: Result<TileReplay, u32>)
    requires
        outcomes.len() == pixels * entries,
        pre_lo + entries <= gids.len(),
        pre_lo + entries <= u32::MAX,
        entries * pixels <= u64::MAX,
    ensures
        match r {
            Err(isect) => replay_error(
                outcomes@,
                entries as int,
                gids@,
                pre_lo as int,
                visible,
                0,
                pixels as int,
            ) == Some(isect as int),
            Ok(t) => replay_error(
                outcomes@,
                entries as int,
                gids@,
                pre_lo as int,
                visible,
                0,
                pixels as int,
            ) is None && is_replay(outcomes@, entries as int, pixels as int, t),
        },
{
    let ghost o = outcomes@;
    let ghost n = entries as int;
    let mut t = TileReplay {
        evaluated: 0,
        sigma_rejected: 0,
        cutoff_rejected: 0,
        early_terminated: 0,
        composited: 0,
        zero_contribution: 0,
        post_entries: 0,
    };
    let mut contributed: Vec<bool> = vec![false; entries as usize];
    let mut p: u64 = 0;
    let mut base: usize = 0;
    proof {
        assert(0 * n == 0);
    }
    while p < pixels
        invariant
            o == outcomes@,
            n == entries,
            outcomes.len() == pixels * entries,
            pre_lo + entries <= gids.len(),
            pre_lo + entries <= u32::MAX,
            entries * pixels <= u64::MAX,
            p <= pixels,
            base == p * n,
            base <= outcomes.len(),
            contributed.len() == entries,
            replay_error(o, n, gids@, pre_lo as int, visible, 0, pixels as int) == replay_error(
                o,
                n,
                gids@,
                pre_lo as int,
                visible,
                p as int,
                pixels as int,
            ),
            t.evaluated == evaluated_total(o, n, p as int),
            t.sigma_rejected == outcome_total(o, n, p as int, PairOutcome::SigmaRejected),
            t.cutoff_rejected == outcome_total(o, n, p as int, PairOutcome::CutoffRejected),
            t.early_terminated == outcome_total(o, n, p as int, PairOutcome::EarlyTerminated),
            t.composited == outcome_total(o, n, p as int, PairOutcome::Composited),
            t.zero_contribution == 0,
            t.post_entries == 0,
            forall|e: int|
                0 <= e < n ==> #[trigger] contributed[e] == contributes(o, n, p as int, e),
        decreases pixels - p,
    {
        let ghost before = t;
        let ghost seen = contributed@;
        let ghost ps = with_outcome(o, n, p as int, PairOutcome::SigmaRejected);
        let ghost pc = with_outcome(o, n, p as int, PairOutcome::CutoffRejected);
        let ghost pt = with_outcome(o, n, p as int, PairOutcome::EarlyTerminated);
        let ghost pk = with_outcome(o, n, p as int, PairOutcome::Composited);
        proof {
            lemma_stop_bounds(o, n, p as int, 0);
            evaluated_is_at_most_potential(o, n, p as int);
            lemma_outcome_total_bounds(o, n, p as int, PairOutcome::SigmaRejected);
            lemma_outcome_total_bounds(o, n, p as int, PairOutcome::CutoffRejected);
            lemma_outcome_total_bounds(o, n, p as int, PairOutcome::EarlyTerminated);
            lemma_outcome_total_bounds(o, n, p as int, PairOutcome::Composited);
            assert(n * p + n == n * (p + 1)) by (nonlinear_arith);
            assert(n * (p + 1) <= entries * pixels) by (nonlinear_arith)
                requires
                    n == entries,
                    p + 1 <= pixels,
                    0 <= n,
            ;
            assert(p * n + n <= pixels * entries) by (nonlinear_arith)
                requires
                    n == entries,
                    p + 1 <= pixels,
                    0 <= n,
            ;
        }
        let mut local: u32 = 0;
        let mut done: bool = false;
        while local < entries && !done
            invariant
                o == outcomes@,
                n == entries,
                outcomes.len() == pixels * entries,
                pre_lo + entries <= gids.len(),
                pre_lo + entries <= u32::MAX,
                p < pixels,
                base == p * n,
                base + n <= outcomes.len(),
                contributed.len() == entries,
                seen.len() == entries,
                local <= entries,
                stop(o, n, p as int) <= n,
                replay_error(o, n, gids@, pre_lo as int, visible, 0, pixels as int)
                    == replay_error(
                    o,
                    n,
                    gids@,
                    pre_lo as int,
                    visible,
                    p as int,
                    pixels as int,
                ),
                first_bad(gids@, pre_lo as int, visible, 0, stop(o, n, p as int)) == first_bad(
                    gids@,
                    pre_lo as int,
                    visible,
                    local as int,
                    stop(o, n, p as int),
                ),
                !done ==> stop(o, n, p as int) == stop_from(o, n, p as int, local as int),
                done ==> stop(o, n, p as int) == local,
                local <= stop(o, n, p as int),
                ps == with_outcome(o, n, p as int, PairOutcome::SigmaRejected),
                pc == with_outcome(o, n, p as int, PairOutcome::CutoffRejected),
                pt == with_outcome(o, n, p as int, PairOutcome::EarlyTerminated),
                pk == with_outcome(o, n, p as int, PairOutcome::Composited),
                t.evaluated == before.evaluated + local,
                t.sigma_rejected == before.sigma_rejected + counting::count_where(
                    ps,
                    0,
                    local as int,
                ),
                t.cutoff_rejected == before.cutoff_rejected + counting::count_where(
                    pc,
                    0,
                    local as int,
                ),
                t.early_terminated == before.early_terminated + counting::count_where(
                    pt,
                    0,
                    local as int,
                ),
                t.composited == before.composited + counting::count_where(pk, 0, local as int),
                t.zero_contribution == 0,
                t.post_entries == 0,
                before.evaluated + n <= u64::MAX,
                before.sigma_rejected + n <= u64::MAX,
                before.cutoff_rejected + n <= u64::MAX,
                before.early_terminated + n <= u64::MAX,
                before.composited + n <= u64::MAX,
                forall|e: int|
                    0 <= e < n ==> #[trigger] contributed[e] == (seen[e] || (e < local && pk(e))),
            decreases entries - local,
        {
            proof {
                counting::lemma_count_bounds(ps, 0, local as int);
                counting::lemma_count_bounds(pc, 0, local as int);
                counting::lemma_count_bounds(pt, 0, local as int);
                counting::lemma_count_bounds(pk, 0, local as int);
                lemma_stop_bounds(o, n, p as int, local as int);
                if outcome_at(o, n, p as int, local as int) != PairOutcome::EarlyTerminated {
                    lemma_stop_bounds(o, n, p as int, local + 1);
                }
                assert(local < stop(o, n, p as int));
            }
            t.evaluated = t.evaluated + 1;
            let isect_id: u32 = pre_lo + local;
            let compact_gid: u32 = gids[isect_id as usize];
            if compact_gid >= visible {
                return Err(isect_id);
            }
            let outcome: PairOutcome = outcomes[base + local as usize];
            assert(outcome == outcome_at(o, n, p as int, local as int));
            match outcome {
                PairOutcome::SigmaRejected => {
                    t.sigma_rejected = t.sigma_rejected + 1;
                },
                PairOutcome::CutoffRejected => {
                    t.cutoff_rejected = t.cutoff_rejected + 1;
                },
                PairOutcome::EarlyTerminated => {
                    t.early_terminated = t.early_terminated + 1;
                    done = true;
                },
                PairOutcome::Composited => {
                    t.composited = t.composited + 1;
                    contributed.set(local as usize, true);
                },
            }
            local = local + 1;
        }
        proof {
            assert(stop(o, n, p as int) == local);
            assert forall|e: int| 0 <= e < n implies #[trigger] contributed[e] == contributes(
                o,
                n,
                p + 1,
                e,
            ) by {
                if contributes(o, n, p as int, e) {
                    let q = choose|q: int| 0 <= q < p && #[trigger] contributes_to(o, n, q, e);
                    assert(0 <= q < p + 1 && contributes_to(o, n, q, e));
                }
                if e < local && pk(e) {
                    assert(contributes_to(o, n, p as int, e));
                }
                if contributes(o, n, p + 1, e) && !contributes(o, n, p as int, e) {
                    let q = choose|q: int| 0 <= q < p + 1 && #[trigger] contributes_to(o, n, q, e);
                    assert(q == p);
                }
            }
            assert((p + 1) * n == p * n + n) by (nonlinear_arith);
        }
        base = base + entries as usize;
        p = p + 1;
    }
    let ghost still = idle(o, n, pixels as int);
    let mut e: u32 = 0;
    let mut zero: u64 = 0;
    let mut last: u32 = 0;
    while e < entries
        invariant
            o == outcomes@,
            n == entries,
            e <= entries,
            still == idle(o, n, pixels as int),
            contributed.len() == entries,
            forall|k: int|
                0 <= k < n ==> #[trigger] contributed[k] == contributes(o, n, pixels as int, k),
            zero == counting::count_where(still, 0, e as int),
            zero <= e,
            last == reach(o, n, pixels as int, e as int),
        decreases entries - e,
    {
        if contributed[e as usize] {
            last = e + 1;
        } else {
            zero = zero + 1;
        }
        e = e + 1;
    }
    t.zero_contribution = zero;
    t.post_entries = last;
    Ok(t)
}

/// The first bad entry of a range is bad, those before it are not, and where
/// there is none no entry is.
pub proof fn first_bad_is_the_first(
    gids: Seq<u32>,
    pre_lo: int,
    visible: u32,
    from: int,
    hi: int,
)
    requires
        0 <= from,
    ensures
        match first_bad(gids, pre_lo, visible, from, hi) {
            Some(e) => {
                &&& from <= e < hi
                &&& gids[pre_lo + e] >= visible
                &&& forall|k: int| from <= k < e ==> #[trigger] gids[counting::shifted(pre_lo, k)]
                    < visible
            },
            None => forall|k: int|
                from <= k < hi ==> #[trigger] gids[counting::shifted(pre_lo, k)] < visible,
        },
    decreases hi - from,
{
    if from < hi && gids[pre_lo + from] < visible {
        first_bad_is_the_first(gids, pre_lo, visible, from + 1, hi);
    }
}

/// A replay fails on an entry that refers past the visible splats, and passes
/// where no evaluated entry of a pixel does.
pub proof fn replays_fail_on_bad_entries(
    o: Seq<PairOutcome>,
    entries: int,
    gids: Seq<u32>,
    pre_lo: int,
    visible: u32,
    p: int,
    pixels: int,
)
    ensures
        match replay_error(o, entries, gids, pre_lo, visible, p, pixels) {
            Some(i) => gids[i] >= visible,
            None => forall|q: int, e: int|
                p <= q < pixels && 0 <= e < #[trigger] stop(o, entries, q)
                    ==> #[trigger] gids[counting::shifted(pre_lo, e)] < visible,
        },
    decreases pixels - p,
{
    if p < pixels {
        first_bad_is_the_first(gids, pre_lo, visible, 0, stop(o, entries, p));
        replays_fail_on_bad_entries(o, entries, gids, pre_lo, visible, p + 1, pixels);
    }
}

} // verus!
