//! Ranges of the intersection list that belong to each tile.

use vstd::prelude::*;

verus! {

/// Intersections that one thread checks per launch.
pub const CHECKS_PER_ITER: u32 = 8;

/// Tile ids in the order of the sort.
pub open spec fn is_sorted(ids: Seq<u32>, n: int) -> bool {
    forall|i: int, j: int| 0 <= i <= j < n ==> ids[i] <= ids[j]
}

/// Number of the first `n` intersections whose tile comes before `tile`: where
/// the run of `tile` starts in a sorted list.
pub open spec fn run_start(ids: Seq<u32>, n: int, tile: int) -> int
    decreases n,
{
    if n <= 0 {
        0
    } else {
        run_start(ids, n - 1, tile) + if ids[n - 1] < tile {
            1int
        } else {
            0int
        }
    }
}

/// Where the run of `tile` ends.
pub open spec fn run_end(ids: Seq<u32>, n: int, tile: int) -> int {
    run_start(ids, n, tile + 1)
}

/// In a sorted list the run starts split the list by tile.
pub proof fn lemma_run_start(ids: Seq<u32>, n: int, tile: int)
    requires
        is_sorted(ids, n),
        0 <= n,
    ensures
        0 <= run_start(ids, n, tile) <= n,
        forall|i: int|
            #![trigger ids[i]]
            0 <= i < n ==> (ids[i] < tile <==> i < run_start(ids, n, tile)),
    decreases n,
{
    if n > 0 {
        lemma_run_start(ids, n - 1, tile);
        if ids[n - 1] < tile {
            assert forall|i: int| 0 <= i < n implies ids[i] < tile by {
                assert(ids[i] <= ids[n - 1]);
            }
            if run_start(ids, n - 1, tile) < n - 1 {
                assert(ids[run_start(ids, n - 1, tile)] < tile);
            }
        }
    }
}

/// `after` holds the run of every tile that has one, and `before` elsewhere.
pub open spec fn writes_runs(
    ids: Seq<u32>,
    n: int,
    num_tiles: int,
    before: Seq<u32>,
    after: Seq<u32>,
) -> bool {
    forall|t: int|
        #![trigger run_start(ids, n, t)]
        0 <= t < num_tiles ==> {
            let lo = run_start(ids, n, t);
            let hi = run_end(ids, n, t);
            if lo < hi {
                after[2 * t] == lo && after[2 * t + 1] == hi
            } else {
                after[2 * t] == before[2 * t] && after[2 * t + 1] == before[2 * t + 1]
            }
        }
}

/// Writes, for every tile that occurs among the first `num_inter` sorted tile
/// ids, the range of its intersections. Tiles that do not occur keep their
/// slots, and ids at or past `num_tiles` write nothing.
pub fn get_tile_offsets(
    num_inter: u32,
    num_tiles: u32,
    tile_id_from_isect: &Vec<u32>,
    tile_offsets: &mut Vec<u32>,
)
    requires
        num_inter <= tile_id_from_isect.len(),
        is_sorted(tile_id_from_isect@, num_inter as int),
        2 * num_tiles <= old(tile_offsets).len(),
    ensures
        final(tile_offsets).len() == old(tile_offsets).len(),
        writes_runs(
            tile_id_from_isect@,
            num_inter as int,
            num_tiles as int,
            old(tile_offsets)@,
            final(tile_offsets)@
        ),
        forall|k: int|
            2 * num_tiles <= k < old(tile_offsets).len() ==> final(tile_offsets)[k]
                == old(tile_offsets)[k],
{
    let ghost before = tile_offsets@;
    let ghost ids = tile_id_from_isect@;
    let ghost n = num_inter as int;
    let mut isect_id: u32 = 0;
    proof {
        assert forall|t: int| 0 <= #[trigger] run_start(ids, n, t) <= n by {
            lemma_run_start(ids, n, t);
        }
    }
    while isect_id < num_inter
        invariant
            n == num_inter,
            ids == tile_id_from_isect@,
            isect_id <= num_inter,
            num_inter <= tile_id_from_isect.len(),
            is_sorted(ids, n),
            tile_offsets.len() == before.len(),
            2 * num_tiles <= before.len(),
            forall|t: int| 0 <= #[trigger] run_start(ids, n, t) <= n,
            forall|t: int|
                #![trigger run_start(ids, n, t)]
                0 <= t < num_tiles ==> {
                    let lo = run_start(ids, n, t);
                    let hi = run_end(ids, n, t);
                    &&& tile_offsets[2 * t] == if lo < hi && lo < isect_id {
                        lo
                    } else {
                        before[2 * t] as int
                    }
                    &&& tile_offsets[2 * t + 1] == if lo < hi && (hi < isect_id || (hi == n
                        && isect_id == n)) {
                        hi
                    } else {
                        before[2 * t + 1] as int
                    }
                },
            forall|k: int|
                2 * num_tiles <= k < before.len() ==> #[trigger] tile_offsets[k] == before[k],
        decreases num_inter - isect_id,
    {
        let tid: u32 = tile_id_from_isect[isect_id as usize];
        proof {
            lemma_run_start(ids, n, tid as int);
            lemma_run_start(ids, n, tid + 1);
        }
        if isect_id == 0 {
            if tid < num_tiles {
                tile_offsets.set(tid as usize * 2, 0);
            }
        } else {
            let prev_tid: u32 = tile_id_from_isect[isect_id as usize - 1];
            proof {
                lemma_run_start(ids, n, prev_tid as int);
                lemma_run_start(ids, n, prev_tid + 1);
            }
            if tid != prev_tid {
                if prev_tid < num_tiles {
                    tile_offsets.set(prev_tid as usize * 2 + 1, isect_id);
                }
                if tid < num_tiles {
                    tile_offsets.set(tid as usize * 2, isect_id);
                }
            }
        }
        if isect_id == num_inter - 1 && tid < num_tiles {
            tile_offsets.set(tid as usize * 2 + 1, isect_id + 1);
        }
        proof {
            assert forall|t: int| 0 <= t < num_tiles implies {
                let lo = #[trigger] run_start(ids, n, t);
                let hi = run_end(ids, n, t);
                &&& tile_offsets[2 * t] == if lo < hi && lo < isect_id + 1 {
                    lo
                } else {
                    before[2 * t] as int
                }
                &&& tile_offsets[2 * t + 1] == if lo < hi && (hi < isect_id + 1 || (hi == n
                    && isect_id + 1 == n)) {
                    hi
                } else {
                    before[2 * t + 1] as int
                }
            } by {
                lemma_run_start(ids, n, t);
                lemma_run_start(ids, n, t + 1);
                if isect_id > 0 {
                    assert(ids[isect_id - 1] <= ids[isect_id as int]);
                }
            }
        }
        isect_id = isect_id + 1;
    }
    proof {
        assert forall|t: int| 0 <= t < num_tiles implies {
            let lo = #[trigger] run_start(ids, n, t);
            let hi = run_end(ids, n, t);
            if lo < hi {
                tile_offsets[2 * t] == lo && tile_offsets[2 * t + 1] == hi
            } else {
                tile_offsets[2 * t] == before[2 * t] && tile_offsets[2 * t + 1] == before[2 * t + 1]
            }
        } by {
            assert(0 <= run_start(ids, n, t + 1) <= n);
        }
    }
}

/// The run of a tile holds exactly the intersections of that tile, so the runs
/// of different tiles do not meet and ids past the last tile are in no run.
pub proof fn tile_runs_partition_the_list(ids: Seq<u32>, n: int, tile: int, i: int)
    requires
        is_sorted(ids, n),
        0 <= i < n,
        0 <= tile,
    ensures
        ids[i] == tile <==> run_start(ids, n, tile) <= i < run_end(ids, n, tile),
{
    lemma_run_start(ids, n, tile);
    lemma_run_start(ids, n, tile + 1);
}

/// Runs are ordered and stay inside the list.
pub proof fn tile_runs_are_ranges(ids: Seq<u32>, n: int, tile: int)
    requires
        is_sorted(ids, n),
        0 <= n,
    ensures
        0 <= run_start(ids, n, tile) <= run_end(ids, n, tile) <= n,
{
    lemma_run_start(ids, n, tile);
    lemma_run_start(ids, n, tile + 1);
    let lo = run_start(ids, n, tile);
    let hi = run_end(ids, n, tile);
    if hi < lo {
        assert(ids[hi] < tile);
    }
}

} // verus!
