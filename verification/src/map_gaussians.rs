//! Per-splat tile counts to per-intersection (tile id, splat) pairs.

use vstd::prelude::*;

verus! {

/// Threads per cube of the mapping kernel.
pub const WG_SIZE: u32 = 256;

/// Half-open range of tiles that a splat can touch.
#[derive(Clone, Copy, Debug, PartialEq, Eq, Structural)]
pub struct TileBbox {
    pub min_x: u32,
    pub min_y: u32,
    pub max_x: u32,
    pub max_y: u32,
}

/// A visible splat as the mapping pass sees it: its tile range and, in
/// row-major order over that range, whether it contributes to the tile.
pub struct SplatTiles {
    pub bbox: TileBbox,
    pub contributes: Vec<bool>,
}

impl TileBbox {
    pub open spec fn width(self) -> int {
        if self.min_x < self.max_x {
            self.max_x - self.min_x
        } else {
            0
        }
    }

    pub open spec fn height(self) -> int {
        if self.min_y < self.max_y {
            self.max_y - self.min_y
        } else {
            0
        }
    }
}

impl SplatTiles {
    /// There is one flag per tile of the range, and the range lies inside a
    /// grid of `tile_bw` by `tile_bh` tiles.
    pub open spec fn fits(self, tile_bw: u32, tile_bh: u32) -> bool {
        &&& self.contributes.len() == self.bbox.width() * self.bbox.height()
        &&& self.bbox.max_x <= tile_bw
        &&& self.bbox.max_y <= tile_bh
    }

    /// Tile ids that the splat contributes to, in row-major order, among the
    /// first `cells` cells of its range.
    pub open spec fn hit_tiles(self, tile_bw: u32, cells: int) -> Seq<int>
        decreases cells,
    {
        if cells <= 0 {
            Seq::empty()
        } else {
            let rest = self.hit_tiles(tile_bw, cells - 1);
            let cell = cells - 1;
            if self.contributes[cell] {
                rest.push(
                    (self.bbox.min_x + cell % self.bbox.width()) + (self.bbox.min_y + cell
                        / self.bbox.width()) * tile_bw,
                )
            } else {
                rest
            }
        }
    }

    /// All tile ids that the splat contributes to.
    pub open spec fn all_hits(self, tile_bw: u32) -> Seq<int> {
        self.hit_tiles(tile_bw, self.bbox.width() * self.bbox.height())
    }

    /// Tile id of slot `k` of the splat: a hit, or the sentinel past the last
    /// tile once the hits run out.
    pub open spec fn slot_tile(self, tile_bw: u32, tile_bh: u32, k: int) -> int {
        if k < self.all_hits(tile_bw).len() {
            self.all_hits(tile_bw)[k]
        } else {
            tile_bw * tile_bh
        }
    }
}

/// A longer prefix of the range only appends hits.
proof fn lemma_hits_prefix(s: SplatTiles, tile_bw: u32, a: int, b: int)
    requires
        0 <= a <= b,
    ensures
        s.hit_tiles(tile_bw, a).len() <= s.hit_tiles(tile_bw, b).len(),
        forall|k: int|
            0 <= k < s.hit_tiles(tile_bw, a).len() ==> #[trigger] s.hit_tiles(tile_bw, b)[k]
                == s.hit_tiles(tile_bw, a)[k],
    decreases b - a,
{
    if a < b {
        lemma_hits_prefix(s, tile_bw, a, b - 1);
    }
}

/// Fills the slots `base .. base + pf_count` of one splat: its hits in
/// row-major order until the slots are used up, then sentinel rows.
fn map_gaussian(
    splat: &SplatTiles,
    compact_gid: u32,
    base: u32,
    pf_count: u32,
    tile_bw: u32,
    tile_bh: u32,
    tile_id_from_isect: &mut Vec<u32>,
    compact_gid_from_isect: &mut Vec<u32>,
)
    requires
        splat.fits(tile_bw, tile_bh),
        tile_bw * tile_bh <= u32::MAX,
        base + pf_count <= u32::MAX,
        base + pf_count <= old(tile_id_from_isect).len(),
        base + pf_count <= old(compact_gid_from_isect).len(),
    ensures
        final(tile_id_from_isect).len() == old(tile_id_from_isect).len(),
        final(compact_gid_from_isect).len() == old(compact_gid_from_isect).len(),
        forall|j: int|
            0 <= j < old(tile_id_from_isect).len() ==> #[trigger] final(tile_id_from_isect)[j]
                == if base <= j < base + pf_count {
                splat.slot_tile(tile_bw, tile_bh, j - base)
            } else {
                old(tile_id_from_isect)[j] as int
            },
        forall|j: int|
            0 <= j < old(compact_gid_from_isect).len() ==> #[trigger] final(
                compact_gid_from_isect
            )[j] == if base <= j < base + pf_count {
                compact_gid
            } else {
                old(compact_gid_from_isect)[j]
            },
{
    let ghost tiles0 = tile_id_from_isect@;
    let ghost gids0 = compact_gid_from_isect@;
    let bb: TileBbox = splat.bbox;
    let sentinel_tile_id: u32 = tile_bw * tile_bh;
    let ghost w = bb.width();
    let ghost h = bb.height();
    let mut num_tiles_hit: u32 = 0;
    let mut cell: usize = 0;
    let mut ty: u32 = bb.min_y;
    proof {
        assert(w * 0 == 0) by (nonlinear_arith);
    }
    while ty < bb.max_y && num_tiles_hit < pf_count
        invariant
            bb == splat.bbox,
            w == bb.width(),
            h == bb.height(),
            splat.fits(tile_bw, tile_bh),
            tile_bw * tile_bh <= u32::MAX,
            base + pf_count <= u32::MAX,
            base + pf_count <= tiles0.len(),
            base + pf_count <= gids0.len(),
            tile_id_from_isect.len() == tiles0.len(),
            compact_gid_from_isect.len() == gids0.len(),
            bb.min_y <= ty,
            ty <= bb.max_y || ty == bb.min_y,
            num_tiles_hit <= pf_count,
            num_tiles_hit < pf_count ==> cell == w * (ty - bb.min_y),
            0 <= cell <= w * h,
            num_tiles_hit == splat.hit_tiles(tile_bw, cell as int).len(),
            forall|j: int|
                0 <= j < tiles0.len() ==> #[trigger] tile_id_from_isect[j] == if base <= j < base
                    + num_tiles_hit {
                    splat.hit_tiles(tile_bw, cell as int)[j - base]
                } else {
                    tiles0[j] as int
                },
            forall|j: int|
                0 <= j < gids0.len() ==> #[trigger] compact_gid_from_isect[j] == if base <= j < base
                    + num_tiles_hit {
                    compact_gid
                } else {
                    gids0[j]
                },
        decreases bb.max_y - ty,
    {
        let mut tx: u32 = bb.min_x;
        proof {
            assert(w * (ty - bb.min_y) <= w * h) by (nonlinear_arith)
                requires
                    0 <= ty - bb.min_y <= h,
                    0 <= w,
            ;
        }
        while tx < bb.max_x && num_tiles_hit < pf_count
            invariant
                bb == splat.bbox,
                w == bb.width(),
                h == bb.height(),
                splat.fits(tile_bw, tile_bh),
                tile_bw * tile_bh <= u32::MAX,
                base + pf_count <= u32::MAX,
                base + pf_count <= tiles0.len(),
                base + pf_count <= gids0.len(),
                tile_id_from_isect.len() == tiles0.len(),
                compact_gid_from_isect.len() == gids0.len(),
                bb.min_y <= ty < bb.max_y,
                bb.min_x <= tx,
                tx <= bb.max_x || tx == bb.min_x,
                num_tiles_hit <= pf_count,
                cell == w * (ty - bb.min_y) + (tx - bb.min_x),
                0 <= cell <= w * h,
                num_tiles_hit == splat.hit_tiles(tile_bw, cell as int).len(),
                forall|j: int|
                    0 <= j < tiles0.len() ==> #[trigger] tile_id_from_isect[j] == if base <= j
                        < base + num_tiles_hit {
                        splat.hit_tiles(tile_bw, cell as int)[j - base]
                    } else {
                        tiles0[j] as int
                    },
                forall|j: int|
                    0 <= j < gids0.len() ==> #[trigger] compact_gid_from_isect[j] == if base <= j
                        < base + num_tiles_hit {
                        compact_gid
                    } else {
                        gids0[j]
                    },
            decreases bb.max_x - tx,
        {
            let ghost row = ty - bb.min_y;
            let ghost col = tx - bb.min_x;
            proof {
                assert(cell < w * h) by (nonlinear_arith)
                    requires
                        cell == w * row + col,
                        0 <= row < h,
                        0 <= col < w,
                ;
                vstd::arithmetic::div_mod::lemma_fundamental_div_mod_converse(
                    cell as int,
                    w,
                    row,
                    col,
                );
                assert(w * row == row * w) by (nonlinear_arith);
                assert(tx + ty * tile_bw < tile_bw * tile_bh && 0 <= ty * tile_bw)
                    by (nonlinear_arith)
                    requires
                        0 <= tx < tile_bw,
                        0 <= ty < tile_bh,
                ;
            }
            if splat.contributes[cell] {
                let tile_id: u32 = tx + ty * tile_bw;
                let isect_id: u32 = base + num_tiles_hit;
                tile_id_from_isect.set(isect_id as usize, tile_id);
                compact_gid_from_isect.set(isect_id as usize, compact_gid);
                num_tiles_hit = num_tiles_hit + 1;
            }
            cell = cell + 1;
            tx = tx + 1;
        }
        proof {
            if num_tiles_hit < pf_count {
                assert(w * (ty - bb.min_y) + w == w * (ty + 1 - bb.min_y)) by (nonlinear_arith);
            }
        }
        ty = ty + 1;
    }
    proof {
        lemma_hits_prefix(*splat, tile_bw, cell as int, w * h);
        if num_tiles_hit < pf_count {
            assert(cell == w * h) by {
                if bb.min_y < bb.max_y {
                    assert(ty - bb.min_y == h);
                } else {
                    assert(ty - bb.min_y == h);
                }
            }
        }
    }
    let mut pad_idx: u32 = num_tiles_hit;
    while pad_idx < pf_count
        invariant
            sentinel_tile_id == tile_bw * tile_bh,
            num_tiles_hit <= pad_idx <= pf_count,
            num_tiles_hit < pf_count ==> num_tiles_hit == splat.all_hits(tile_bw).len(),
            num_tiles_hit <= splat.all_hits(tile_bw).len(),
            base + pf_count <= u32::MAX,
            base + pf_count <= tiles0.len(),
            base + pf_count <= gids0.len(),
            tile_id_from_isect.len() == tiles0.len(),
            compact_gid_from_isect.len() == gids0.len(),
            forall|j: int|
                0 <= j < tiles0.len() ==> #[trigger] tile_id_from_isect[j] == if base <= j < base
                    + pad_idx {
                    splat.slot_tile(tile_bw, tile_bh, j - base)
                } else {
                    tiles0[j] as int
                },
            forall|j: int|
                0 <= j < gids0.len() ==> #[trigger] compact_gid_from_isect[j] == if base <= j < base
                    + pad_idx {
                    compact_gid
                } else {
                    gids0[j]
                },
        decreases pf_count - pad_idx,
    {
        let isect_id: u32 = base + pad_idx;
        tile_id_from_isect.set(isect_id as usize, sentinel_tile_id);
        compact_gid_from_isect.set(isect_id as usize, compact_gid);
        pad_idx = pad_idx + 1;
    }
}

/// First slot of splat `gid`: the inclusive count of the splat before it.
pub open spec fn first_slot(cum: Seq<u32>, gid: int) -> int {
    if gid <= 0 {
        0
    } else {
        cum[gid - 1] as int
    }
}

/// Writes the intersection rows of every visible splat. `splat_cum_hit_counts`
/// is the inclusive prefix sum of the slots reserved per splat; splat `g` fills
/// all of its slots, with sentinel rows where it has fewer hits than slots.
pub fn map_gaussians_to_intersect_kernel(
    splats: &Vec<SplatTiles>,
    splat_cum_hit_counts: &Vec<u32>,
    tile_id_from_isect: &mut Vec<u32>,
    compact_gid_from_isect: &mut Vec<u32>,
    tile_bw: u32,
    tile_bh: u32,
)
    requires
        splats.len() <= u32::MAX,
        splat_cum_hit_counts.len() == splats.len(),
        tile_bw * tile_bh <= u32::MAX,
        forall|g: int| 0 <= g < splats.len() ==> (#[trigger] splats[g]).fits(tile_bw, tile_bh),
        forall|a: int, b: int|
            0 <= a <= b < splats.len() ==> splat_cum_hit_counts[a] <= splat_cum_hit_counts[b],
        splats.len() > 0 ==> splat_cum_hit_counts[splats.len() - 1] <= old(tile_id_from_isect).len(),
        splats.len() > 0 ==> splat_cum_hit_counts[splats.len() - 1] <= old(
            compact_gid_from_isect
        ).len(),
    ensures
        final(tile_id_from_isect).len() == old(tile_id_from_isect).len(),
        final(compact_gid_from_isect).len() == old(compact_gid_from_isect).len(),
        forall|g: int, j: int|
            #![trigger splat_cum_hit_counts[g], final(tile_id_from_isect)[j]]
            0 <= g < splats.len() && first_slot(splat_cum_hit_counts@, g) <= j
                < splat_cum_hit_counts[g] ==> final(tile_id_from_isect)[j] == splats[g].slot_tile(
                tile_bw,
                tile_bh,
                j - first_slot(splat_cum_hit_counts@, g),
            ),
        forall|g: int, j: int|
            #![trigger splat_cum_hit_counts[g], final(compact_gid_from_isect)[j]]
            0 <= g < splats.len() && first_slot(splat_cum_hit_counts@, g) <= j
                < splat_cum_hit_counts[g] ==> final(compact_gid_from_isect)[j] == g,
        forall|j: int|
            first_slot(splat_cum_hit_counts@, splats.len() as int) <= j < old(
                tile_id_from_isect
            ).len() ==> #[trigger] final(tile_id_from_isect)[j] == old(tile_id_from_isect)[j],
        forall|j: int|
            first_slot(splat_cum_hit_counts@, splats.len() as int) <= j < old(
                compact_gid_from_isect
            ).len() ==> #[trigger] final(compact_gid_from_isect)[j] == old(
                compact_gid_from_isect
            )[j],
{
    let ghost cum = splat_cum_hit_counts@;
    let ghost n = splats.len() as int;
    let ghost tiles0 = tile_id_from_isect@;
    let ghost gids0 = compact_gid_from_isect@;
    let mut gid: usize = 0;
    while gid < splats.len()
        invariant
            n == splats.len(),
            n <= u32::MAX,
            cum == splat_cum_hit_counts@,
            cum.len() == n,
            gid <= n,
            tile_bw * tile_bh <= u32::MAX,
            forall|g: int| 0 <= g < n ==> (#[trigger] splats[g]).fits(tile_bw, tile_bh),
            forall|a: int, b: int| 0 <= a <= b < n ==> cum[a] <= cum[b],
            n > 0 ==> cum[n - 1] <= tiles0.len(),
            n > 0 ==> cum[n - 1] <= gids0.len(),
            tile_id_from_isect.len() == tiles0.len(),
            compact_gid_from_isect.len() == gids0.len(),
            forall|g: int, j: int|
                #![trigger cum[g], tile_id_from_isect[j]]
                0 <= g < gid && first_slot(cum, g) <= j < cum[g] ==> tile_id_from_isect[j]
                    == splats[g].slot_tile(tile_bw, tile_bh, j - first_slot(cum, g)),
            forall|g: int, j: int|
                #![trigger cum[g], compact_gid_from_isect[j]]
                0 <= g < gid && first_slot(cum, g) <= j < cum[g] ==> compact_gid_from_isect[j] == g,
            forall|j: int|
                first_slot(cum, gid as int) <= j < tiles0.len() ==> #[trigger] tile_id_from_isect[j]
                    == tiles0[j],
            forall|j: int|
                first_slot(cum, gid as int) <= j < gids0.len()
                    ==> #[trigger] compact_gid_from_isect[j] == gids0[j],
        decreases n - gid,
    {
        let base: u32 = if gid == 0 {
            0
        } else {
            splat_cum_hit_counts[gid - 1]
        };
        let end: u32 = splat_cum_hit_counts[gid];
        let pf_count: u32 = end - base;
        proof {
            assert(cum[gid as int] <= cum[n - 1]);
            assert forall|g: int| 0 <= g < gid implies #[trigger] cum[g] <= base by {
                assert(cum[g] <= cum[gid - 1]);
            }
        }
        map_gaussian(
            &splats[gid],
            gid as u32,
            base,
            pf_count,
            tile_bw,
            tile_bh,
            tile_id_from_isect,
            compact_gid_from_isect,
        );
        gid = gid + 1;
    }
}

/// Every id that a slot can hold is a tile of the grid or the sentinel.
pub proof fn slots_hold_tiles_or_the_sentinel(s: SplatTiles, tile_bw: u32, tile_bh: u32, k: int)
    requires
        s.fits(tile_bw, tile_bh),
        0 <= k,
    ensures
        0 <= s.slot_tile(tile_bw, tile_bh, k) <= tile_bw * tile_bh,
        s.slot_tile(tile_bw, tile_bh, k) == tile_bw * tile_bh <==> k >= s.all_hits(tile_bw).len(),
{
    assert(0 <= tile_bw * tile_bh) by (nonlinear_arith)
        requires
            0 <= tile_bw,
            0 <= tile_bh,
    ;
    if k < s.all_hits(tile_bw).len() {
        lemma_hit_bounds(s, tile_bw, tile_bh, s.bbox.width() * s.bbox.height(), k);
    }
}

proof fn lemma_hit_bounds(s: SplatTiles, tile_bw: u32, tile_bh: u32, cells: int, k: int)
    requires
        s.fits(tile_bw, tile_bh),
        cells <= s.bbox.width() * s.bbox.height(),
        0 <= k < s.hit_tiles(tile_bw, cells).len(),
    ensures
        0 <= s.hit_tiles(tile_bw, cells)[k] < tile_bw * tile_bh,
    decreases cells,
{
    let cell = cells - 1;
    if k < s.hit_tiles(tile_bw, cell).len() {
        lemma_hit_bounds(s, tile_bw, tile_bh, cell, k);
    } else {
        let w = s.bbox.width();
        let h = s.bbox.height();
        assert(w > 0) by (nonlinear_arith)
            requires
                0 <= cell < w * h,
                0 <= w,
        ;
        vstd::arithmetic::div_mod::lemma_fundamental_div_mod(cell, w);
        let row = cell / w;
        let col = cell % w;
        assert(0 <= row < h) by (nonlinear_arith)
            requires
                cell == w * row + col,
                0 <= col < w,
                0 <= cell < w * h,
        ;
        let x = s.bbox.min_x + col;
        let y = s.bbox.min_y + row;
        assert(0 <= x + y * tile_bw < tile_bw * tile_bh) by (nonlinear_arith)
            requires
                0 <= x < tile_bw,
                0 <= y < tile_bh,
        ;
    }
}

/// The tile of a cell of a splat's range.
pub open spec fn cell_tile(s: SplatTiles, tile_bw: u32, cell: int) -> int {
    (s.bbox.min_x + cell % s.bbox.width()) + (s.bbox.min_y + cell / s.bbox.width()) * tile_bw
}

proof fn lemma_hit_has_a_cell(s: SplatTiles, tile_bw: u32, cells: int, k: int)
    requires
        0 <= k < s.hit_tiles(tile_bw, cells).len(),
    ensures
        exists|cell: int|
            0 <= cell < cells && s.contributes[cell] && #[trigger] cell_tile(s, tile_bw, cell)
                == s.hit_tiles(tile_bw, cells)[k],
    decreases cells,
{
    let cell = cells - 1;
    if k < s.hit_tiles(tile_bw, cell).len() {
        lemma_hit_has_a_cell(s, tile_bw, cell, k);
        lemma_hits_prefix(s, tile_bw, if cell < 0 {
            0
        } else {
            cell
        }, cells);
    } else {
        assert(cell_tile(s, tile_bw, cell) == s.hit_tiles(tile_bw, cells)[k]);
    }
}

proof fn lemma_cell_is_a_hit(s: SplatTiles, tile_bw: u32, cells: int, cell: int)
    requires
        0 <= cell < cells,
        s.contributes[cell],
    ensures
        s.hit_tiles(tile_bw, cells).contains(cell_tile(s, tile_bw, cell)),
    decreases cells,
{
    let hits = s.hit_tiles(tile_bw, cells);
    if cell == cells - 1 {
        assert(hits[hits.len() - 1] == cell_tile(s, tile_bw, cell));
    } else {
        lemma_cell_is_a_hit(s, tile_bw, cells - 1, cell);
        let before = s.hit_tiles(tile_bw, cells - 1);
        let k = choose|k: int| 0 <= k < before.len() && before[k] == cell_tile(s, tile_bw, cell);
        assert(hits[k] == cell_tile(s, tile_bw, cell));
    }
}

/// A place of the range and its cell.
proof fn lemma_cell_of(s: SplatTiles, x: int, y: int)
    requires
        s.bbox.min_x <= x < s.bbox.max_x,
        s.bbox.min_y <= y < s.bbox.max_y,
    ensures
        ({
            let w = s.bbox.width();
            let cell = (y - s.bbox.min_y) * w + (x - s.bbox.min_x);
            &&& 0 <= cell < w * s.bbox.height()
            &&& cell % w == x - s.bbox.min_x
            &&& cell / w == y - s.bbox.min_y
        }),
{
    let (w, h) = (s.bbox.width(), s.bbox.height());
    let (col, row) = (x - s.bbox.min_x, y - s.bbox.min_y);
    let cell = row * w + col;
    assert(0 <= cell < w * h) by (nonlinear_arith)
        requires
            cell == row * w + col,
            0 <= col < w,
            0 <= row < h,
    ;
    vstd::arithmetic::div_mod::lemma_fundamental_div_mod_converse(cell, w, row, col);
}

/// A splat's hits are the tiles that it contributes to: the tile in column `x`
/// and row `y` of the grid is one of them just where the flag of that place of
/// the splat's range is set.
pub proof fn hits_are_the_touched_tiles(
    s: SplatTiles,
    tile_bw: u32,
    tile_bh: u32,
    x: int,
    y: int,
)
    requires
        s.fits(tile_bw, tile_bh),
        s.bbox.min_x <= x < s.bbox.max_x,
        s.bbox.min_y <= y < s.bbox.max_y,
    ensures
        s.all_hits(tile_bw).contains(x + y * tile_bw) <==> s.contributes[(y - s.bbox.min_y)
            * s.bbox.width() + (x - s.bbox.min_x)],
{
    let (w, h) = (s.bbox.width(), s.bbox.height());
    let cell = (y - s.bbox.min_y) * w + (x - s.bbox.min_x);
    lemma_cell_of(s, x, y);
    assert(cell_tile(s, tile_bw, cell) == x + y * tile_bw);
    let hits = s.all_hits(tile_bw);
    if s.contributes[cell] {
        lemma_cell_is_a_hit(s, tile_bw, w * h, cell);
    }
    if hits.contains(x + y * tile_bw) {
        let k = choose|k: int| 0 <= k < hits.len() && hits[k] == x + y * tile_bw;
        lemma_hit_has_a_cell(s, tile_bw, w * h, k);
        let other = choose|c: int|
            0 <= c < w * h && s.contributes[c] && #[trigger] cell_tile(s, tile_bw, c) == hits[k];
        let (col, row) = (other % w, other / w);
        vstd::arithmetic::div_mod::lemma_fundamental_div_mod(other, w);
        let (px, py) = (s.bbox.min_x + col, s.bbox.min_y + row);
        assert(0 <= col < w);
        assert(px == x && py == y) by (nonlinear_arith)
            requires
                px + py * tile_bw == x + y * tile_bw,
                0 <= px < tile_bw,
                0 <= x < tile_bw,
        ;
        assert(other == cell) by (nonlinear_arith)
            requires
                other == w * row + col,
                cell == row * w + col,
        ;
    }
}

/// The slots of a splat begin where those of the splat before it end, and those
/// of the first at the beginning.
pub proof fn slots_follow_each_other(cum: Seq<u32>, gid: int)
    requires
        0 <= gid < cum.len(),
    ensures
        first_slot(cum, 0) == 0,
        first_slot(cum, gid + 1) == cum[gid],
{
}

} // verus!
