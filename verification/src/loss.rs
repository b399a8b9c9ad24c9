//! The image-loss kernels: forward maps and per-tile sums, and the backward
//! pass with derivatives computed anew or kept from the forward pass.
//!
//! A kernel runs over square tiles. Each loads its tile with a margin, blurs
//! rows and then columns, and finishes pixel by pixel.
use vstd::prelude::*;

use crate::image_loss;
use crate::image_loss::{
    apply_mask, combine, composite, sign_of, ssim_partials, ssim_terms, unpack_byte,
    ChannelWeights, ImageLossConfig, PartialSource, Rgb, Scene, SsimPartials, Stats,
};
use crate::scalar;
use crate::scalar::{
    eval_from_byte, eval_from_count, eval_less, eval_magnitude, eval_minus, eval_one, eval_over,
    eval_plus, eval_same, eval_three, eval_times, eval_two, eval_zero, Scalar,
};
use crate::stencil;
use crate::stencil::{blur_buffer, gauss_taps, Lane, HALO};

verus! {

pub const BLOCK_X: u32 = 16;

pub const BLOCK_Y: u32 = 16;

pub const BWD_TILE_SMALL: u32 = 8;

pub const BWD_TILE_LARGE: u32 = 16;

/// Shared-memory footprint of the backward kernel at its larger tile.
pub const BWD_LARGE_SHARED_BYTES: usize = 29088;

/// Values that the backward kernel shares between its threads.
pub fn backward_shared_elements(tile: u32) -> (r: usize)
    requires
        tile <= BWD_TILE_LARGE,
    ensures
        r == (tile + 20) * (tile + 20) * 2 + (tile + 20) * (tile + 10) * 5,
        tile == BWD_TILE_LARGE ==> r * 4 == BWD_LARGE_SHARED_BYTES,
{
    let shared: u32 = tile + 2 * HALO;
    let extended: u32 = tile + 4 * HALO;
    proof {
        assert(0 <= extended * extended <= 36 * 36) by (nonlinear_arith)
            requires
                0 <= extended <= 36,
        ;
        assert(0 <= extended * shared <= 36 * 26) by (nonlinear_arith)
            requires
                0 <= extended <= 36,
                0 <= shared <= 26,
        ;
    }
    (extended * extended * 2 + extended * shared * 5) as usize
}

/// Picks the backward kernel's tile: the larger one where the device has the
/// memory and the threads for it.
pub fn select_backward_tile(
    max_shared_memory_size: usize,
    max_units_per_cube: u32,
    max_cube_dim: (u32, u32, u32),
) -> (tile: u32)
    ensures
        tile == BWD_TILE_LARGE <==> max_shared_memory_size >= BWD_LARGE_SHARED_BYTES
            && max_units_per_cube >= 256 && max_cube_dim.0 >= 16 && max_cube_dim.1 >= 16,
        tile != BWD_TILE_LARGE ==> tile == BWD_TILE_SMALL,
{
    if max_shared_memory_size >= BWD_LARGE_SHARED_BYTES && max_units_per_cube >= BWD_TILE_LARGE
        * BWD_TILE_LARGE && max_cube_dim.0 >= BWD_TILE_LARGE && max_cube_dim.1 >= BWD_TILE_LARGE {
        BWD_TILE_LARGE
    } else {
        BWD_TILE_SMALL
    }
}

/// What the loss kernels read: a prediction of `h * w` pixels with `cn`
/// channels, the packed ground truth, and the configuration.
pub struct LossInput<'a, S> {
    pub pred: &'a Vec<S>,
    pub gt_packed: &'a Vec<u32>,
    pub h: u32,
    pub w: u32,
    pub cn: u32,
    pub cfg: ImageLossConfig<S>,
}

impl<'a, S: Scalar> LossInput<'a, S> {
    /// The buffers fit the dimensions, which the kernels can index.
    pub open spec fn wf(&self) -> bool {
        &&& self.cn == 3 || self.cn == 4
        &&& self.pred.len() == self.h * self.w * self.cn
        &&& self.gt_packed.len() == self.h * self.w
        &&& self.h * self.w * self.cn <= u32::MAX
    }

    pub open spec fn scene(&self) -> Scene<S> {
        Scene {
            pred: self.pred@,
            gt: self.gt_packed@,
            h: self.h as int,
            w: self.w as int,
            cn: self.cn as int,
            cfg: self.cfg,
        }
    }
}

/// Where a position of a tile with a margin lies in the image, and whether it
/// lies outside. A position outside stands for the first pixel, so that it can
/// always be read.
pub fn coords(
    tile_y0: u32,
    tile_x0: u32,
    local_y: u32,
    local_x: u32,
    halo: u32,
    h: u32,
    w: u32,
) -> (r: (u32, u32, bool))
    requires
        tile_y0 + local_y <= u32::MAX,
        tile_x0 + local_x <= u32::MAX,
    ensures
        r.2 == !image_loss::inside(
            h as int,
            w as int,
            tile_y0 + local_y - halo,
            tile_x0 + local_x - halo,
        ),
        !r.2 ==> r.0 == tile_y0 + local_y - halo && r.1 == tile_x0 + local_x - halo,
        r.2 ==> r.0 == 0 && r.1 == 0,
{
    let total_y: u32 = tile_y0 + local_y;
    let total_x: u32 = tile_x0 + local_x;
    if total_y < halo || total_x < halo {
        return (0, 0, true);
    }
    let gy: u32 = total_y - halo;
    let gx: u32 = total_x - halo;
    if gy >= h || gx >= w {
        (0, 0, true)
    } else {
        (gy, gx, false)
    }
}

/// The number of tiles of a side along a dimension.
pub open spec fn tiles_for(n: int, side: int) -> int {
    (n + side - 1) / side
}

pub(crate) fn tiles_along(n: u32, side: u32) -> (r: u32)
    requires
        0 < side,
    ensures
        r == tiles_for(n as int, side as int),
{
    if n == 0 {
        assert((side - 1) / side as int == 0) by (nonlinear_arith)
            requires
                0 < side,
        ;
        0
    } else {
        assert((n + side - 1) / side as int == (n - 1) / side as int + 1) by (nonlinear_arith)
            requires
                0 < side,
                0 < n,
        ;
        assert((n - 1) / side as int <= n - 1) by (nonlinear_arith)
            requires
                0 < side,
                0 < n,
        ;
        (n - 1) / side + 1
    }
}

/// Number of tiles the loss kernel splits an image into.
pub fn loss_tiles(h: u32, w: u32) -> (r: u64)
    ensures
        r == image_loss::tile_count(h as int, w as int),
        r <= 0x100_0000_0000_0000,
{
    let across: u32 = tiles_along(w, BLOCK_X);
    let down: u32 = tiles_along(h, BLOCK_Y);
    assert(0 <= across * down <= 0x1000_0000 * 0x1000_0000) by (nonlinear_arith)
        requires
            0 <= across <= 0x1000_0000,
            0 <= down <= 0x1000_0000,
    ;
    across as u64 * down as u64
}

/// The grid of the forward kernel: tiles across, tiles down, planes.
pub fn cube_count_3d(c: u32, h: u32, w: u32) -> (r: (u32, u32, u32))
    ensures
        r == (
            tiles_for(w as int, 16) as u32,
            tiles_for(h as int, 16) as u32,
            c,
        ),
{
    (tiles_along(w, BLOCK_X), tiles_along(h, BLOCK_Y), c)
}

/// The grid of the backward kernel.
pub fn cube_count_3d_bwd(c: u32, h: u32, w: u32, tile: u32) -> (r: (u32, u32, u32))
    requires
        0 < tile,
    ensures
        r == (
            tiles_for(w as int, tile as int) as u32,
            tiles_for(h as int, tile as int) as u32,
            c,
        ),
{
    (tiles_along(w, tile), tiles_along(h, tile), c)
}

/// Whether the alpha-match term runs: it needs a weight and four channels.
pub fn alpha_match<S: Scalar>(cfg: &ImageLossConfig<S>, cn: u32) -> (r: bool)
    ensures
        scalar::deterministic::<S>() ==> r == image_loss::matches_alpha(*cfg, cn as int),
        r ==> cn == 4,
{
    eval_less(eval_zero(), cfg.alpha_weight) && cn == 4
}

/// Channel planes that the forward kernel launches.
pub fn planes<S: Scalar>(cfg: &ImageLossConfig<S>, cn: u32) -> (r: u32)
    ensures
        scalar::deterministic::<S>() ==> r == image_loss::plane_count(*cfg, cn as int),
        r == 3 || (r == 4 && cn == 4),
{
    if alpha_match(cfg, cn) {
        4
    } else {
        3
    }
}

/// The weights that turn per-tile channel sums into the loss.
pub fn channel_weights<S: Scalar>(cfg: &ImageLossConfig<S>, h: u32, w: u32) -> (r: ChannelWeights<
    S,
>)
    requires
        h * w <= u32::MAX,
    ensures
        scalar::deterministic::<S>() ==> r == image_loss::weights_of(*cfg, h as int, w as int),
{
    let pixels: S = eval_from_count(h * w);
    ChannelWeights {
        rgb: eval_over(eval_one(), eval_times(eval_three(), pixels)),
        alpha: eval_over(cfg.alpha_weight, pixels),
    }
}

proof fn lemma_pixel_in_bounds(h: int, w: int, cn: int, y: int, x: int, c: int)
    requires
        image_loss::inside(h, w, y, x),
        0 <= c < cn,
    ensures
        0 <= y * w + x < h * w,
        0 <= image_loss::pixel_slot(w, cn, y, x, c) < h * w * cn,
{
    stencil::lemma_slot_in_bounds(y, h, w, x, cn, c);
}

/// Dimensions of a non-empty image leave room for a tile's margin.
proof fn lemma_dims_small(h: int, w: int, cn: int)
    requires
        0 < h,
        0 < w,
        3 <= cn,
        h * w * cn <= u32::MAX,
    ensures
        3 * h <= u32::MAX,
        3 * w <= u32::MAX,
        h * w <= u32::MAX,
{
    assert(h * 3 <= h * w * cn && w * 3 <= h * w * cn && h * w <= h * w * cn) by (nonlinear_arith)
        requires
            0 < h,
            0 < w,
            3 <= cn,
    ;
}

fn read_pred<S: Scalar>(inp: &LossInput<S>, c: u32, y: u32, x: u32, oob: bool) -> (r: S)
    requires
        inp.wf(),
        c < inp.cn,
        !oob ==> y < inp.h && x < inp.w,
    ensures
        scalar::deterministic::<S>() ==> r == (if oob {
            scalar::zero()
        } else {
            image_loss::pred_at(inp.scene(), c as int, y as int, x as int)
        }),
{
    if oob {
        eval_zero()
    } else {
        proof {
            lemma_pixel_in_bounds(
                inp.h as int,
                inp.w as int,
                inp.cn as int,
                y as int,
                x as int,
                c as int,
            );
            assert(0 <= y * inp.w && 0 <= (y * inp.w + x) * inp.cn) by (nonlinear_arith);
            assert(y * inp.w + x < inp.gt_packed.len());
        }
        let pixel: usize = y as usize * inp.w as usize + x as usize;
        inp.pred[pixel * inp.cn as usize + c as usize]
    }
}

/// A colour byte and the alpha byte of a pixel, scaled; zeros where outside.
fn read_gt<S: Scalar>(inp: &LossInput<S>, c: u32, y: u32, x: u32, oob: bool) -> (r: (S, S))
    requires
        inp.wf(),
        c < 4,
        !oob ==> y < inp.h && x < inp.w,
    ensures
        scalar::deterministic::<S>() ==> r == (if oob {
            (scalar::zero(), scalar::zero())
        } else {
            (
                image_loss::gt_byte_at(inp.scene(), c as int, y as int, x as int),
                image_loss::alpha_at(inp.scene(), y as int, x as int),
            )
        }),
{
    if oob {
        (eval_zero(), eval_zero())
    } else {
        proof {
            lemma_pixel_in_bounds(inp.h as int, inp.w as int, 1, y as int, x as int, 0);
            assert(0 <= y * inp.w) by (nonlinear_arith);
        }
        let val: u32 = inp.gt_packed[y as usize * inp.w as usize + x as usize];
        (eval_from_byte(unpack_byte(val, c)), eval_from_byte(unpack_byte(val, 3)))
    }
}

/// The pairs of prediction and ground truth around a corner of the image.
pub open spec fn samples<S: Scalar>(sc: Scene<S>, c: int, y0: int, x0: int) -> spec_fn(
    int,
    int,
    int,
) -> S {
    |y: int, x: int, k: int|
        if k == 0 {
            image_loss::pred_at(sc, c, y0 + y, x0 + x)
        } else {
            image_loss::gt_at(sc, c, y0 + y, x0 + x)
        }
}

/// The blurred rows around a corner of the image.
pub open spec fn row_stats<S: Scalar>(sc: Scene<S>, c: int, y0: int, x0: int) -> spec_fn(
    int,
    int,
    int,
) -> S {
    |y: int, x: int, k: int| image_loss::row_stat(sc, c, k, y0 + y, x0 + x)
}

/// Loads a tile with a margin, two values a cell. The tile's threads take the
/// cells in turn, as often as it takes to cover them.
fn load_tile<S: Scalar>(
    inp: &LossInput<S>,
    c: u32,
    tile_y0: u32,
    tile_x0: u32,
    halo: u32,
    side: u32,
    threads: u32,
) -> (buf: Vec<S>)
    requires
        inp.wf(),
        c < 3,
        0 < side <= 36,
        0 < threads <= 256,
        tile_y0 + side <= u32::MAX,
        tile_x0 + side <= u32::MAX,
    ensures
        buf.len() == side * side * 2,
        scalar::deterministic::<S>() ==> stencil::holds(
            buf@,
            side as int,
            side as int,
            2,
            samples(inp.scene(), c as int, tile_y0 - halo, tile_x0 - halo),
        ),
{
    let ghost value = samples(inp.scene(), c as int, tile_y0 - halo, tile_x0 - halo);
    proof {
        assert(0 < side * side <= 36 * 36) by (nonlinear_arith)
            requires
                0 < side <= 36,
        ;
    }
    let size: u32 = side * side;
    let passes: u32 = tiles_along(size, threads);
    proof {
        lemma_passes_cover(size as int, threads as int);
    }
    let mut buf: Vec<S> = Vec::new();
    let mut tid: u32 = 0;
    while tid < passes * threads
        invariant
            inp.wf(),
            c < 3,
            0 < side <= 36,
            tile_y0 + side <= u32::MAX,
            tile_x0 + side <= u32::MAX,
            size == side * side,
            size <= 1296,
            size <= passes * threads < size + threads,
            0 < threads <= 256,
            tid <= passes * threads,
            buf.len() == (if tid < size {
                tid
            } else {
                size
            }) * 2,
            value == samples(inp.scene(), c as int, tile_y0 - halo, tile_x0 - halo),
            scalar::deterministic::<S>() ==> stencil::filled(
                buf@,
                side as int,
                2,
                if tid < size {
                    tid as int
                } else {
                    size as int
                },
                value,
            ),
        decreases passes * threads - tid,
    {
        if tid < size {
            let local_y: u32 = tid / side;
            let local_x: u32 = tid % side;
            proof {
                lemma_cell(tid as int, side as int, side as int);
            }
            let (gy, gx, oob) = coords(tile_y0, tile_x0, local_y, local_x, halo, inp.h, inp.w);
            let pv: S = read_pred(inp, c, gy, gx, oob);
            let (gt_c, gt_a) = read_gt(inp, c, gy, gx, oob);
            let gt_eff: S = composite(inp.cfg.composite_bg, c, gt_c, gt_a);
            buf.push(pv);
            buf.push(gt_eff);
            proof {
                if scalar::deterministic::<S>() {
                    lemma_next_cell(buf@, side as int, 2, tid as int, value);
                }
            }
        }
        tid = tid + 1;
    }
    proof {
        if scalar::deterministic::<S>() {
            stencil::lemma_filled_holds(buf@, side as int, side as int, 2, value);
        }
    }
    buf
}

/// Rounds of threads cover what they were counted for.
proof fn lemma_passes_cover(size: int, threads: int)
    requires
        0 < threads,
        0 <= size,
    ensures
        size <= tiles_for(size, threads) * threads < size + threads,
{
    let q = tiles_for(size, threads);
    assert(size <= q * threads < size + threads) by (nonlinear_arith)
        requires
            q == (size + threads - 1) / threads,
            0 < threads,
            0 <= size,
    ;
}

/// The row and column of a cell.
proof fn lemma_cell(t: int, rows: int, side: int)
    requires
        0 < side,
        0 <= t < rows * side,
    ensures
        0 <= t / side < rows,
        0 <= t % side < side,
        t == (t / side) * side + t % side,
{
    assert(0 <= t / side < rows && 0 <= t % side < side && t == (t / side) * side + t % side)
        by (nonlinear_arith)
        requires
            0 < side,
            0 <= t < rows * side,
    ;
}

/// Cells that were filled stay filled when the next one is added, and the next
/// one is filled if its lanes hold what they should.
proof fn lemma_next_cell<S>(
    buf: Seq<S>,
    side: int,
    lanes: int,
    t: int,
    value: spec_fn(int, int, int) -> S,
)
    requires
        0 <= t,
        0 < lanes,
        buf.len() == (t + 1) * lanes,
        stencil::filled(buf.take(t * lanes), side, lanes, t, value),
        forall|k: int|
            0 <= k < lanes ==> buf[#[trigger] stencil::nth_slot(t, lanes, k)] == value(
                t / side,
                t % side,
                k,
            ),
    ensures
        stencil::filled(buf, side, lanes, t + 1, value),
{
    let before = buf.take(t * lanes);
    assert forall|u: int, k: int| 0 <= u < t + 1 && 0 <= k < lanes implies buf[
        #[trigger] stencil::nth_slot(u, lanes, k)] == value(u / side, u % side, k) by {
        if u < t {
            assert(0 <= u * lanes + k < t * lanes) by (nonlinear_arith)
                requires
                    0 <= u < t,
                    0 <= k < lanes,
            ;
            assert(t * lanes <= buf.len()) by (nonlinear_arith)
                requires
                    buf.len() == (t + 1) * lanes,
                    0 < lanes,
            ;
            assert(before[stencil::nth_slot(u, lanes, k)] == buf[stencil::nth_slot(u, lanes, k)]);
        }
    }
}

/// Blurs the rows of a loaded tile: five sums a cell.
fn blur_rows<S: Scalar>(
    taps: &Vec<S>,
    buf: &Vec<S>,
    rows: u32,
    side: u32,
    threads: u32,
    Ghost(sc): Ghost<Scene<S>>,
    Ghost(c): Ghost<int>,
    Ghost(y0): Ghost<int>,
    Ghost(x0): Ghost<int>,
) -> (out: Vec<S>)
    requires
        stencil::are_taps(taps@),
        0 < rows <= 36,
        0 < side <= 26,
        0 < threads <= 256,
        buf.len() == rows * (side + 10) * 2,
        scalar::deterministic::<S>() ==> stencil::holds(
            buf@,
            rows as int,
            side + 10,
            2,
            samples(sc, c, y0, x0),
        ),
    ensures
        out.len() == rows * side * 5,
        scalar::deterministic::<S>() ==> stencil::holds(
            out@,
            rows as int,
            side as int,
            5,
            row_stats(sc, c, y0, x0 + 5),
        ),
{
    let ghost value = row_stats(sc, c, y0, x0 + 5);
    proof {
        assert(0 < rows * side <= 36 * 26) by (nonlinear_arith)
            requires
                0 < side <= 26,
                0 < rows <= 36,
        ;
    }
    let size: u32 = rows * side;
    let passes: u32 = tiles_along(size, threads);
    proof {
        lemma_passes_cover(size as int, threads as int);
    }
    let wide: u32 = side + 2 * HALO;
    let mut out: Vec<S> = Vec::new();
    let mut tid: u32 = 0;
    while tid < passes * threads
        invariant
            stencil::are_taps(taps@),
            0 < rows <= 36,
            0 < side <= 26,
            wide == side + 10,
            size == rows * side,
            size <= 936,
            size <= passes * threads < size + threads,
            0 < threads <= 256,
            tid <= passes * threads,
            buf.len() == rows * wide * 2,
            scalar::deterministic::<S>() ==> stencil::holds(
                buf@,
                rows as int,
                wide as int,
                2,
                samples(sc, c, y0, x0),
            ),
            out.len() == (if tid < size {
                tid
            } else {
                size
            }) * 5,
            value == row_stats(sc, c, y0, x0 + 5),
            scalar::deterministic::<S>() ==> stencil::filled(
                out@,
                side as int,
                5,
                if tid < size {
                    tid as int
                } else {
                    size as int
                },
                value,
            ),
        decreases passes * threads - tid,
    {
        if tid < size {
            let row_y: u32 = tid / side;
            let col_x: u32 = tid % side;
            proof {
                lemma_cell(tid as int, rows as int, side as int);
            }
            let s0: S = row_sum(
                taps,
                buf,
                rows,
                side,
                row_y,
                col_x,
                0,
                Ghost(sc),
                Ghost(c),
                Ghost(y0),
                Ghost(x0),
            );
            let s1: S = row_sum(
                taps,
                buf,
                rows,
                side,
                row_y,
                col_x,
                1,
                Ghost(sc),
                Ghost(c),
                Ghost(y0),
                Ghost(x0),
            );
            let s2: S = row_sum(
                taps,
                buf,
                rows,
                side,
                row_y,
                col_x,
                2,
                Ghost(sc),
                Ghost(c),
                Ghost(y0),
                Ghost(x0),
            );
            let s3: S = row_sum(
                taps,
                buf,
                rows,
                side,
                row_y,
                col_x,
                3,
                Ghost(sc),
                Ghost(c),
                Ghost(y0),
                Ghost(x0),
            );
            let s4: S = row_sum(
                taps,
                buf,
                rows,
                side,
                row_y,
                col_x,
                4,
                Ghost(sc),
                Ghost(c),
                Ghost(y0),
                Ghost(x0),
            );
            let ghost before = out@;
            out.push(s0);
            out.push(s1);
            out.push(s2);
            out.push(s3);
            out.push(s4);
            proof {
                assert(out@.take(tid * 5) == before);
                if scalar::deterministic::<S>() {
                    lemma_next_cell(out@, side as int, 5, tid as int, value);
                }
            }
        }
        tid = tid + 1;
    }
    proof {
        if scalar::deterministic::<S>() {
            stencil::lemma_filled_holds(out@, rows as int, side as int, 5, value);
        }
    }
    out
}

/// One of the five sums of a cell.
fn row_sum<S: Scalar>(
    taps: &Vec<S>,
    buf: &Vec<S>,
    rows: u32,
    side: u32,
    row_y: u32,
    col_x: u32,
    k: u32,
    Ghost(sc): Ghost<Scene<S>>,
    Ghost(c): Ghost<int>,
    Ghost(y0): Ghost<int>,
    Ghost(x0): Ghost<int>,
) -> (r: S)
    requires
        stencil::are_taps(taps@),
        0 < rows <= 36,
        0 < side <= 26,
        row_y < rows,
        col_x < side,
        k < 5,
        buf.len() == rows * (side + 10) * 2,
        scalar::deterministic::<S>() ==> stencil::holds(
            buf@,
            rows as int,
            side + 10,
            2,
            samples(sc, c, y0, x0),
        ),
    ensures
        scalar::deterministic::<S>() ==> r == image_loss::row_stat(
            sc,
            c,
            k as int,
            y0 + row_y,
            x0 + 5 + col_x,
        ),
{
    let wide: u32 = side + 2 * HALO;
    let center: u32 = col_x + HALO;
    proof {
        stencil::lemma_slot_in_bounds(row_y as int, rows as int, wide as int, center - 5, 2, 0);
        stencil::lemma_slot_in_bounds(row_y as int, rows as int, wide as int, center + 5, 2, 1);
        assert(rows * wide * 2 <= 2592) by (nonlinear_arith)
            requires
                0 < rows <= 36,
                0 < wide <= 36,
        ;
    }
    let at: usize = ((row_y * wide + center) * 2) as usize;
    let r: S = blur_buffer(taps, buf, at, 2, Lane::Moment(k));
    proof {
        if scalar::deterministic::<S>() {
            let f = stencil::strided(buf@, at as int, 2, Lane::Moment(k));
            let g = image_loss::row_moments(sc, c, k as int, y0 + row_y);
            let x = x0 + 5 + col_x;
            assert forall|t: int| -5 <= t <= 5 implies f(#[trigger] stencil::shifted(0, t)) == g(
                stencil::shifted(x, t),
            ) by {
                assert(at + t * 2 == stencil::slot(
                    row_y as int,
                    wide as int,
                    center + t,
                    2,
                    0,
                ));
                assert(at + t * 2 + 1 == stencil::slot(
                    row_y as int,
                    wide as int,
                    center + t,
                    2,
                    1,
                ));
            }
            stencil::lemma_blur_agrees(f, 0, g, x);
        }
    }
    r
}

/// The statistics of a cell, from the blurred rows around it.
fn column_stats<S: Scalar>(
    taps: &Vec<S>,
    buf: &Vec<S>,
    rows: u32,
    side: u32,
    center: u32,
    x: u32,
    Ghost(sc): Ghost<Scene<S>>,
    Ghost(c): Ghost<int>,
    Ghost(y0): Ghost<int>,
    Ghost(x0): Ghost<int>,
) -> (r: Stats<S>)
    requires
        stencil::are_taps(taps@),
        0 < rows <= 36,
        0 < side <= 26,
        5 <= center,
        center + 5 < rows,
        x < side,
        buf.len() == rows * side * 5,
        scalar::deterministic::<S>() ==> stencil::holds(
            buf@,
            rows as int,
            side as int,
            5,
            row_stats(sc, c, y0, x0),
        ),
    ensures
        scalar::deterministic::<S>() ==> r == image_loss::stats_at(sc, c, y0 + center, x0 + x),
{
    proof {
        stencil::lemma_slot_in_bounds(center - 5, rows as int, side as int, x as int, 5, 0);
        stencil::lemma_slot_in_bounds(center + 5, rows as int, side as int, x as int, 5, 4);
        assert((center - 5) * side == center * side - 5 * side) by (nonlinear_arith);
        assert((center + 5) * side == center * side + 5 * side) by (nonlinear_arith);
        assert(rows * side * 5 <= 4680) by (nonlinear_arith)
            requires
                0 < rows <= 36,
                0 < side <= 26,
        ;
    }
    let at: usize = ((center * side + x) * 5) as usize;
    let stride: usize = (side * 5) as usize;
    let r: Stats<S> = Stats {
        m0: blur_buffer(taps, buf, at, stride, Lane::Plain),
        m1: blur_buffer(taps, buf, at + 1, stride, Lane::Plain),
        m2: blur_buffer(taps, buf, at + 2, stride, Lane::Plain),
        m3: blur_buffer(taps, buf, at + 3, stride, Lane::Plain),
        m4: blur_buffer(taps, buf, at + 4, stride, Lane::Plain),
    };
    proof {
        if scalar::deterministic::<S>() {
            assert forall|k: int| 0 <= k < 5 implies stencil::blur(
                #[trigger] stencil::strided(buf@, at + k, stride as int, Lane::Plain),
                0,
            ) == image_loss::stat(sc, c, k, y0 + center, x0 + x) by {
                let f = stencil::strided(buf@, at + k, stride as int, Lane::Plain);
                let g = image_loss::column_stats(sc, c, k, x0 + x);
                let y = y0 + center;
                assert forall|t: int| -5 <= t <= 5 implies f(#[trigger] stencil::shifted(0, t))
                    == g(stencil::shifted(y, t)) by {
                    assert(at + k + t * stride == stencil::slot(
                        center + t,
                        side as int,
                        x as int,
                        5,
                        k,
                    )) by (nonlinear_arith)
                        requires
                            at == (center * side + x) * 5,
                            stride == side * 5,
                            stencil::slot(center + t, side as int, x as int, 5, k) == ((center + t)
                                * side + x) * 5 + k,
                    ;
                }
                stencil::lemma_blur_agrees(f, 0, g, y);
            }
            assert(stencil::strided(buf@, at + 0, stride as int, Lane::Plain) == stencil::strided(
                buf@,
                at as int,
                stride as int,
                Lane::Plain,
            ));
        }
    }
    r
}

/// A tile's corner lies in the image.
proof fn lemma_tile_corner(h: int, w: int, side: int, t: int)
    requires
        0 < h,
        0 < w,
        0 < side,
        0 <= t < tiles_for(w, side) * tiles_for(h, side),
    ensures
        0 < tiles_for(w, side),
        0 <= t / tiles_for(w, side) < tiles_for(h, side),
        0 <= t % tiles_for(w, side) < tiles_for(w, side),
        0 <= (t / tiles_for(w, side)) * side < h,
        0 <= (t % tiles_for(w, side)) * side < w,
        t == (t / tiles_for(w, side)) * tiles_for(w, side) + t % tiles_for(w, side),
{
    let tw = tiles_for(w, side);
    let th = tiles_for(h, side);
    lemma_passes_cover(w, side);
    lemma_passes_cover(h, side);
    assert(0 < tw) by (nonlinear_arith)
        requires
            w <= tw * side,
            0 < w,
            0 < side,
    ;
    assert(t < th * tw) by (nonlinear_arith)
        requires
            t < tw * th,
    ;
    lemma_cell(t, th, tw);
    let ty = t / tw;
    let tx = t % tw;
    assert(0 <= ty * side < h) by (nonlinear_arith)
        requires
            0 <= ty < th,
            th * side < h + side,
            0 < side,
    ;
    assert(0 <= tx * side < w) by (nonlinear_arith)
        requires
            0 <= tx < tw,
            tw * side < w + side,
            0 < side,
    ;
}

proof fn lemma_tile_count(h: int, w: int)
    ensures
        tiles_for(w, 16) * tiles_for(h, 16) == image_loss::tile_count(h, w),
        tiles_for(w, 16) == image_loss::tiles_across(w),
{
}

/// The losses of a tile of a channel, and the derivatives of the similarity
/// at its pixels where they are wanted.
#[verifier::rlimit(30)]
pub fn image_loss_forward_kernel<S: Scalar>(
    inp: &LossInput<S>,
    c: u32,
    tile_y0: u32,
    tile_x0: u32,
    l1_only: bool,
    tile: u32,
) -> (r: (Vec<S>, Vec<SsimPartials<S>>))
    requires
        inp.wf(),
        0 < inp.h,
        0 < inp.w,
        c < inp.cn,
        tile < image_loss::tile_count(inp.h as int, inp.w as int),
        tile_y0 == (tile as int / image_loss::tiles_across(inp.w as int)) * 16,
        tile_x0 == (tile as int % image_loss::tiles_across(inp.w as int)) * 16,
    ensures
        r.0.len() == 256,
        scalar::deterministic::<S>() ==> r.0@ == image_loss::tile_losses(
            inp.scene(),
            l1_only,
            c as int,
            tile as int,
        ),
        c < 3 && !l1_only ==> r.1.len() == 256,
        c < 3 && !l1_only && scalar::deterministic::<S>() ==> forall|i: int|
            0 <= i < 256 && image_loss::inside(
                inp.h as int,
                inp.w as int,
                tile_y0 + i / 16,
                tile_x0 + i % 16,
            ) ==> #[trigger] r.1[i] == image_loss::partials_of(
                image_loss::terms_of(
                    image_loss::stats_at(
                        inp.scene(),
                        c as int,
                        tile_y0 + i / 16,
                        tile_x0 + i % 16,
                    ),
                ),
            ),
{
    let ghost t = tile as int;
    let ghost sc = inp.scene();
    let ghost y0 = tile_y0 - 5;
    let ghost x0 = tile_x0 - 5;
    let plain: bool = c == 3 || l1_only;
    proof {
        lemma_tile_corner(inp.h as int, inp.w as int, 16, t);
        lemma_tile_count(inp.h as int, inp.w as int);
        lemma_dims_small(inp.h as int, inp.w as int, inp.cn as int);
    }
    let mut taps: Vec<S> = Vec::new();
    let mut s_tile: Vec<S> = Vec::new();
    let mut x_conv: Vec<S> = Vec::new();
    if !plain {
        taps = gauss_taps();
        s_tile = load_tile(inp, c, tile_y0, tile_x0, HALO, 26, BLOCK_X * BLOCK_Y);
        x_conv =
        blur_rows(
            &taps,
            &s_tile,
            26,
            16,
            BLOCK_X * BLOCK_Y,
            Ghost(sc),
            Ghost(c as int),
            Ghost(y0),
            Ghost(x0),
        );
    }
    let mut losses: Vec<S> = Vec::new();
    let mut partials: Vec<SsimPartials<S>> = Vec::new();
    let mut i: u32 = 0;
    while i < 256
        invariant
            i <= 256,
            inp.wf(),
            sc == inp.scene(),
            c < inp.cn,
            plain == (c == 3 || l1_only),
            y0 == tile_y0 - 5,
            x0 == tile_x0 - 5,
            tile_y0 < inp.h,
            tile_x0 < inp.w,
            3 * inp.h <= u32::MAX,
            3 * inp.w <= u32::MAX,
            tile_y0 == (t / image_loss::tiles_across(inp.w as int)) * 16,
            tile_x0 == (t % image_loss::tiles_across(inp.w as int)) * 16,
            !plain ==> stencil::are_taps(taps@),
            !plain ==> s_tile.len() == 26 * 26 * 2,
            !plain ==> x_conv.len() == 26 * 16 * 5,
            !plain && scalar::deterministic::<S>() ==> stencil::holds(
                s_tile@,
                26,
                26,
                2,
                samples(sc, c as int, y0, x0),
            ),
            !plain && scalar::deterministic::<S>() ==> stencil::holds(
                x_conv@,
                26,
                16,
                5,
                row_stats(sc, c as int, y0, x0 + 5),
            ),
            losses.len() == i,
            !plain ==> partials.len() == i,
            scalar::deterministic::<S>() ==> forall|j: int|
                0 <= j < i ==> #[trigger] losses[j] == image_loss::tile_losses(
                    sc,
                    l1_only,
                    c as int,
                    t,
                )[j],
            !plain && scalar::deterministic::<S>() ==> forall|j: int|
                0 <= j < i && image_loss::inside(
                    inp.h as int,
                    inp.w as int,
                    tile_y0 + j / 16,
                    tile_x0 + j % 16,
                ) ==> #[trigger] partials[j] == image_loss::partials_of(
                    image_loss::terms_of(
                        image_loss::stats_at(sc, c as int, tile_y0 + j / 16, tile_x0 + j % 16),
                    ),
                ),
        decreases 256 - i,
    {
        let unit_y: u32 = i / BLOCK_X;
        let unit_x: u32 = i % BLOCK_X;
        let pix_y: u32 = tile_y0 + unit_y;
        let pix_x: u32 = tile_x0 + unit_x;
        let in_bounds: bool = pix_x < inp.w && pix_y < inp.h;
        if !plain {
            let stats: Stats<S> = column_stats(
                &taps,
                &x_conv,
                26,
                16,
                unit_y + HALO,
                unit_x,
                Ghost(sc),
                Ghost(c as int),
                Ghost(y0),
                Ghost(x0 + 5),
            );
            let terms = ssim_terms(stats);
            partials.push(ssim_partials(terms));
            if in_bounds {
                proof {
                    stencil::lemma_slot_in_bounds(unit_y + 5, 26, 26, unit_x + 5, 2, 0);
                    stencil::lemma_slot_in_bounds(unit_y + 5, 26, 26, unit_x + 5, 2, 1);
                }
                let centre: usize = ((unit_y + HALO) * 26 + (unit_x + HALO)) as usize;
                let p1: S = s_tile[centre * 2];
                let p2: S = s_tile[centre * 2 + 1];
                assert(centre * 2 == stencil::slot(unit_y + 5, 26, unit_x + 5, 2, 0));
                assert(centre * 2 + 1 == stencil::slot(unit_y + 5, 26, unit_x + 5, 2, 1));
                let (_, gt_a) = read_gt(inp, c, pix_y, pix_x, false);
                losses.push(apply_mask(inp.cfg.mask, combine(&inp.cfg, p1, p2, terms), gt_a));
            } else {
                losses.push(eval_zero());
            }
        } else if in_bounds {
            let p: S = read_pred(inp, c, pix_y, pix_x, false);
            let (gt_c, gt_a) = read_gt(inp, c, pix_y, pix_x, false);
            let value: S = if c == 3 {
                eval_magnitude(eval_minus(p, gt_a))
            } else {
                let gt_eff: S = composite(inp.cfg.composite_bg, c, gt_c, gt_a);
                eval_times(inp.cfg.l1_weight, eval_magnitude(eval_minus(p, gt_eff)))
            };
            losses.push(apply_mask(inp.cfg.mask, value, gt_a));
        } else {
            losses.push(eval_zero());
        }
        i = i + 1;
    }
    proof {
        if scalar::deterministic::<S>() {
            assert(losses@ =~= image_loss::tile_losses(sc, l1_only, c as int, t));
        }
    }
    (losses, partials)
}

/// Sums a tile by halves.
pub fn tile_sum<S: Scalar>(values: &Vec<S>) -> (r: S)
    requires
        values.len() == 256,
    ensures
        scalar::deterministic::<S>() ==> r == image_loss::tree_sum(values@),
{
    let mut buf: Vec<S> = halve(values);
    let mut stride: usize = 128;
    while stride > 1
        invariant
            stride == 1 || stride == 2 || stride == 4 || stride == 8 || stride == 16 || stride
                == 32 || stride == 64 || stride == 128,
            buf.len() == stride,
            scalar::deterministic::<S>() ==> image_loss::tree_sum(buf@) == image_loss::tree_sum(
                values@,
            ),
        decreases stride,
    {
        buf = halve(&buf);
        stride = stride / 2;
    }
    buf[0]
}

/// Adds the second half of a buffer onto the first.
fn halve<S: Scalar>(values: &Vec<S>) -> (r: Vec<S>)
    requires
        values.len() % 2 == 0,
    ensures
        r.len() == values.len() / 2,
        scalar::deterministic::<S>() ==> r@ == image_loss::halved(values@),
{
    let half: usize = values.len() / 2;
    let mut r: Vec<S> = Vec::new();
    let mut i: usize = 0;
    while i < half
        invariant
            i <= half,
            half == values.len() / 2,
            values.len() % 2 == 0,
            r.len() == i,
            scalar::deterministic::<S>() ==> forall|j: int|
                0 <= j < i ==> #[trigger] r[j] == image_loss::halved(values@)[j],
        decreases half - i,
    {
        r.push(eval_plus(values[i], values[i + half]));
        i = i + 1;
    }
    proof {
        if scalar::deterministic::<S>() {
            assert(r@ =~= image_loss::halved(values@));
        }
    }
    r
}

/// The tile of a side that holds a pixel.
pub open spec fn tile_holding(w: int, side: int, y: int, x: int) -> int {
    (y / side) * tiles_for(w, side) + x / side
}

/// The thread of a tile that handles a pixel.
pub open spec fn unit_of(side: int, y: int, x: int) -> int {
    (y % side) * side + x % side
}

/// The index of a pixel in a plane of a buffer.
pub open spec fn plane_slot(base: int, w: int, step: int, y: int, x: int) -> int {
    base + (y * w + x) * step
}

proof fn lemma_divided(q: int, side: int, r: int)
    requires
        0 <= r < side,
    ensures
        (q * side + r) / side == q,
        (q * side + r) % side == r,
{
    assert((q * side + r) / side == q && (q * side + r) % side == r) by (nonlinear_arith)
        requires
            0 <= r < side,
    ;
}

/// A pixel is found again from its tile and its thread, and the other way
/// round.
proof fn lemma_tile_unit(h: int, w: int, side: int, t: int, i: int, y: int, x: int)
    requires
        0 < w,
        0 < side,
        0 <= t < tiles_for(w, side) * tiles_for(h, side),
        0 <= i < side * side,
        image_loss::inside(h, w, y, x),
    ensures
        0 <= unit_of(side, y, x) < side * side,
        (tile_holding(w, side, y, x) == t && unit_of(side, y, x) == i) <==> (y == (t / tiles_for(
            w,
            side,
        )) * side + i / side && x == (t % tiles_for(w, side)) * side + i % side),
{
    let tw = tiles_for(w, side);
    lemma_passes_cover(w, side);
    assert(0 < tw) by (nonlinear_arith)
        requires
            w <= tw * side,
            0 < w,
            0 < side,
    ;
    assert(0 <= x / side < tw) by (nonlinear_arith)
        requires
            0 <= x < w,
            w <= tw * side,
            0 < side,
    ;
    assert(0 <= y % side < side && 0 <= x % side < side && y == (y / side) * side + y % side && x
        == (x / side) * side + x % side) by (nonlinear_arith)
        requires
            0 < side,
    ;
    lemma_divided(y / side, tw, x / side);
    lemma_divided(y % side, side, x % side);
    assert(0 <= (y % side) * side + x % side < side * side) by (nonlinear_arith)
        requires
            0 <= y % side < side,
            0 <= x % side < side,
    ;
    lemma_cell(i, side, side);
    lemma_divided(t / tw, side, i / side);
    lemma_divided(t % tw, side, i % side);
    assert(t == (t / tw) * tw + t % tw) by (nonlinear_arith)
        requires
            0 < tw,
    ;
}

proof fn lemma_plane_slot(base: int, h: int, w: int, step: int, y: int, x: int)
    requires
        image_loss::inside(h, w, y, x),
        0 < step,
        0 <= base,
    ensures
        base <= plane_slot(base, w, step, y, x) <= base + (h * w - 1) * step,
        (plane_slot(base, w, step, y, x) - base) % step == 0,
{
    lemma_pixel_in_bounds(h, w, 1, y, x, 0);
    let t = y * w + x;
    let n = h * w;
    assert(0 <= t * step <= (n - 1) * step) by (nonlinear_arith)
        requires
            0 <= t <= n - 1,
            0 < step,
    ;
    lemma_divided(t, step, 0);
}

proof fn lemma_plane_slots_differ(
    base: int,
    h: int,
    w: int,
    step: int,
    y: int,
    x: int,
    v: int,
    u: int,
)
    requires
        image_loss::inside(h, w, y, x),
        image_loss::inside(h, w, v, u),
        0 < step,
        plane_slot(base, w, step, y, x) == plane_slot(base, w, step, v, u),
    ensures
        y == v && x == u,
{
    let a = y * w + x;
    let b = v * w + u;
    assert(a == b) by (nonlinear_arith)
        requires
            a * step == b * step,
            0 < step,
    ;
    lemma_divided(y, w, x);
    lemma_divided(v, w, u);
}

/// Writes a tile's values to the pixels that lie in the image.
#[verifier::rlimit(40)]
fn scatter_tile<S: Copy>(
    out: &mut Vec<S>,
    values: &Vec<S>,
    h: u32,
    w: u32,
    side: u32,
    tile_y0: u32,
    tile_x0: u32,
    base: usize,
    step: usize,
    Ghost(t): Ghost<int>,
)
    requires
        0 < h,
        0 < w,
        0 < side <= 16,
        0 < step,
        3 * h <= u32::MAX,
        3 * w <= u32::MAX,
        values.len() == side * side,
        base + (h * w - 1) * step < old(out).len(),
        0 <= t < tiles_for(w as int, side as int) * tiles_for(h as int, side as int),
        tile_y0 == (t / tiles_for(w as int, side as int)) * side,
        tile_x0 == (t % tiles_for(w as int, side as int)) * side,
    ensures
        final(out).len() == old(out).len(),
        forall|y: int, x: int|
            image_loss::inside(h as int, w as int, y, x) ==> final(out)@[#[trigger] plane_slot(
                base as int,
                w as int,
                step as int,
                y,
                x,
            )] == (if tile_holding(w as int, side as int, y, x) == t {
                values@[unit_of(side as int, y, x)]
            } else {
                old(out)@[plane_slot(base as int, w as int, step as int, y, x)]
            }),
        forall|i: int|
            0 <= i < old(out).len() && (i < base || i > base + (h * w - 1) * step || (i - base)
                % (step as int) != 0) ==> #[trigger] final(out)@[i] == old(out)@[i],
{
    let ghost before = out@;
    proof {
        lemma_tile_corner(h as int, w as int, side as int, t);
        assert(side * side <= 256) by (nonlinear_arith)
            requires
                0 < side <= 16,
        ;
    }
    let mut i: u32 = 0;
    while i < side * side
        invariant
            i <= side * side,
            side * side <= 256,
            0 < h,
            0 < w,
            0 < side <= 16,
            0 < step,
            3 * h <= u32::MAX,
            3 * w <= u32::MAX,
            tile_y0 < h,
            tile_x0 < w,
            values.len() == side * side,
            out.len() == before.len(),
            base + (h * w - 1) * step < before.len(),
            0 <= t < tiles_for(w as int, side as int) * tiles_for(h as int, side as int),
            tile_y0 == (t / tiles_for(w as int, side as int)) * side,
            tile_x0 == (t % tiles_for(w as int, side as int)) * side,
            forall|y: int, x: int|
                image_loss::inside(h as int, w as int, y, x) ==> out@[#[trigger] plane_slot(
                    base as int,
                    w as int,
                    step as int,
                    y,
                    x,
                )] == (if tile_holding(w as int, side as int, y, x) == t && unit_of(
                    side as int,
                    y,
                    x,
                ) < i {
                    values@[unit_of(side as int, y, x)]
                } else {
                    before[plane_slot(base as int, w as int, step as int, y, x)]
                }),
            forall|j: int|
                0 <= j < before.len() && (j < base || j > base + (h * w - 1) * step || (j - base)
                    % (step as int) != 0) ==> #[trigger] out@[j] == before[j],
        decreases side * side - i,
    {
        proof {
            lemma_cell(i as int, side as int, side as int);
        }
        let ghost sofar = out@;
        let pix_y: u32 = tile_y0 + i / side;
        let pix_x: u32 = tile_x0 + i % side;
        if pix_y < h && pix_x < w {
            proof {
                lemma_plane_slot(
                    base as int,
                    h as int,
                    w as int,
                    step as int,
                    pix_y as int,
                    pix_x as int,
                );
                assert(0 <= pix_y * w) by (nonlinear_arith);
                assert(pix_y * w + pix_x <= (pix_y * w + pix_x) * step) by (nonlinear_arith)
                    requires
                        0 < step,
                        0 <= pix_y * w,
                ;
            }
            let pixel: usize = pix_y as usize * w as usize + pix_x as usize;
            out.set(base + pixel * step, values[i as usize]);
        }
        proof {
            assert forall|y: int, x: int| image_loss::inside(h as int, w as int, y, x) implies out@[
                #[trigger] plane_slot(base as int, w as int, step as int, y, x)] == (if tile_holding(
                w as int,
                side as int,
                y,
                x,
            ) == t && unit_of(side as int, y, x) < i + 1 {
                values@[unit_of(side as int, y, x)]
            } else {
                before[plane_slot(base as int, w as int, step as int, y, x)]
            }) by {
                lemma_tile_unit(h as int, w as int, side as int, t, i as int, y, x);
                lemma_plane_slot(base as int, h as int, w as int, step as int, y, x);
                assert(sofar[plane_slot(base as int, w as int, step as int, y, x)] == sofar[plane_slot(
                    base as int,
                    w as int,
                    step as int,
                    y,
                    x,
                )]);
                if pix_y < h && pix_x < w && plane_slot(
                    base as int,
                    w as int,
                    step as int,
                    y,
                    x,
                ) == plane_slot(
                    base as int,
                    w as int,
                    step as int,
                    pix_y as int,
                    pix_x as int,
                ) {
                    lemma_plane_slots_differ(
                        base as int,
                        h as int,
                        w as int,
                        step as int,
                        y,
                        x,
                        pix_y as int,
                        pix_x as int,
                    );
                }
            }
        }
        i = i + 1;
    }
    proof {
        assert forall|y: int, x: int| image_loss::inside(h as int, w as int, y, x) implies out@[
            #[trigger] plane_slot(base as int, w as int, step as int, y, x)] == (if tile_holding(
            w as int,
            side as int,
            y,
            x,
        ) == t {
            values@[unit_of(side as int, y, x)]
        } else {
            before[plane_slot(base as int, w as int, step as int, y, x)]
        }) by {
            assert(0 < side * side) by (nonlinear_arith)
                requires
                    0 < side,
            ;
            lemma_tile_unit(h as int, w as int, side as int, t, 0, y, x);
        }
    }
}

fn zeros<S: Scalar>(n: usize) -> (r: Vec<S>)
    ensures
        r.len() == n,
        scalar::deterministic::<S>() ==> forall|i: int|
            0 <= i < n ==> #[trigger] r[i] == scalar::zero::<S>(),
{
    let mut r: Vec<S> = Vec::new();
    let mut i: usize = 0;
    while i < n
        invariant
            i <= n,
            r.len() == i,
            scalar::deterministic::<S>() ==> forall|j: int|
                0 <= j < i ==> #[trigger] r[j] == scalar::zero::<S>(),
        decreases n - i,
    {
        r.push(eval_zero());
        i = i + 1;
    }
    r
}

/// Whether the similarity has no weight.
fn ignores_similarity<S: Scalar>(cfg: &ImageLossConfig<S>) -> (r: bool)
    ensures
        scalar::deterministic::<S>() ==> r == no_similarity(*cfg),
{
    eval_same(cfg.ssim_weight, eval_zero())
}

pub open spec fn no_similarity<S: Scalar>(cfg: ImageLossConfig<S>) -> bool {
    scalar::same(cfg.ssim_weight, scalar::zero())
}

/// Channels of a pixel do not share a place.
proof fn lemma_channels_apart(w: int, cn: int, y: int, x: int, c: int, d: int)
    requires
        0 <= c < cn,
        0 <= d < cn,
        c != d,
    ensures
        (plane_slot(d, w, cn, y, x) - c) % cn != 0,
{
    let t = y * w + x;
    if d > c {
        lemma_divided(t, cn, d - c);
    } else {
        assert(t * cn + (d - c) == (t - 1) * cn + (cn + d - c)) by (nonlinear_arith);
        lemma_divided(t - 1, cn, cn + d - c);
    }
}

/// A pixel's value among those of its tile.
proof fn lemma_own_value<S: Scalar>(sc: Scene<S>, l1_only: bool, c: int, t: int, y: int, x: int)
    requires
        0 < sc.w,
        0 <= t < image_loss::tile_count(sc.h, sc.w),
        image_loss::inside(sc.h, sc.w, y, x),
        image_loss::tile_of(sc.w, y, x) == t,
    ensures
        0 <= unit_of(16, y, x) < 256,
        y == (t / image_loss::tiles_across(sc.w)) * 16 + unit_of(16, y, x) / 16,
        x == (t % image_loss::tiles_across(sc.w)) * 16 + unit_of(16, y, x) % 16,
        image_loss::tile_losses(sc, l1_only, c, t)[unit_of(16, y, x)] == image_loss::loss_at(
            sc,
            l1_only,
            c,
            y,
            x,
        ),
{
    lemma_tile_count(sc.h, sc.w);
    lemma_tile_unit(sc.h, sc.w, 16, t, 0, y, x);
    lemma_tile_unit(sc.h, sc.w, 16, t, unit_of(16, y, x), y, x);
}

proof fn lemma_tile_in_range(h: int, w: int, side: int, y: int, x: int)
    requires
        image_loss::inside(h, w, y, x),
        0 < side,
    ensures
        0 <= tile_holding(w, side, y, x) < tiles_for(w, side) * tiles_for(h, side),
{
    lemma_passes_cover(w, side);
    lemma_passes_cover(h, side);
    let tw = tiles_for(w, side);
    let th = tiles_for(h, side);
    assert(0 <= y / side < th) by (nonlinear_arith)
        requires
            0 <= y < h,
            h <= th * side,
            0 < side,
    ;
    assert(0 <= x / side < tw) by (nonlinear_arith)
        requires
            0 <= x < w,
            w <= tw * side,
            0 < side,
    ;
    let a = y / side;
    let b = x / side;
    assert(0 <= a * tw + b < tw * th) by (nonlinear_arith)
        requires
            0 <= a < th,
            0 <= b < tw,
    ;
}

/// The grid of a non-empty image has no more tiles than the image has pixels.
proof fn lemma_grid_small(h: int, w: int, side: int)
    requires
        0 < h,
        0 < w,
        0 < side,
        h * w <= u32::MAX,
    ensures
        0 < tiles_for(w, side) <= w,
        0 < tiles_for(h, side) <= h,
        tiles_for(w, side) * tiles_for(h, side) <= u32::MAX,
{
    assert(0 < (w + side - 1) / side <= w) by (nonlinear_arith)
        requires
            0 < w,
            0 < side,
    ;
    assert(0 < (h + side - 1) / side <= h) by (nonlinear_arith)
        requires
            0 < h,
            0 < side,
    ;
    let a = tiles_for(w, side);
    let b = tiles_for(h, side);
    assert(a * b <= h * w) by (nonlinear_arith)
        requires
            0 < a <= w,
            0 < b <= h,
    ;
}

/// The losses of every channel of every pixel. The alpha channel holds the alpha
/// match where it runs, and zero where it does not.
pub open spec fn is_loss_map<S: Scalar>(sc: Scene<S>, l1_only: bool, map: Seq<S>) -> bool {
    &&& map.len() == sc.h * sc.w * sc.cn
    &&& forall|y: int, x: int, c: int|
        image_loss::inside(sc.h, sc.w, y, x) && 0 <= c < sc.cn ==> map[
            #[trigger] image_loss::pixel_slot(sc.w, sc.cn, y, x, c)] == (if c
            < image_loss::plane_count(sc.cfg, sc.cn) {
            image_loss::loss_at(sc, l1_only, c, y, x)
        } else {
            scalar::zero()
        })
}

/// The per-pixel loss map, `cn` channels a pixel, for evaluation. The alpha
/// channel holds the alpha match where it runs, and zero where it does not.
#[verifier::rlimit(40)]
#[verifier::spinoff_prover]
pub fn image_loss_eval<S: Scalar>(inp: &LossInput<S>) -> (map: Vec<S>)
    requires
        inp.wf(),
    ensures
        map.len() == inp.h * inp.w * inp.cn,
        scalar::deterministic::<S>() ==> is_loss_map(inp.scene(), no_similarity(inp.cfg), map@),
{
    let ghost sc = inp.scene();
    let mut map: Vec<S> = zeros(inp.pred.len());
    if inp.h == 0 || inp.w == 0 {
        return map;
    }
    proof {
        lemma_dims_small(inp.h as int, inp.w as int, inp.cn as int);
        lemma_grid_small(inp.h as int, inp.w as int, 16);
        lemma_tile_count(inp.h as int, inp.w as int);
        assert forall|y: int, x: int, c: int|
            image_loss::inside(inp.h as int, inp.w as int, y, x) && 0 <= c
                < inp.cn implies 0 <= #[trigger] plane_slot(
            c,
            inp.w as int,
            inp.cn as int,
            y,
            x,
        ) < map.len() by {
            lemma_pixel_in_bounds(inp.h as int, inp.w as int, inp.cn as int, y, x, c);
        }
    }
    let count: u32 = planes(&inp.cfg, inp.cn);
    let l1_only: bool = ignores_similarity(&inp.cfg);
    let across: u32 = tiles_along(inp.w, BLOCK_X);
    let down: u32 = tiles_along(inp.h, BLOCK_Y);
    let mut c: u32 = 0;
    while c < count
        invariant
            inp.wf(),
            sc == inp.scene(),
            0 < inp.h,
            0 < inp.w,
            3 * inp.h <= u32::MAX,
            3 * inp.w <= u32::MAX,
            c <= count <= inp.cn,
            across == tiles_for(inp.w as int, 16),
            down == tiles_for(inp.h as int, 16),
            0 < across,
            across * down <= u32::MAX,
            across * down == image_loss::tile_count(inp.h as int, inp.w as int),
            map.len() == inp.h * inp.w * inp.cn,
            scalar::deterministic::<S>() ==> forall|y: int, x: int, d: int|
                image_loss::inside(inp.h as int, inp.w as int, y, x) && 0 <= d < inp.cn ==> map@[
                    #[trigger] plane_slot(d, inp.w as int, inp.cn as int, y, x)] == (if d < c {
                    image_loss::loss_at(sc, l1_only, d, y, x)
                } else {
                    scalar::zero()
                }),
        decreases count - c,
    {
        let mut t: u32 = 0;
        while t < across * down
            invariant
                inp.wf(),
                sc == inp.scene(),
                0 < inp.h,
                0 < inp.w,
                3 * inp.h <= u32::MAX,
                3 * inp.w <= u32::MAX,
                c < count <= inp.cn,
                across == tiles_for(inp.w as int, 16),
                down == tiles_for(inp.h as int, 16),
                0 < across,
                across * down <= u32::MAX,
                across * down == image_loss::tile_count(inp.h as int, inp.w as int),
                t <= across * down,
                map.len() == inp.h * inp.w * inp.cn,
                scalar::deterministic::<S>() ==> forall|y: int, x: int, d: int|
                    image_loss::inside(inp.h as int, inp.w as int, y, x) && 0 <= d < inp.cn
                        ==> map@[#[trigger] plane_slot(d, inp.w as int, inp.cn as int, y, x)] == (if d
                        < c || (d == c && image_loss::tile_of(inp.w as int, y, x) < t) {
                        image_loss::loss_at(sc, l1_only, d, y, x)
                    } else {
                        scalar::zero()
                    }),
            decreases across * down - t,
        {
            proof {
                lemma_tile_corner(inp.h as int, inp.w as int, 16, t as int);
                lemma_tile_count(inp.h as int, inp.w as int);
                assert((inp.h * inp.w - 1) * inp.cn + c < inp.h * inp.w * inp.cn)
                    by (nonlinear_arith)
                    requires
                        c < inp.cn,
                ;
            }
            let tile_y0: u32 = (t / across) * BLOCK_Y;
            let tile_x0: u32 = (t % across) * BLOCK_X;
            let (losses, _) = image_loss_forward_kernel(inp, c, tile_y0, tile_x0, l1_only, t);
            let ghost before = map@;
            scatter_tile(
                &mut map,
                &losses,
                inp.h,
                inp.w,
                BLOCK_X,
                tile_y0,
                tile_x0,
                c as usize,
                inp.cn as usize,
                Ghost(t as int),
            );
            proof {
                if scalar::deterministic::<S>() {
                    assert forall|y: int, x: int, d: int|
                        image_loss::inside(inp.h as int, inp.w as int, y, x) && 0 <= d
                            < inp.cn implies map@[#[trigger] plane_slot(
                        d,
                        inp.w as int,
                        inp.cn as int,
                        y,
                        x,
                    )] == (if d < c || (d == c && image_loss::tile_of(inp.w as int, y, x) < t + 1) {
                        image_loss::loss_at(sc, l1_only, d, y, x)
                    } else {
                        scalar::zero()
                    }) by {
                        assert(before[plane_slot(d, inp.w as int, inp.cn as int, y, x)] == before[plane_slot(
                            d,
                            inp.w as int,
                            inp.cn as int,
                            y,
                            x,
                        )]);
                        lemma_pixel_in_bounds(
                            inp.h as int,
                            inp.w as int,
                            inp.cn as int,
                            y,
                            x,
                            d,
                        );
                        if d != c {
                            lemma_channels_apart(
                                inp.w as int,
                                inp.cn as int,
                                y,
                                x,
                                c as int,
                                d,
                            );
                        } else if image_loss::tile_of(inp.w as int, y, x) == t {
                            lemma_own_value(sc, l1_only, d, t as int, y, x);
                        }
                    }
                }
            }
            t = t + 1;
        }
        proof {
            if scalar::deterministic::<S>() {
                assert forall|y: int, x: int, d: int|
                    image_loss::inside(inp.h as int, inp.w as int, y, x) && 0 <= d
                        < inp.cn implies map@[#[trigger] plane_slot(
                    d,
                    inp.w as int,
                    inp.cn as int,
                    y,
                    x,
                )] == (if d < c + 1 {
                    image_loss::loss_at(sc, l1_only, d, y, x)
                } else {
                    scalar::zero()
                }) by {
                    lemma_tile_in_range(inp.h as int, inp.w as int, 16, y, x);
                }
            }
        }
        c = c + 1;
    }
    proof {
        if scalar::deterministic::<S>() {
            assert forall|y: int, x: int, d: int|
                image_loss::inside(inp.h as int, inp.w as int, y, x) && 0 <= d < inp.cn implies map@[
                #[trigger] image_loss::pixel_slot(inp.w as int, inp.cn as int, y, x, d)] == (if d
                < image_loss::plane_count(inp.cfg, inp.cn as int) {
                image_loss::loss_at(sc, no_similarity(inp.cfg), d, y, x)
            } else {
                scalar::zero()
            }) by {
                assert(image_loss::pixel_slot(inp.w as int, inp.cn as int, y, x, d) == plane_slot(
                    d,
                    inp.w as int,
                    inp.cn as int,
                    y,
                    x,
                ));
            }
        }
    }
    map
}

/// One of the three derivatives at each pixel of a tile.
fn pick_partials<S: Scalar>(partials: &Vec<SsimPartials<S>>, j: u32) -> (r: Vec<S>)
    requires
        j < 3,
    ensures
        r.len() == partials.len(),
        forall|i: int|
            0 <= i < r.len() ==> #[trigger] r[i] == image_loss::pick(partials[i], j as int),
{
    let mut r: Vec<S> = Vec::new();
    let mut i: usize = 0;
    while i < partials.len()
        invariant
            i <= partials.len(),
            j < 3,
            r.len() == i,
            forall|k: int|
                0 <= k < i ==> #[trigger] r[k] == image_loss::pick(partials[k], j as int),
        decreases partials.len() - i,
    {
        if j == 0 {
            r.push(partials[i].dmu1);
        } else if j == 1 {
            r.push(partials[i].dsigma1);
        } else {
            r.push(partials[i].dsigma12);
        }
        i = i + 1;
    }
    r
}

/// A kept derivative's place, by planes.
proof fn lemma_saved_slot(h: int, w: int, j: int, c: int, y: int, x: int)
    requires
        image_loss::inside(h, w, y, x),
        0 <= j < 3,
        0 <= c < 3,
    ensures
        image_loss::saved_slot(h, w, j, c, y, x) == plane_slot((j * 3 + c) * (h * w), w, 1, y, x),
        0 <= image_loss::saved_slot(h, w, j, c, y, x) < 9 * (h * w),
{
    let p = j * 3 + c;
    assert((p * h + y) * w + x == p * (h * w) + (y * w + x)) by (nonlinear_arith);
    lemma_pixel_in_bounds(h, w, 1, y, x, 0);
    let n = h * w;
    assert(0 <= p * n && p * n + n <= 9 * n) by (nonlinear_arith)
        requires
            0 <= p < 9,
            0 <= n,
    ;
    assert((y * w + x) * 1 == y * w + x);
}

/// Planes of kept derivatives do not overlap.
proof fn lemma_planes_apart(h: int, w: int, p: int, q: int, y: int, x: int)
    requires
        image_loss::inside(h, w, y, x),
        p != q,
    ensures
        plane_slot(q * (h * w), w, 1, y, x) < p * (h * w) || plane_slot(q * (h * w), w, 1, y, x)
            > p * (h * w) + (h * w - 1) * 1,
{
    lemma_pixel_in_bounds(h, w, 1, y, x, 0);
    let n = h * w;
    let r = y * w + x;
    assert((y * w + x) * 1 == r);
    assert(q * n + r < p * n || q * n + r > p * n + (n - 1)) by (nonlinear_arith)
        requires
            0 <= r < n,
            p != q,
    ;
}

/// Keeps the derivatives of a tile of a colour.
#[verifier::rlimit(40)]
fn save_tile<S: Scalar>(
    saved: &mut Vec<S>,
    partials: &Vec<SsimPartials<S>>,
    h: u32,
    w: u32,
    c: u32,
    tile_y0: u32,
    tile_x0: u32,
    Ghost(t): Ghost<int>,
)
    requires
        0 < h,
        0 < w,
        3 * h <= u32::MAX,
        3 * w <= u32::MAX,
        c < 3,
        partials.len() == 256,
        old(saved).len() == 9 * (h * w),
        0 <= t < tiles_for(w as int, 16) * tiles_for(h as int, 16),
        tile_y0 == (t / tiles_for(w as int, 16)) * 16,
        tile_x0 == (t % tiles_for(w as int, 16)) * 16,
    ensures
        final(saved).len() == old(saved).len(),
        forall|j: int, k: int, y: int, x: int|
            0 <= j < 3 && 0 <= k < 3 && image_loss::inside(h as int, w as int, y, x)
                ==> final(saved)@[#[trigger] image_loss::saved_slot(
                h as int,
                w as int,
                j,
                k,
                y,
                x,
            )] == (if k == c && image_loss::tile_of(w as int, y, x) == t {
                image_loss::pick(partials@[unit_of(16, y, x)], j)
            } else {
                old(saved)@[image_loss::saved_slot(h as int, w as int, j, k, y, x)]
            }),
{
    let ghost start = saved@;
    let ghost hi = h as int;
    let ghost wi = w as int;
    let mut j: u32 = 0;
    while j < 3
        invariant
            j <= 3,
            0 < h,
            0 < w,
            hi == h,
            wi == w,
            3 * h <= u32::MAX,
            3 * w <= u32::MAX,
            c < 3,
            partials.len() == 256,
            saved.len() == start.len(),
            start.len() == 9 * (h * w),
            0 <= t < tiles_for(wi, 16) * tiles_for(hi, 16),
            tile_y0 == (t / tiles_for(wi, 16)) * 16,
            tile_x0 == (t % tiles_for(wi, 16)) * 16,
            forall|i: int, k: int, y: int, x: int|
                0 <= i < 3 && 0 <= k < 3 && image_loss::inside(hi, wi, y, x) ==> saved@[
                    #[trigger] image_loss::saved_slot(hi, wi, i, k, y, x)] == (if i < j && k == c
                    && image_loss::tile_of(wi, y, x) == t {
                    image_loss::pick(partials@[unit_of(16, y, x)], i)
                } else {
                    start[image_loss::saved_slot(hi, wi, i, k, y, x)]
                }),
        decreases 3 - j,
    {
        let values: Vec<S> = pick_partials(partials, j);
        let ghost n = hi * wi;
        proof {
            assert(0 < n) by (nonlinear_arith)
                requires
                    0 < hi,
                    0 < wi,
                    n == hi * wi,
            ;
            let p = j * 3 + c;
            assert(0 <= p * n && p * n + n <= 9 * n && n <= p * n + n) by (nonlinear_arith)
                requires
                    0 <= p < 9,
                    0 < n,
            ;
        }
        let pixels: usize = h as usize * w as usize;
        let base: usize = (j * 3 + c) as usize * pixels;
        let ghost before = saved@;
        scatter_tile(saved, &values, h, w, 16, tile_y0, tile_x0, base, 1, Ghost(t));
        proof {
            assert forall|i: int, k: int, y: int, x: int|
                0 <= i < 3 && 0 <= k < 3 && image_loss::inside(hi, wi, y, x) implies saved@[
                #[trigger] image_loss::saved_slot(hi, wi, i, k, y, x)] == (if i < j + 1 && k == c
                && image_loss::tile_of(wi, y, x) == t {
                image_loss::pick(partials@[unit_of(16, y, x)], i)
            } else {
                start[image_loss::saved_slot(hi, wi, i, k, y, x)]
            }) by {
                lemma_saved_slot(hi, wi, i, k, y, x);
                assert(before[image_loss::saved_slot(hi, wi, i, k, y, x)] == before[image_loss::saved_slot(
                    hi,
                    wi,
                    i,
                    k,
                    y,
                    x,
                )]);
                lemma_tile_unit(hi, wi, 16, t, 0, y, x);
                if i * 3 + k != j * 3 + c {
                    lemma_planes_apart(hi, wi, j * 3 + c, i * 3 + k, y, x);
                } else {
                    assert(i == j && k == c);
                    assert(image_loss::saved_slot(hi, wi, i, k, y, x) == plane_slot(
                        base as int,
                        wi,
                        1,
                        y,
                        x,
                    ));
                }
            }
        }
        j = j + 1;
    }
}

/// The kept derivatives are those of the similarity, in the image.
pub open spec fn keeps_partials<S: Scalar>(sc: Scene<S>, saved: Seq<S>) -> bool {
    forall|j: int, c: int, y: int, x: int|
        0 <= j < 3 && 0 <= c < 3 && image_loss::inside(sc.h, sc.w, y, x) ==> saved[
            #[trigger] image_loss::saved_slot(sc.h, sc.w, j, c, y, x)] == image_loss::pick(
            image_loss::partials_of(image_loss::terms_of(image_loss::stats_at(sc, c, y, x))),
            j,
        )
}

/// The weighted sums of the tiles of each plane.
pub open spec fn are_partial_sums<S: Scalar>(sc: Scene<S>, l1_only: bool, out: Seq<S>) -> bool {
    &&& out.len() == image_loss::plane_count(sc.cfg, sc.cn) * image_loss::tile_count(sc.h, sc.w)
    &&& forall|c: int, t: int|
        0 <= c < image_loss::plane_count(sc.cfg, sc.cn) && 0 <= t < image_loss::tile_count(
            sc.h,
            sc.w,
        ) ==> out[#[trigger] stencil::nth_slot(c, image_loss::tile_count(sc.h, sc.w), t)]
            == image_loss::tile_partial(sc, l1_only, c, t)
}

/// Runs the forward kernel over every plane and tile. Returns the weighted
/// sums, and the kept derivatives where they are wanted.
#[verifier::rlimit(60)]
#[verifier::spinoff_prover]
fn launch_image_forward<S: Scalar>(inp: &LossInput<S>, save: bool) -> (r: (Vec<S>, Vec<S>))
    requires
        inp.wf(),
        save ==> 9 * (inp.h * inp.w) <= usize::MAX,
    ensures
        scalar::deterministic::<S>() ==> are_partial_sums(
            inp.scene(),
            no_similarity(inp.cfg) && !save,
            r.0@,
        ),
        save ==> r.1.len() == 9 * (inp.h * inp.w),
        save && scalar::deterministic::<S>() ==> keeps_partials(inp.scene(), r.1@),
{
    let ghost sc = inp.scene();
    let ghost hi = inp.h as int;
    let ghost wi = inp.w as int;
    let mut out: Vec<S> = Vec::new();
    let mut saved: Vec<S> = Vec::new();
    let count: u32 = planes(&inp.cfg, inp.cn);
    if inp.h == 0 || inp.w == 0 {
        proof {
            assert(image_loss::tile_count(hi, wi) == 0) by (nonlinear_arith)
                requires
                    image_loss::tile_count(hi, wi) == image_loss::tiles_across(wi)
                        * image_loss::tiles_across(hi),
                    image_loss::tiles_across(hi) == 0 || image_loss::tiles_across(wi) == 0,
            ;
            assert(image_loss::plane_count(inp.cfg, inp.cn as int) * 0 == 0);
            assert(inp.h * inp.w == 0) by (nonlinear_arith)
                requires
                    inp.h == 0 || inp.w == 0,
            ;
        }
        return (out, saved);
    }
    proof {
        lemma_dims_small(hi, wi, inp.cn as int);
        lemma_grid_small(hi, wi, 16);
        lemma_tile_count(hi, wi);
    }
    if save {
        let pixels: usize = inp.h as usize * inp.w as usize;
        saved = zeros(9 * pixels);
    }
    let l1_only: bool = ignores_similarity(&inp.cfg) && !save;
    let weights: ChannelWeights<S> = channel_weights(&inp.cfg, inp.h, inp.w);
    let across: u32 = tiles_along(inp.w, BLOCK_X);
    let down: u32 = tiles_along(inp.h, BLOCK_Y);
    let tiles: u32 = across * down;
    let mut c: u32 = 0;
    while c < count
        invariant
            inp.wf(),
            sc == inp.scene(),
            hi == inp.h,
            wi == inp.w,
            0 < inp.h,
            0 < inp.w,
            3 * inp.h <= u32::MAX,
            3 * inp.w <= u32::MAX,
            c <= count <= inp.cn,
            across == tiles_for(wi, 16),
            down == tiles_for(hi, 16),
            0 < across,
            tiles == across * down,
            tiles == image_loss::tile_count(hi, wi),
            scalar::deterministic::<S>() ==> weights == image_loss::weights_of(inp.cfg, hi, wi),
            save ==> !l1_only,
            save ==> saved.len() == 9 * (inp.h * inp.w),
            out.len() == c * tiles,
            scalar::deterministic::<S>() ==> forall|d: int, t: int|
                0 <= d < c && 0 <= t < tiles ==> out@[#[trigger] stencil::nth_slot(
                    d,
                    tiles as int,
                    t,
                )] == image_loss::tile_partial(sc, l1_only, d, t),
            save && scalar::deterministic::<S>() ==> forall|j: int, d: int, y: int, x: int|
                0 <= j < 3 && 0 <= d < 3 && d < c && image_loss::inside(hi, wi, y, x) ==> saved@[
                    #[trigger] image_loss::saved_slot(hi, wi, j, d, y, x)] == image_loss::pick(
                    image_loss::partials_of(
                        image_loss::terms_of(image_loss::stats_at(sc, d, y, x)),
                    ),
                    j,
                ),
        decreases count - c,
    {
        let mut t: u32 = 0;
        while t < tiles
            invariant
                inp.wf(),
                sc == inp.scene(),
                hi == inp.h,
                wi == inp.w,
                0 < inp.h,
                0 < inp.w,
                3 * inp.h <= u32::MAX,
                3 * inp.w <= u32::MAX,
                c < count <= inp.cn,
                across == tiles_for(wi, 16),
                down == tiles_for(hi, 16),
                0 < across,
                tiles == across * down,
                tiles == image_loss::tile_count(hi, wi),
                scalar::deterministic::<S>() ==> weights == image_loss::weights_of(
                    inp.cfg,
                    hi,
                    wi,
                ),
                save ==> !l1_only,
                save ==> saved.len() == 9 * (inp.h * inp.w),
                t <= tiles,
                out.len() == c * tiles + t,
                scalar::deterministic::<S>() ==> forall|d: int, u: int|
                    0 <= d < c && 0 <= u < tiles || d == c && 0 <= u < t ==> out@[
                        #[trigger] stencil::nth_slot(d, tiles as int, u)]
                        == image_loss::tile_partial(sc, l1_only, d, u),
                save && scalar::deterministic::<S>() ==> forall|j: int, d: int, y: int, x: int|
                    0 <= j < 3 && 0 <= d < 3 && (d < c || d == c && image_loss::tile_of(wi, y, x)
                        < t) && image_loss::inside(hi, wi, y, x) ==> saved@[
                        #[trigger] image_loss::saved_slot(hi, wi, j, d, y, x)] == image_loss::pick(
                        image_loss::partials_of(
                            image_loss::terms_of(image_loss::stats_at(sc, d, y, x)),
                        ),
                        j,
                    ),
            decreases tiles - t,
        {
            proof {
                lemma_tile_corner(hi, wi, 16, t as int);
                lemma_tile_count(hi, wi);
            }
            let tile_y0: u32 = (t / across) * BLOCK_Y;
            let tile_x0: u32 = (t % across) * BLOCK_X;
            let (losses, partials) = image_loss_forward_kernel(
                inp,
                c,
                tile_y0,
                tile_x0,
                l1_only,
                t,
            );
            let total: S = tile_sum(&losses);
            let ghost sofar = out@;
            out.push(
                eval_times(
                    total,
                    if c == 3 {
                        weights.alpha
                    } else {
                        weights.rgb
                    },
                ),
            );
            proof {
                if scalar::deterministic::<S>() {
                    assert forall|d: int, u: int|
                        0 <= d < c && 0 <= u < tiles || d == c && 0 <= u < t + 1 implies out@[
                        #[trigger] stencil::nth_slot(d, tiles as int, u)]
                        == image_loss::tile_partial(sc, l1_only, d, u) by {
                        if d < c || u < t {
                            assert(0 <= d * tiles + u < c * tiles + t) by (nonlinear_arith)
                                requires
                                    0 <= d < c && 0 <= u < tiles || d == c && 0 <= u < t,
                                    0 <= t,
                                    0 <= tiles,
                            ;
                            assert(sofar[stencil::nth_slot(d, tiles as int, u)]
                                == out@[stencil::nth_slot(d, tiles as int, u)]);
                        }
                    }
                }
            }
            if save && c < 3 {
                let ghost before = saved@;
                save_tile(
                    &mut saved,
                    &partials,
                    inp.h,
                    inp.w,
                    c,
                    tile_y0,
                    tile_x0,
                    Ghost(t as int),
                );
                proof {
                    if scalar::deterministic::<S>() {
                        assert forall|j: int, d: int, y: int, x: int|
                            0 <= j < 3 && 0 <= d < 3 && (d < c || d == c && image_loss::tile_of(
                                wi,
                                y,
                                x,
                            ) < t + 1) && image_loss::inside(hi, wi, y, x) implies saved@[
                            #[trigger] image_loss::saved_slot(hi, wi, j, d, y, x)]
                            == image_loss::pick(
                            image_loss::partials_of(
                                image_loss::terms_of(image_loss::stats_at(sc, d, y, x)),
                            ),
                            j,
                        ) by {
                            assert(before[image_loss::saved_slot(hi, wi, j, d, y, x)]
                                == before[image_loss::saved_slot(hi, wi, j, d, y, x)]);
                            if d == c && image_loss::tile_of(wi, y, x) == t {
                                lemma_own_value(sc, l1_only, d, t as int, y, x);
                                assert(partials[unit_of(16, y, x)] == partials@[unit_of(
                                    16,
                                    y,
                                    x,
                                )]);
                            }
                        }
                    }
                }
            }
            t = t + 1;
        }
        proof {
            assert(c * tiles + tiles == (c + 1) * tiles) by (nonlinear_arith);
            if save && scalar::deterministic::<S>() {
                assert forall|j: int, d: int, y: int, x: int|
                    0 <= j < 3 && 0 <= d < 3 && d < c + 1 && image_loss::inside(
                        hi,
                        wi,
                        y,
                        x,
                    ) implies saved@[#[trigger] image_loss::saved_slot(hi, wi, j, d, y, x)]
                    == image_loss::pick(
                    image_loss::partials_of(
                        image_loss::terms_of(image_loss::stats_at(sc, d, y, x)),
                    ),
                    j,
                ) by {
                    lemma_tile_in_range(hi, wi, 16, y, x);
                }
            }
        }
        c = c + 1;
    }
    (out, saved)
}

/// The loss before its final sum: the weighted sums of the tiles of each
/// plane, tiles in row-major order.
pub fn image_loss_partials<S: Scalar>(inp: &LossInput<S>) -> (out: Vec<S>)
    requires
        inp.wf(),
    ensures
        scalar::deterministic::<S>() ==> are_partial_sums(
            inp.scene(),
            no_similarity(inp.cfg),
            out@,
        ),
{
    let (out, _) = launch_image_forward(inp, false);
    out
}

/// The sum of the first `n` values, in order.
pub open spec fn running_sum<S: Scalar>(values: Seq<S>, n: int) -> S
    decreases n,
{
    if n <= 0 {
        scalar::zero()
    } else {
        scalar::sum(running_sum(values, n - 1), values[n - 1])
    }
}

/// The loss: the sum of the weighted sums of all tiles of all planes.
pub fn image_loss<S: Scalar>(inp: &LossInput<S>) -> (loss: S)
    requires
        inp.wf(),
    ensures
        scalar::deterministic::<S>() ==> exists|parts: Seq<S>|
            #[trigger] are_partial_sums(inp.scene(), no_similarity(inp.cfg), parts) && loss
                == running_sum(parts, parts.len() as int),
{
    let parts: Vec<S> = image_loss_partials(inp);
    let mut loss: S = eval_zero();
    let mut i: usize = 0;
    while i < parts.len()
        invariant
            i <= parts.len(),
            scalar::deterministic::<S>() ==> loss == running_sum(parts@, i as int),
        decreases parts.len() - i,
    {
        loss = eval_plus(loss, parts[i]);
        i = i + 1;
    }
    loss
}

/// The weighted sums, and the derivatives of the similarity for the backward
/// pass.
pub fn image_loss_forward_saved<S: Scalar>(inp: &LossInput<S>) -> (r: (Vec<S>, Vec<S>))
    requires
        inp.wf(),
        9 * (inp.h * inp.w) <= usize::MAX,
    ensures
        scalar::deterministic::<S>() ==> are_partial_sums(inp.scene(), false, r.0@),
        r.1.len() == 9 * (inp.h * inp.w),
        scalar::deterministic::<S>() ==> keeps_partials(inp.scene(), r.1@),
{
    launch_image_forward(inp, true)
}

/// Whether the forward pass keeps the derivatives of the similarity: on request,
/// where a gradient will be asked for, and where the similarity has a weight.
pub fn keeps_loss_partials<S: Scalar>(
    cfg: &ImageLossConfig<S>,
    requested: bool,
    differentiable: bool,
) -> (keep: bool)
    ensures
        scalar::deterministic::<S>() ==> keep == (requested && differentiable && !no_similarity(*cfg)),
        keep ==> requested && differentiable,
{
    requested && differentiable && !ignores_similarity(cfg)
}

/// The forward pass of training: the weighted sums, and the derivatives where
/// they were requested, the prediction waits for a gradient and the similarity
/// has a weight. In all other cases the backward pass computes them anew.
pub fn image_loss_tracked<S: Scalar>(inp: &LossInput<S>, requested: bool, differentiable: bool) -> (r: (
    Vec<S>,
    Option<Vec<S>>,
))
    requires
        inp.wf(),
        requested && differentiable ==> 9 * (inp.h * inp.w) <= usize::MAX,
    ensures
        scalar::deterministic::<S>() ==> (r.1 is Some <==> requested && differentiable && !no_similarity(
            inp.cfg,
        )),
        r.1 is Some ==> requested && differentiable,
        scalar::deterministic::<S>() ==> are_partial_sums(
            inp.scene(),
            no_similarity(inp.cfg),
            r.0@,
        ),
        r.1 matches Some(saved) ==> saved.len() == 9 * (inp.h * inp.w),
        r.1 matches Some(saved) ==> scalar::deterministic::<S>() ==> keeps_partials(
            inp.scene(),
            saved@,
        ),
{
    if keeps_loss_partials(&inp.cfg, requested, differentiable) {
        let (out, saved) = image_loss_forward_saved(inp);
        (out, Some(saved))
    } else {
        (image_loss_partials(inp), None)
    }
}

/// The gradient that reaches a position, zero outside of the image.
fn read_chain<S: Scalar>(
    inp: &LossInput<S>,
    upstream: &Vec<S>,
    weight: S,
    c: u32,
    gy: u32,
    gx: u32,
    oob: bool,
    Ghost(y): Ghost<int>,
    Ghost(x): Ghost<int>,
) -> (r: S)
    requires
        inp.wf(),
        0 < inp.h,
        0 < inp.w,
        c < 4,
        upstream.len() >= (c + 1) * image_loss::tile_count(inp.h as int, inp.w as int),
        oob == !image_loss::inside(inp.h as int, inp.w as int, y, x),
        !oob ==> gy == y && gx == x,
    ensures
        scalar::deterministic::<S>() ==> r == image_loss::chain_at(
            inp.scene(),
            upstream@,
            weight,
            c as int,
            y,
            x,
        ),
{
    let chain: S = if oob {
        eval_zero()
    } else {
        let ghost hi = inp.h as int;
        let ghost wi = inp.w as int;
        let across: u32 = tiles_along(inp.w, BLOCK_X);
        let down: u32 = tiles_along(inp.h, BLOCK_Y);
        proof {
            lemma_dims_small(hi, wi, inp.cn as int);
            lemma_grid_small(hi, wi, 16);
            lemma_tile_count(hi, wi);
            lemma_tile_in_range(hi, wi, 16, y, x);
            let n = image_loss::tile_count(hi, wi);
            let t = image_loss::tile_of(wi, y, x);
            assert(0 <= c * n <= c * n + t && c * n + t < (c + 1) * n) by (nonlinear_arith)
                requires
                    0 <= t < n,
                    0 <= c,
            ;
            assert(0 <= (gy / 16) * across) by (nonlinear_arith);
        }
        let tiles: usize = (across * down) as usize;
        let tile: usize = ((gy / BLOCK_Y) * across + gx / BLOCK_X) as usize;
        eval_times(upstream[c as usize * tiles + tile], weight)
    };
    let (_, gt_a) = read_gt(inp, 0, gy, gx, oob);
    apply_mask(inp.cfg.mask, chain, gt_a)
}

/// Where the derivatives of a backward pass come from.
pub open spec fn source_of<S>(saved: Option<&Vec<S>>) -> PartialSource<S> {
    match saved {
        None => PartialSource::Recomputed,
        Some(saved) => PartialSource::Saved(saved@),
    }
}

/// The weighted derivatives around a corner of the image.
pub open spec fn weighted<S: Scalar>(
    sc: Scene<S>,
    source: PartialSource<S>,
    upstream: Seq<S>,
    weight: S,
    c: int,
    y0: int,
    x0: int,
) -> spec_fn(int, int, int) -> S {
    |y: int, x: int, j: int|
        image_loss::weighted_partial(sc, source, upstream, weight, c, j, y0 + y, x0 + x)
}

/// The weighted derivatives, blurred along rows, around a corner of the image.
pub open spec fn row_spreads<S: Scalar>(
    sc: Scene<S>,
    source: PartialSource<S>,
    upstream: Seq<S>,
    weight: S,
    c: int,
    y0: int,
    x0: int,
) -> spec_fn(int, int, int) -> S {
    |y: int, x: int, j: int|
        image_loss::row_spread(sc, source, upstream, weight, c, j, y0 + y, x0 + x)
}

/// A kept derivative at a position, zero outside of the image.
fn read_saved_partial<S: Scalar>(
    saved: &Vec<S>,
    partial: u32,
    c: u32,
    y: u32,
    x: u32,
    oob: bool,
    h: u32,
    w: u32,
) -> (r: S)
    requires
        saved.len() == 9 * (h * w),
        partial < 3,
        c < 3,
        !oob ==> y < h && x < w,
    ensures
        scalar::deterministic::<S>() ==> r == (if oob {
            scalar::zero()
        } else {
            saved@[image_loss::saved_slot(
                h as int,
                w as int,
                partial as int,
                c as int,
                y as int,
                x as int,
            )]
        }),
{
    if oob {
        eval_zero()
    } else {
        proof {
            lemma_saved_slot(h as int, w as int, partial as int, c as int, y as int, x as int);
            let p = partial * 3 + c;
            assert(0 <= p * h <= p * h + y && p * h + y <= (p * h + y) * w) by (nonlinear_arith)
                requires
                    0 <= p,
                    0 <= y,
                    0 < w,
                    0 <= h,
            ;
        }
        let plane: usize = (partial * 3 + c) as usize;
        saved[(plane * h as usize + y as usize) * w as usize + x as usize]
    }
}

/// Fills a tile with a margin with weighted derivatives, three a cell.
#[verifier::rlimit(60)]
#[verifier::spinoff_prover]
fn weigh_tile<S: Scalar>(
    taps: &Vec<S>,
    inp: &LossInput<S>,
    upstream: &Vec<S>,
    saved: Option<&Vec<S>>,
    weight: S,
    c: u32,
    tile_y0: u32,
    tile_x0: u32,
    tile: u32,
) -> (buf: Vec<S>)
    requires
        saved is None ==> stencil::are_taps(taps@),
        inp.wf(),
        0 < inp.h,
        0 < inp.w,
        c < 3,
        0 < tile <= 16,
        tile_y0 < inp.h,
        tile_x0 < inp.w,
        upstream.len() >= (c + 1) * image_loss::tile_count(inp.h as int, inp.w as int),
        saved matches Some(kept) ==> kept.len() == 9 * (inp.h * inp.w),
    ensures
        buf.len() == (tile + 10) * (tile + 10) * 3,
        scalar::deterministic::<S>() ==> stencil::holds(
            buf@,
            tile + 10,
            tile + 10,
            3,
            weighted(
                inp.scene(),
                source_of(saved),
                upstream@,
                weight,
                c as int,
                tile_y0 - 5,
                tile_x0 - 5,
            ),
        ),
{
    let ghost sc = inp.scene();
    let ghost value = weighted(
        sc,
        source_of(saved),
        upstream@,
        weight,
        c as int,
        tile_y0 - 5,
        tile_x0 - 5,
    );
    proof {
        lemma_dims_small(inp.h as int, inp.w as int, inp.cn as int);
    }
    let shared: u32 = tile + 2 * HALO;
    let extended: u32 = tile + 4 * HALO;
    proof {
        assert(0 < tile * tile <= 256) by (nonlinear_arith)
            requires
                0 < tile <= 16,
        ;
        assert(0 < shared * shared <= 676) by (nonlinear_arith)
            requires
                0 < shared <= 26,
        ;
    }
    let threads: u32 = tile * tile;
    let mut blurred: Vec<S> = Vec::new();
    if saved.is_none() {
        let loaded: Vec<S> = load_tile(inp, c, tile_y0, tile_x0, 2 * HALO, extended, threads);
        blurred =
        blur_rows(
            taps,
            &loaded,
            extended,
            shared,
            threads,
            Ghost(sc),
            Ghost(c as int),
            Ghost(tile_y0 - 10),
            Ghost(tile_x0 - 10),
        );
    }
    let size: u32 = shared * shared;
    let passes: u32 = tiles_along(size, threads);
    proof {
        lemma_passes_cover(size as int, threads as int);
    }
    let mut buf: Vec<S> = Vec::new();
    let mut tid: u32 = 0;
    while tid < passes * threads
        invariant
            saved is None ==> stencil::are_taps(taps@),
            inp.wf(),
            sc == inp.scene(),
            0 < inp.h,
            0 < inp.w,
            3 * inp.h <= u32::MAX,
            3 * inp.w <= u32::MAX,
            c < 3,
            0 < tile <= 16,
            shared == tile + 10,
            extended == tile + 20,
            tile_y0 < inp.h,
            tile_x0 < inp.w,
            upstream.len() >= (c + 1) * image_loss::tile_count(inp.h as int, inp.w as int),
            saved matches Some(kept) ==> kept.len() == 9 * (inp.h * inp.w),
            saved is None ==> blurred.len() == extended * shared * 5,
            saved is None && scalar::deterministic::<S>() ==> stencil::holds(
                blurred@,
                extended as int,
                shared as int,
                5,
                row_stats(sc, c as int, tile_y0 - 10, tile_x0 - 5),
            ),
            size == shared * shared,
            size <= 676,
            size <= passes * threads < size + threads,
            0 < threads <= 256,
            tid <= passes * threads,
            buf.len() == (if tid < size {
                tid
            } else {
                size
            }) * 3,
            value == weighted(
                sc,
                source_of(saved),
                upstream@,
                weight,
                c as int,
                tile_y0 - 5,
                tile_x0 - 5,
            ),
            scalar::deterministic::<S>() ==> stencil::filled(
                buf@,
                shared as int,
                3,
                if tid < size {
                    tid as int
                } else {
                    size as int
                },
                value,
            ),
        decreases passes * threads - tid,
    {
        if tid < size {
            let part_y: u32 = tid / shared;
            let part_x: u32 = tid % shared;
            proof {
                lemma_cell(tid as int, shared as int, shared as int);
            }
            let (gy, gx, oob) = coords(tile_y0, tile_x0, part_y, part_x, HALO, inp.h, inp.w);
            let ghost y = tile_y0 - 5 + part_y;
            let ghost x = tile_x0 - 5 + part_x;
            let chain: S = read_chain(
                inp,
                upstream,
                weight,
                c,
                gy,
                gx,
                oob,
                Ghost(y),
                Ghost(x),
            );
            let partials: SsimPartials<S> = match saved {
                None => {
                    let stats: Stats<S> = column_stats(
                        taps,
                        &blurred,
                        extended,
                        shared,
                        part_y + HALO,
                        part_x,
                        Ghost(sc),
                        Ghost(c as int),
                        Ghost(tile_y0 - 10),
                        Ghost(tile_x0 - 5),
                    );
                    ssim_partials(ssim_terms(stats))
                },
                Some(kept) => SsimPartials {
                    dmu1: read_saved_partial(kept, 0, c, gy, gx, oob, inp.h, inp.w),
                    dsigma1: read_saved_partial(kept, 1, c, gy, gx, oob, inp.h, inp.w),
                    dsigma12: read_saved_partial(kept, 2, c, gy, gx, oob, inp.h, inp.w),
                },
            };
            let ghost before = buf@;
            buf.push(eval_times(partials.dmu1, chain));
            buf.push(eval_times(partials.dsigma1, chain));
            buf.push(eval_times(partials.dsigma12, chain));
            proof {
                assert(buf@.take(tid * 3) == before);
                if scalar::deterministic::<S>() {
                    assert forall|j: int| 0 <= j < 3 implies buf@[#[trigger] stencil::nth_slot(
                        tid as int,
                        3,
                        j,
                    )] == value(tid as int / shared as int, tid as int % shared as int, j) by {
                        assert(image_loss::partial_at(sc, source_of(saved), j, c as int, y, x)
                            == image_loss::pick(partials, j));
                    }
                    lemma_next_cell(buf@, shared as int, 3, tid as int, value);
                }
            }
        }
        tid = tid + 1;
    }
    proof {
        if scalar::deterministic::<S>() {
            stencil::lemma_filled_holds(buf@, shared as int, shared as int, 3, value);
        }
    }
    buf
}

/// Blurs the rows of weighted derivatives.
#[verifier::rlimit(30)]
fn spread_rows<S: Scalar>(
    taps: &Vec<S>,
    buf: &Vec<S>,
    tile: u32,
    Ghost(sc): Ghost<Scene<S>>,
    Ghost(source): Ghost<PartialSource<S>>,
    Ghost(upstream): Ghost<Seq<S>>,
    Ghost(weight): Ghost<S>,
    Ghost(c): Ghost<int>,
    Ghost(y0): Ghost<int>,
    Ghost(x0): Ghost<int>,
) -> (out: Vec<S>)
    requires
        stencil::are_taps(taps@),
        0 < tile <= 16,
        buf.len() == (tile + 10) * (tile + 10) * 3,
        scalar::deterministic::<S>() ==> stencil::holds(
            buf@,
            tile + 10,
            tile + 10,
            3,
            weighted(sc, source, upstream, weight, c, y0, x0),
        ),
    ensures
        out.len() == (tile + 10) * tile * 3,
        scalar::deterministic::<S>() ==> stencil::holds(
            out@,
            tile + 10,
            tile as int,
            3,
            row_spreads(sc, source, upstream, weight, c, y0, x0 + 5),
        ),
{
    let ghost value = row_spreads(sc, source, upstream, weight, c, y0, x0 + 5);
    let shared: u32 = tile + 2 * HALO;
    proof {
        assert(0 < tile * tile <= 256) by (nonlinear_arith)
            requires
                0 < tile <= 16,
        ;
        assert(0 < shared * tile <= 416) by (nonlinear_arith)
            requires
                0 < shared <= 26,
                0 < tile <= 16,
        ;
    }
    let threads: u32 = tile * tile;
    let size: u32 = shared * tile;
    let passes: u32 = tiles_along(size, threads);
    proof {
        lemma_passes_cover(size as int, threads as int);
    }
    let mut out: Vec<S> = Vec::new();
    let mut tid: u32 = 0;
    while tid < passes * threads
        invariant
            stencil::are_taps(taps@),
            0 < tile <= 16,
            shared == tile + 10,
            size == shared * tile,
            size <= 416,
            size <= passes * threads < size + threads,
            0 < threads <= 256,
            tid <= passes * threads,
            buf.len() == shared * shared * 3,
            scalar::deterministic::<S>() ==> stencil::holds(
                buf@,
                shared as int,
                shared as int,
                3,
                weighted(sc, source, upstream, weight, c, y0, x0),
            ),
            out.len() == (if tid < size {
                tid
            } else {
                size
            }) * 3,
            value == row_spreads(sc, source, upstream, weight, c, y0, x0 + 5),
            scalar::deterministic::<S>() ==> stencil::filled(
                out@,
                tile as int,
                3,
                if tid < size {
                    tid as int
                } else {
                    size as int
                },
                value,
            ),
        decreases passes * threads - tid,
    {
        if tid < size {
            let ly: u32 = tid / tile;
            let ux: u32 = tid % tile;
            let lx: u32 = ux + HALO;
            proof {
                lemma_cell(tid as int, shared as int, tile as int);
                stencil::lemma_slot_in_bounds(ly as int, shared as int, shared as int, lx - 5, 3, 0);
                stencil::lemma_slot_in_bounds(ly as int, shared as int, shared as int, lx + 5, 3, 2);
                assert(shared * shared * 3 <= 2028) by (nonlinear_arith)
                    requires
                        0 < shared <= 26,
                ;
            }
            let at: usize = ((ly * shared + lx) * 3) as usize;
            let ghost before = out@;
            out.push(blur_buffer(taps, buf, at, 3, Lane::Plain));
            out.push(blur_buffer(taps, buf, at + 1, 3, Lane::Plain));
            out.push(blur_buffer(taps, buf, at + 2, 3, Lane::Plain));
            proof {
                assert(out@.take(tid * 3) == before);
                if scalar::deterministic::<S>() {
                    assert(at + 0 == at);
                    assert forall|j: int| 0 <= j < 3 implies out@[#[trigger] stencil::nth_slot(
                        tid as int,
                        3,
                        j,
                    )] == value(tid as int / tile as int, tid as int % tile as int, j) by {
                        let f = stencil::strided(buf@, at + j, 3, Lane::Plain);
                        let g = image_loss::row_partials(
                            sc,
                            source,
                            upstream,
                            weight,
                            c,
                            j,
                            y0 + ly,
                        );
                        let x = x0 + 5 + ux;
                        assert forall|t: int| -5 <= t <= 5 implies f(#[trigger] stencil::shifted(
                            0,
                            t,
                        )) == g(stencil::shifted(x, t)) by {
                            assert(at + j + t * 3 == stencil::slot(
                                ly as int,
                                shared as int,
                                lx + t,
                                3,
                                j,
                            ));
                        }
                        stencil::lemma_blur_agrees(f, 0, g, x);
                    }
                    lemma_next_cell(out@, tile as int, 3, tid as int, value);
                }
            }
        }
        tid = tid + 1;
    }
    proof {
        if scalar::deterministic::<S>() {
            stencil::lemma_filled_holds(out@, shared as int, tile as int, 3, value);
        }
    }
    out
}

/// One blurred derivative of a pixel, from the blurred rows around it.
fn spread_column<S: Scalar>(
    taps: &Vec<S>,
    buf: &Vec<S>,
    tile: u32,
    unit_y: u32,
    unit_x: u32,
    j: u32,
    Ghost(sc): Ghost<Scene<S>>,
    Ghost(source): Ghost<PartialSource<S>>,
    Ghost(upstream): Ghost<Seq<S>>,
    Ghost(weight): Ghost<S>,
    Ghost(c): Ghost<int>,
    Ghost(y0): Ghost<int>,
    Ghost(x0): Ghost<int>,
) -> (r: S)
    requires
        stencil::are_taps(taps@),
        0 < tile <= 16,
        unit_y < tile,
        unit_x < tile,
        j < 3,
        buf.len() == (tile + 10) * tile * 3,
        scalar::deterministic::<S>() ==> stencil::holds(
            buf@,
            tile + 10,
            tile as int,
            3,
            row_spreads(sc, source, upstream, weight, c, y0, x0),
        ),
    ensures
        scalar::deterministic::<S>() ==> r == image_loss::spread_at(
            sc,
            source,
            upstream,
            weight,
            c,
            j as int,
            y0 + 5 + unit_y,
            x0 + unit_x,
        ),
{
    let ly: u32 = unit_y + HALO;
    proof {
        stencil::lemma_slot_in_bounds(ly - 5, tile + 10, tile as int, unit_x as int, 3, 0);
        stencil::lemma_slot_in_bounds(ly + 5, tile + 10, tile as int, unit_x as int, 3, j as int);
        assert((ly - 5) * tile == ly * tile - 5 * tile) by (nonlinear_arith);
        assert((ly + 5) * tile == ly * tile + 5 * tile) by (nonlinear_arith);
        assert((tile + 10) * tile * 3 <= 1248) by (nonlinear_arith)
            requires
                0 < tile <= 16,
        ;
    }
    let at: usize = ((ly * tile + unit_x) * 3 + j) as usize;
    let stride: usize = (tile * 3) as usize;
    let r: S = blur_buffer(taps, buf, at, stride, Lane::Plain);
    proof {
        if scalar::deterministic::<S>() {
            let f = stencil::strided(buf@, at as int, stride as int, Lane::Plain);
            let g = image_loss::column_spreads(
                sc,
                source,
                upstream,
                weight,
                c,
                j as int,
                x0 + unit_x,
            );
            let y = y0 + 5 + unit_y;
            assert forall|t: int| -5 <= t <= 5 implies f(#[trigger] stencil::shifted(0, t)) == g(
                stencil::shifted(y, t),
            ) by {
                assert(at + t * stride == stencil::slot(
                    ly + t,
                    tile as int,
                    unit_x as int,
                    3,
                    j as int,
                )) by (nonlinear_arith)
                    requires
                        at == (ly * tile + unit_x) * 3 + j,
                        stride == tile * 3,
                        stencil::slot(ly + t, tile as int, unit_x as int, 3, j as int) == ((ly + t)
                            * tile + unit_x) * 3 + j,
                ;
            }
            stencil::lemma_blur_agrees(f, 0, g, y);
        }
    }
    r
}

/// The gradients of a tile of a channel, zero where it reaches over the
/// image's edge.
#[verifier::rlimit(80)]
#[verifier::spinoff_prover]
pub fn image_loss_backward_kernel<S: Scalar>(
    inp: &LossInput<S>,
    upstream: &Vec<S>,
    saved: Option<&Vec<S>>,
    weights: &ChannelWeights<S>,
    matching: bool,
    l1_only: bool,
    c: u32,
    tile_y0: u32,
    tile_x0: u32,
    tile: u32,
) -> (out: Vec<S>)
    requires
        inp.wf(),
        0 < inp.h,
        0 < inp.w,
        c < inp.cn,
        0 < tile <= 16,
        tile_y0 < inp.h,
        tile_x0 < inp.w,
        upstream.len() >= 3 * image_loss::tile_count(inp.h as int, inp.w as int),
        matching ==> upstream.len() >= 4 * image_loss::tile_count(inp.h as int, inp.w as int),
        saved matches Some(kept) ==> kept.len() == 9 * (inp.h * inp.w),
    ensures
        out.len() == tile * tile,
        scalar::deterministic::<S>() ==> forall|i: int|
            0 <= i < tile * tile && image_loss::inside(
                inp.h as int,
                inp.w as int,
                tile_y0 + i / (tile as int),
                tile_x0 + i % (tile as int),
            ) ==> #[trigger] out[i] == image_loss::gradient_with(
                inp.scene(),
                source_of(saved),
                upstream@,
                *weights,
                matching,
                l1_only,
                c as int,
                tile_y0 + i / (tile as int),
                tile_x0 + i % (tile as int),
            ),
{
    let ghost sc = inp.scene();
    let ghost source = source_of(saved);
    let ghost n = image_loss::tile_count(inp.h as int, inp.w as int);
    proof {
        lemma_dims_small(inp.h as int, inp.w as int, inp.cn as int);
        lemma_grid_small(inp.h as int, inp.w as int, 16);
        lemma_tile_count(inp.h as int, inp.w as int);
        assert(0 <= n) by (nonlinear_arith)
            requires
                n == tiles_for(inp.w as int, 16) * tiles_for(inp.h as int, 16),
                0 < tiles_for(inp.w as int, 16),
                0 < tiles_for(inp.h as int, 16),
        ;
        assert(0 < tile * tile <= 256) by (nonlinear_arith)
            requires
                0 < tile <= 16,
        ;
        if c < 3 {
            assert((c + 1) * n <= 3 * n) by (nonlinear_arith)
                requires
                    0 <= n,
                    c < 3,
            ;
        }
    }
    let plain: bool = c == 3 || l1_only;
    let mut taps: Vec<S> = Vec::new();
    let mut spread: Vec<S> = Vec::new();
    if !plain {
        taps = gauss_taps();
        let buf: Vec<S> = weigh_tile(
            &taps,
            inp,
            upstream,
            saved,
            weights.rgb,
            c,
            tile_y0,
            tile_x0,
            tile,
        );
        spread =
        spread_rows(
            &taps,
            &buf,
            tile,
            Ghost(sc),
            Ghost(source),
            Ghost(upstream@),
            Ghost(weights.rgb),
            Ghost(c as int),
            Ghost(tile_y0 - 5),
            Ghost(tile_x0 - 5),
        );
    }
    let mut out: Vec<S> = Vec::new();
    let mut i: u32 = 0;
    while i < tile * tile
        invariant
            i <= tile * tile,
            tile * tile <= 256,
            inp.wf(),
            sc == inp.scene(),
            source == source_of(saved),
            0 < inp.h,
            0 < inp.w,
            3 * inp.h <= u32::MAX,
            3 * inp.w <= u32::MAX,
            c < inp.cn,
            0 < tile <= 16,
            tile_y0 < inp.h,
            tile_x0 < inp.w,
            plain == (c == 3 || l1_only),
            n == image_loss::tile_count(inp.h as int, inp.w as int),
            matching ==> upstream.len() >= 4 * n,
            c < 3 ==> upstream.len() >= (c + 1) * n,
            !plain ==> stencil::are_taps(taps@),
            !plain ==> spread.len() == (tile + 10) * tile * 3,
            !plain && scalar::deterministic::<S>() ==> stencil::holds(
                spread@,
                tile + 10,
                tile as int,
                3,
                row_spreads(
                    sc,
                    source,
                    upstream@,
                    weights.rgb,
                    c as int,
                    tile_y0 - 5,
                    tile_x0 as int,
                ),
            ),
            out.len() == i,
            scalar::deterministic::<S>() ==> forall|k: int|
                0 <= k < i && image_loss::inside(
                    inp.h as int,
                    inp.w as int,
                    tile_y0 + k / (tile as int),
                    tile_x0 + k % (tile as int),
                ) ==> #[trigger] out[k] == image_loss::gradient_with(
                    sc,
                    source,
                    upstream@,
                    *weights,
                    matching,
                    l1_only,
                    c as int,
                    tile_y0 + k / (tile as int),
                    tile_x0 + k % (tile as int),
                ),
        decreases tile * tile - i,
    {
        let unit_y: u32 = i / tile;
        let unit_x: u32 = i % tile;
        proof {
            lemma_cell(i as int, tile as int, tile as int);
        }
        let pix_y: u32 = tile_y0 + unit_y;
        let pix_x: u32 = tile_x0 + unit_x;
        let ghost y = pix_y as int;
        let ghost x = pix_x as int;
        if pix_x < inp.w && pix_y < inp.h {
            let p: S = read_pred(inp, c, pix_y, pix_x, false);
            let (gt_c, gt_a) = read_gt(inp, c, pix_y, pix_x, false);
            if c == 3 {
                if matching {
                    let chain: S = read_chain(
                        inp,
                        upstream,
                        weights.alpha,
                        3,
                        pix_y,
                        pix_x,
                        false,
                        Ghost(y),
                        Ghost(x),
                    );
                    out.push(eval_times(sign_of(eval_minus(p, gt_a)), chain));
                } else {
                    out.push(eval_zero());
                }
            } else {
                let gt_eff: S = composite(inp.cfg.composite_bg, c, gt_c, gt_a);
                let chain: S = read_chain(
                    inp,
                    upstream,
                    weights.rgb,
                    c,
                    pix_y,
                    pix_x,
                    false,
                    Ghost(y),
                    Ghost(x),
                );
                let direct: S = eval_times(
                    eval_times(inp.cfg.l1_weight, sign_of(eval_minus(p, gt_eff))),
                    chain,
                );
                if l1_only {
                    out.push(direct);
                } else {
                    let s0: S = spread_column(
                        &taps,
                        &spread,
                        tile,
                        unit_y,
                        unit_x,
                        0,
                        Ghost(sc),
                        Ghost(source),
                        Ghost(upstream@),
                        Ghost(weights.rgb),
                        Ghost(c as int),
                        Ghost(tile_y0 - 5),
                        Ghost(tile_x0 as int),
                    );
                    let s1: S = spread_column(
                        &taps,
                        &spread,
                        tile,
                        unit_y,
                        unit_x,
                        1,
                        Ghost(sc),
                        Ghost(source),
                        Ghost(upstream@),
                        Ghost(weights.rgb),
                        Ghost(c as int),
                        Ghost(tile_y0 - 5),
                        Ghost(tile_x0 as int),
                    );
                    let s2: S = spread_column(
                        &taps,
                        &spread,
                        tile,
                        unit_y,
                        unit_x,
                        2,
                        Ghost(sc),
                        Ghost(source),
                        Ghost(upstream@),
                        Ghost(weights.rgb),
                        Ghost(c as int),
                        Ghost(tile_y0 - 5),
                        Ghost(tile_x0 as int),
                    );
                    let ssim_grad: S = eval_plus(
                        eval_plus(s0, eval_times(eval_times(eval_two(), p), s1)),
                        eval_times(gt_eff, s2),
                    );
                    out.push(eval_plus(eval_times(inp.cfg.ssim_weight, ssim_grad), direct));
                }
            }
        } else {
            out.push(eval_zero());
        }
        i = i + 1;
    }
    out
}

/// The gradients of the loss by every channel of every pixel.
pub open spec fn are_gradients<S: Scalar>(
    sc: Scene<S>,
    source: PartialSource<S>,
    upstream: Seq<S>,
    l1_only: bool,
    out: Seq<S>,
) -> bool {
    &&& out.len() == sc.h * sc.w * sc.cn
    &&& forall|y: int, x: int, c: int|
        image_loss::inside(sc.h, sc.w, y, x) && 0 <= c < sc.cn ==> out[
            #[trigger] image_loss::pixel_slot(sc.w, sc.cn, y, x, c)] == image_loss::gradient_at(
            sc,
            source,
            upstream,
            l1_only,
            c,
            y,
            x,
        )
}

/// Gradients do not depend on the tile that the kernel ran with: whatever tiles
/// two runs used, their results are the same.
pub proof fn tile_choice_keeps_the_gradient<S: Scalar>(
    sc: Scene<S>,
    source: PartialSource<S>,
    upstream: Seq<S>,
    l1_only: bool,
    small: Seq<S>,
    large: Seq<S>,
)
    requires
        0 <= sc.h,
        0 <= sc.w,
        0 <= sc.cn,
        are_gradients(sc, source, upstream, l1_only, small),
        are_gradients(sc, source, upstream, l1_only, large),
    ensures
        small == large,
{
    assert forall|i: int| 0 <= i < small.len() implies small[i] == large[i] by {
        let (h, w, cn) = (sc.h, sc.w, sc.cn);
        assert(0 < cn && 0 < w) by (nonlinear_arith)
            requires
                0 <= i < h * w * cn,
                0 <= h,
                0 <= w,
                0 <= cn,
        ;
        let pixel = i / cn;
        let c = i % cn;
        vstd::arithmetic::div_mod::lemma_fundamental_div_mod(i, cn);
        assert(0 <= pixel < h * w) by (nonlinear_arith)
            requires
                i == cn * pixel + c,
                0 <= c < cn,
                0 <= i < h * w * cn,
        ;
        let y = pixel / w;
        let x = pixel % w;
        vstd::arithmetic::div_mod::lemma_fundamental_div_mod(pixel, w);
        assert(0 <= y < h) by (nonlinear_arith)
            requires
                pixel == w * y + x,
                0 <= x < w,
                0 <= pixel < h * w,
        ;
        assert(image_loss::pixel_slot(w, cn, y, x, c) == i) by (nonlinear_arith)
            requires
                image_loss::pixel_slot(w, cn, y, x, c) == (y * w + x) * cn + c,
                pixel == w * y + x,
                i == cn * pixel + c,
        ;
    }
    assert(small =~= large);
}

/// The gradient of the loss by every channel of every pixel, given that by the
/// tiles' weighted sums. The tile that the kernel runs with does not show in
/// the result. Refuses sums that do not fit the image.
#[verifier::rlimit(60)]
#[verifier::spinoff_prover]
pub fn image_loss_backward<S: Scalar>(
    inp: &LossInput<S>,
    upstream: &Vec<S>,
    saved: Option<&Vec<S>>,
    tile: u32,
) -> (r: Result<Vec<S>, String>)
    requires
        inp.wf(),
        tile == BWD_TILE_SMALL || tile == BWD_TILE_LARGE,
        saved matches Some(kept) ==> kept.len() == 9 * (inp.h * inp.w),
    ensures
        scalar::deterministic::<S>() ==> (r is Ok <==> upstream.len() == image_loss::plane_count(
            inp.cfg,
            inp.cn as int,
        ) * image_loss::tile_count(inp.h as int, inp.w as int)),
        r matches Err(e) ==> e@ == "dl_dpartials must be [planes, tiles]"@,
        r matches Ok(out) ==> out.len() == inp.h * inp.w * inp.cn,
        r matches Ok(out) ==> scalar::deterministic::<S>() ==> are_gradients(
            inp.scene(),
            source_of(saved),
            upstream@,
            no_similarity(inp.cfg),
            out@,
        ),
{
    let ghost sc = inp.scene();
    let ghost source = source_of(saved);
    let ghost hi = inp.h as int;
    let ghost wi = inp.w as int;
    let matching: bool = alpha_match(&inp.cfg, inp.cn);
    let count: u64 = if matching {
        4
    } else {
        3
    };
    let tiles: u64 = loss_tiles(inp.h, inp.w);
    let ghost n = image_loss::tile_count(hi, wi);
    if count * tiles != upstream.len() as u64 {
        return Err(String::from_str("dl_dpartials must be [planes, tiles]"));
    }
    let mut out: Vec<S> = zeros(inp.pred.len());
    if inp.h == 0 || inp.w == 0 {
        return Ok(out);
    }
    proof {
        lemma_dims_small(hi, wi, inp.cn as int);
        lemma_grid_small(hi, wi, tile as int);
        assert forall|y: int, x: int, c: int|
            image_loss::inside(hi, wi, y, x) && 0 <= c < inp.cn implies 0
            <= #[trigger] plane_slot(c, wi, inp.cn as int, y, x) < out.len() by {
            lemma_pixel_in_bounds(hi, wi, inp.cn as int, y, x, c);
        }
    }
    let weights: ChannelWeights<S> = channel_weights(&inp.cfg, inp.h, inp.w);
    let l1_only: bool = ignores_similarity(&inp.cfg);
    let across: u32 = tiles_along(inp.w, tile);
    let down: u32 = tiles_along(inp.h, tile);
    let mut c: u32 = 0;
    while c < inp.cn
        invariant
            inp.wf(),
            sc == inp.scene(),
            source == source_of(saved),
            hi == inp.h,
            wi == inp.w,
            0 < inp.h,
            0 < inp.w,
            3 * inp.h <= u32::MAX,
            3 * inp.w <= u32::MAX,
            tile == 8 || tile == 16,
            saved matches Some(kept) ==> kept.len() == 9 * (inp.h * inp.w),
            c <= inp.cn,
            n == image_loss::tile_count(hi, wi),
            upstream.len() >= 3 * n,
            matching ==> upstream.len() >= 4 * n,
            scalar::deterministic::<S>() ==> matching == image_loss::matches_alpha(
                inp.cfg,
                inp.cn as int,
            ),
            scalar::deterministic::<S>() ==> weights == image_loss::weights_of(inp.cfg, hi, wi),
            across == tiles_for(wi, tile as int),
            down == tiles_for(hi, tile as int),
            0 < across,
            across * down <= u32::MAX,
            out.len() == inp.h * inp.w * inp.cn,
            scalar::deterministic::<S>() ==> forall|y: int, x: int, d: int|
                image_loss::inside(hi, wi, y, x) && 0 <= d < c ==> out@[#[trigger] plane_slot(
                    d,
                    wi,
                    inp.cn as int,
                    y,
                    x,
                )] == image_loss::gradient_at(sc, source, upstream@, l1_only, d, y, x),
        decreases inp.cn - c,
    {
        let mut t: u32 = 0;
        while t < across * down
            invariant
                inp.wf(),
                sc == inp.scene(),
                source == source_of(saved),
                hi == inp.h,
                wi == inp.w,
                0 < inp.h,
                0 < inp.w,
                3 * inp.h <= u32::MAX,
                3 * inp.w <= u32::MAX,
                tile == 8 || tile == 16,
                saved matches Some(kept) ==> kept.len() == 9 * (inp.h * inp.w),
                c < inp.cn,
                n == image_loss::tile_count(hi, wi),
                upstream.len() >= 3 * n,
                matching ==> upstream.len() >= 4 * n,
                scalar::deterministic::<S>() ==> matching == image_loss::matches_alpha(
                    inp.cfg,
                    inp.cn as int,
                ),
                scalar::deterministic::<S>() ==> weights == image_loss::weights_of(
                    inp.cfg,
                    hi,
                    wi,
                ),
                across == tiles_for(wi, tile as int),
                down == tiles_for(hi, tile as int),
                0 < across,
                across * down <= u32::MAX,
                t <= across * down,
                out.len() == inp.h * inp.w * inp.cn,
                scalar::deterministic::<S>() ==> forall|y: int, x: int, d: int|
                    image_loss::inside(hi, wi, y, x) && (0 <= d < c || d == c && tile_holding(
                        wi,
                        tile as int,
                        y,
                        x,
                    ) < t) ==> out@[#[trigger] plane_slot(d, wi, inp.cn as int, y, x)]
                        == image_loss::gradient_at(sc, source, upstream@, l1_only, d, y, x),
            decreases across * down - t,
        {
            proof {
                lemma_tile_corner(hi, wi, tile as int, t as int);
                assert((hi * wi - 1) * inp.cn + c < hi * wi * inp.cn) by (nonlinear_arith)
                    requires
                        c < inp.cn,
                ;
            }
            let tile_y0: u32 = (t / across) * tile;
            let tile_x0: u32 = (t % across) * tile;
            let values: Vec<S> = image_loss_backward_kernel(
                inp,
                upstream,
                saved,
                &weights,
                matching,
                l1_only,
                c,
                tile_y0,
                tile_x0,
                tile,
            );
            let ghost before = out@;
            scatter_tile(
                &mut out,
                &values,
                inp.h,
                inp.w,
                tile,
                tile_y0,
                tile_x0,
                c as usize,
                inp.cn as usize,
                Ghost(t as int),
            );
            proof {
                if scalar::deterministic::<S>() {
                    assert forall|y: int, x: int, d: int|
                        image_loss::inside(hi, wi, y, x) && (0 <= d < c || d == c && tile_holding(
                            wi,
                            tile as int,
                            y,
                            x,
                        ) < t + 1) implies out@[#[trigger] plane_slot(d, wi, inp.cn as int, y, x)]
                        == image_loss::gradient_at(sc, source, upstream@, l1_only, d, y, x) by {
                        assert(before[plane_slot(d, wi, inp.cn as int, y, x)] == before[plane_slot(
                            d,
                            wi,
                            inp.cn as int,
                            y,
                            x,
                        )]);
                        lemma_pixel_in_bounds(hi, wi, inp.cn as int, y, x, d);
                        if d != c {
                            lemma_channels_apart(wi, inp.cn as int, y, x, c as int, d);
                        } else if tile_holding(wi, tile as int, y, x) == t {
                            lemma_tile_unit(hi, wi, tile as int, t as int, 0, y, x);
                            lemma_tile_unit(
                                hi,
                                wi,
                                tile as int,
                                t as int,
                                unit_of(tile as int, y, x),
                                y,
                                x,
                            );
                            assert(values[unit_of(tile as int, y, x)] == values@[unit_of(
                                tile as int,
                                y,
                                x,
                            )]);
                        }
                    }
                }
            }
            t = t + 1;
        }
        proof {
            if scalar::deterministic::<S>() {
                assert forall|y: int, x: int, d: int|
                    image_loss::inside(hi, wi, y, x) && 0 <= d < c + 1 implies out@[
                    #[trigger] plane_slot(d, wi, inp.cn as int, y, x)] == image_loss::gradient_at(
                    sc,
                    source,
                    upstream@,
                    l1_only,
                    d,
                    y,
                    x,
                ) by {
                    lemma_tile_in_range(hi, wi, tile as int, y, x);
                }
            }
        }
        c = c + 1;
    }
    proof {
        if scalar::deterministic::<S>() {
            assert forall|y: int, x: int, d: int|
                image_loss::inside(hi, wi, y, x) && 0 <= d < inp.cn implies out@[
                #[trigger] image_loss::pixel_slot(wi, inp.cn as int, y, x, d)]
                == image_loss::gradient_at(
                sc,
                source,
                upstream@,
                no_similarity(inp.cfg),
                d,
                y,
                x,
            ) by {
                assert(image_loss::pixel_slot(wi, inp.cn as int, y, x, d) == plane_slot(
                    d,
                    wi,
                    inp.cn as int,
                    y,
                    x,
                ));
            }
        }
    }
    Ok(out)
}

/// The three colours of a packed pixel, over a background where one is given.
pub open spec fn unpacked<S: Scalar>(val: u32, composite_bg: Option<Rgb<S>>, k: int) -> S {
    image_loss::effective(
        composite_bg,
        k,
        scalar::from_byte(image_loss::byte_of(val, k as u32)),
        scalar::from_byte(image_loss::byte_of(val, 3)),
    )
}

/// Decodes a packed pixel to three colours, over a background where one is
/// given.
pub fn unpack_gt_rgb_kernel<S: Scalar>(val: u32, composite_bg: Option<Rgb<S>>) -> (out: (S, S, S))
    ensures
        scalar::deterministic::<S>() ==> out == (
            unpacked(val, composite_bg, 0),
            unpacked(val, composite_bg, 1),
            unpacked(val, composite_bg, 2),
        ),
{
    let alpha: S = eval_from_byte(unpack_byte(val, 3));
    let r: S = eval_from_byte(unpack_byte(val, 0));
    let g: S = eval_from_byte(unpack_byte(val, 1));
    let b: S = eval_from_byte(unpack_byte(val, 2));
    (
        composite(composite_bg, 0, r, alpha),
        composite(composite_bg, 1, g, alpha),
        composite(composite_bg, 2, b, alpha),
    )
}

/// Decodes packed pixels to three colours each, over a background where one is
/// given.
pub fn unpack_gt_rgb<S: Scalar>(gt_packed: &Vec<u32>, composite_bg: Option<Rgb<S>>) -> (out: Vec<S>)
    requires
        gt_packed.len() * 3 <= usize::MAX,
    ensures
        out.len() == gt_packed.len() * 3,
        scalar::deterministic::<S>() ==> forall|i: int, k: int|
            0 <= i < gt_packed.len() && 0 <= k < 3 ==> out@[#[trigger] stencil::nth_slot(i, 3, k)]
                == unpacked(gt_packed[i], composite_bg, k),
{
    let mut out: Vec<S> = Vec::new();
    let mut i: usize = 0;
    while i < gt_packed.len()
        invariant
            i <= gt_packed.len(),
            out.len() == i * 3,
            scalar::deterministic::<S>() ==> forall|j: int, k: int|
                0 <= j < i && 0 <= k < 3 ==> out@[#[trigger] stencil::nth_slot(j, 3, k)]
                    == unpacked(gt_packed[j], composite_bg, k),
        decreases gt_packed.len() - i,
    {
        let rgb: (S, S, S) = unpack_gt_rgb_kernel(gt_packed[i], composite_bg);
        out.push(rgb.0);
        out.push(rgb.1);
        out.push(rgb.2);
        i = i + 1;
    }
    out
}

/// The tiles along a side cover it, and with one fewer they would not.
pub proof fn tiles_just_cover_a_side(n: int, side: int)
    requires
        0 <= n,
        0 < side,
    ensures
        n <= tiles_for(n, side) * side,
        n > 0 ==> (tiles_for(n, side) - 1) * side < n,
        n == 0 ==> tiles_for(n, side) == 0,
{
    let t = tiles_for(n, side);
    vstd::arithmetic::div_mod::lemma_fundamental_div_mod(n + side - 1, side);
    let m = (n + side - 1) % side;
    assert(n <= t * side && ((t - 1) * side < n || n == 0)) by (nonlinear_arith)
        requires
            n + side - 1 == side * t + m,
            0 <= m < side,
            0 <= n,
    ;
    assert(t * side == side * t) by (nonlinear_arith);
    assert((t - 1) * side == t * side - side) by (nonlinear_arith);
    if n == 0 {
        assert(t == 0) by (nonlinear_arith)
            requires
                side - 1 == side * t + m,
                0 <= m < side,
        ;
    }
}

} // verus!
