//! What the sums of the image loss add up to, for scalar types whose addition
//! can be reordered.
use vstd::prelude::*;

use crate::image_loss;
use crate::image_loss::Scene;
use crate::loss;
use crate::scalar;
use crate::scalar::Scalar;
use crate::stencil;

verus! {

/// Addition can be reordered, and zero adds nothing.
#[verifier::opaque]
pub open spec fn adds_up<S: Scalar>() -> bool {
    &&& forall|a: S, b: S| #[trigger] scalar::sum(a, b) == scalar::sum(b, a)
    &&& forall|a: S, b: S, c: S| #[trigger]
        scalar::sum(scalar::sum(a, b), c) == scalar::sum(a, scalar::sum(b, c))
    &&& forall|a: S| #[trigger] scalar::sum(a, scalar::zero()) == a
}

/// A factor can be taken out of a sum.
pub open spec fn distributes<S: Scalar>() -> bool {
    &&& forall|a: S, b: S, w: S| #[trigger]
        scalar::product(scalar::sum(a, b), w) == scalar::sum(
            scalar::product(a, w),
            scalar::product(b, w),
        )
    &&& forall|w: S| #[trigger] scalar::product(scalar::zero(), w) == scalar::zero::<S>()
}

/// The sum of the first `n` values of `f`, in order.
pub open spec fn total<S: Scalar>(f: spec_fn(int) -> S, n: int) -> S
    decreases n,
{
    if n <= 0 {
        scalar::zero()
    } else {
        scalar::sum(total(f, n - 1), f(n - 1))
    }
}

proof fn lemma_regroup<S: Scalar>(a: S, b: S, c: S, d: S)
    requires
        adds_up::<S>(),
    ensures
        scalar::sum(scalar::sum(a, b), scalar::sum(c, d)) == scalar::sum(
            scalar::sum(a, c),
            scalar::sum(b, d),
        ),
{
    reveal(adds_up);
    let bc = scalar::sum(b, c);
    let cb = scalar::sum(c, b);
    assert(scalar::sum(scalar::sum(a, b), scalar::sum(c, d)) == scalar::sum(
        a,
        scalar::sum(b, scalar::sum(c, d)),
    ));
    assert(scalar::sum(bc, d) == scalar::sum(b, scalar::sum(c, d)));
    assert(scalar::sum(cb, d) == scalar::sum(c, scalar::sum(b, d)));
    assert(bc == cb);
    assert(scalar::sum(scalar::sum(a, c), scalar::sum(b, d)) == scalar::sum(
        a,
        scalar::sum(c, scalar::sum(b, d)),
    ));
}

proof fn lemma_associate<S: Scalar>(a: S, b: S, c: S)
    requires
        adds_up::<S>(),
    ensures
        scalar::sum(scalar::sum(a, b), c) == scalar::sum(a, scalar::sum(b, c)),
{
    reveal(adds_up);
}

proof fn lemma_add_zero<S: Scalar>(a: S)
    requires
        adds_up::<S>(),
    ensures
        scalar::sum(a, scalar::zero()) == a,
        scalar::sum(scalar::zero(), a) == a,
{
    reveal(adds_up);
    assert(scalar::sum(a, scalar::zero()) == scalar::sum(scalar::zero(), a));
}

proof fn lemma_total_eq<S: Scalar>(f: spec_fn(int) -> S, g: spec_fn(int) -> S, n: int)
    requires
        forall|i: int| 0 <= i < n ==> #[trigger] f(i) == g(i),
    ensures
        total(f, n) == total(g, n),
    decreases n,
{
    if n > 0 {
        lemma_total_eq(f, g, n - 1);
        assert(f(n - 1) == g(n - 1));
    }
}

proof fn lemma_total_pairs<S: Scalar>(f: spec_fn(int) -> S, g: spec_fn(int) -> S, n: int)
    requires
        adds_up::<S>(),
        0 <= n,
    ensures
        total(|i: int| scalar::sum(f(i), g(i)), n) == scalar::sum(total(f, n), total(g, n)),
    decreases n,
{
    if n > 0 {
        lemma_total_pairs(f, g, n - 1);
        lemma_regroup(total(f, n - 1), total(g, n - 1), f(n - 1), g(n - 1));
    } else {
        lemma_add_zero(scalar::zero::<S>());
    }
}

proof fn lemma_total_split<S: Scalar>(f: spec_fn(int) -> S, m: int, n: int)
    requires
        adds_up::<S>(),
        0 <= m,
        0 <= n,
    ensures
        total(f, m + n) == scalar::sum(total(f, m), total(|i: int| f(m + i), n)),
    decreases n,
{
    let g = |i: int| f(m + i);
    if n > 0 {
        lemma_total_split(f, m, n - 1);
        lemma_associate(total(f, m), total(g, n - 1), f(m + n - 1));
        assert(m + (n - 1) == m + n - 1);
    } else {
        lemma_add_zero(total(f, m));
    }
}

/// Zeros behind the first `n` values add nothing.
proof fn lemma_total_tail<S: Scalar>(f: spec_fn(int) -> S, n: int, longer: int)
    requires
        adds_up::<S>(),
        0 <= n <= longer,
        forall|i: int| n <= i < longer ==> #[trigger] f(i) == scalar::zero::<S>(),
    ensures
        total(f, longer) == total(f, n),
    decreases longer - n,
{
    if n < longer {
        lemma_total_tail(f, n, longer - 1);
        assert(f(longer - 1) == scalar::zero::<S>());
        lemma_add_zero(total(f, longer - 1));
    }
}

/// The value at a cell of a table whose rows follow each other.
pub open spec fn in_row<S>(f: spec_fn(int) -> S, cols: int, r: int) -> spec_fn(int) -> S {
    |c: int| f(r * cols + c)
}

/// A table adds up row by row.
proof fn lemma_total_rows<S: Scalar>(f: spec_fn(int) -> S, rows: int, cols: int)
    requires
        adds_up::<S>(),
        0 <= rows,
        0 <= cols,
    ensures
        total(f, rows * cols) == total(|r: int| total(in_row(f, cols, r), cols), rows),
    decreases rows,
{
    let by_row = |r: int| total(in_row(f, cols, r), cols);
    if rows > 0 {
        let m = (rows - 1) * cols;
        lemma_total_rows(f, rows - 1, cols);
        assert(m + cols == rows * cols && 0 <= m) by (nonlinear_arith)
            requires
                m == (rows - 1) * cols,
                1 <= rows,
                0 <= cols,
        ;
        lemma_total_split(f, m, cols);
        lemma_total_eq(|i: int| f(m + i), in_row(f, cols, rows - 1), cols);
        assert(total(f, rows * cols) == scalar::sum(total(f, m), by_row(rows - 1)));
    } else {
        assert(rows * cols == 0) by (nonlinear_arith)
            requires
                rows == 0,
        ;
    }
}

/// A row of a table of two indices.
pub open spec fn row_at<S>(f: spec_fn(int, int) -> S, a: int) -> spec_fn(int) -> S {
    |b: int| f(a, b)
}

/// A column of a table of two indices.
pub open spec fn column_at<S>(f: spec_fn(int, int) -> S, b: int) -> spec_fn(int) -> S {
    |a: int| f(a, b)
}

/// Rows first or columns first, a table adds up to the same.
proof fn lemma_total_swap<S: Scalar>(f: spec_fn(int, int) -> S, n: int, m: int)
    requires
        adds_up::<S>(),
        0 <= n,
        0 <= m,
    ensures
        total(|a: int| total(row_at(f, a), m), n) == total(|b: int| total(column_at(f, b), n), m),
    decreases n,
{
    let by_row = |a: int| total(row_at(f, a), m);
    let by_column = |b: int| total(column_at(f, b), n);
    if n > 0 {
        lemma_total_swap(f, n - 1, m);
        let shorter = |b: int| total(column_at(f, b), n - 1);
        let last = row_at(f, n - 1);
        lemma_total_pairs(shorter, last, m);
        lemma_total_eq(by_column, |b: int| scalar::sum(shorter(b), last(b)), m);
    } else {
        let none = |b: int| scalar::zero::<S>();
        lemma_total_eq(by_column, none, m);
        lemma_total_tail(none, 0, m);
    }
}

/// Halving a length ends at one.
pub open spec fn halves(len: nat) -> bool
    decreases len,
{
    len == 1 || (len > 1 && len % 2 == 0 && halves(len / 2))
}

/// Summing by halves is summing in order.
proof fn lemma_tree_sum<S: Scalar>(values: Seq<S>)
    requires
        adds_up::<S>(),
        halves(values.len()),
    ensures
        image_loss::tree_sum(values) == total(|i: int| values[i], values.len() as int),
    decreases values.len(),
{
    let f = |i: int| values[i];
    if values.len() > 1 {
        let n = (values.len() / 2) as int;
        let half = image_loss::halved(values);
        lemma_tree_sum(half);
        let g = |i: int| f(n + i);
        lemma_total_split(f, n, n);
        lemma_total_pairs(f, g, n);
        lemma_total_eq(|i: int| half[i], |i: int| scalar::sum(f(i), g(i)), n);
    } else {
        assert(total(f, 1) == scalar::sum(total(f, 0), f(0)));
        lemma_add_zero(values[0]);
    }
}

proof fn lemma_total_scaled<S: Scalar>(f: spec_fn(int) -> S, w: S, n: int)
    requires
        distributes::<S>(),
        0 <= n,
    ensures
        total(|i: int| scalar::product(f(i), w), n) == scalar::product(total(f, n), w),
    decreases n,
{
    if n > 0 {
        lemma_total_scaled(f, w, n - 1);
    }
}

/// The loss at a pixel of a channel, zero outside of the image.
pub open spec fn padded_loss<S: Scalar>(sc: Scene<S>, l1_only: bool, c: int) -> spec_fn(
    int,
    int,
) -> S {
    |y: int, x: int|
        if image_loss::inside(sc.h, sc.w, y, x) {
            image_loss::loss_at(sc, l1_only, c, y, x)
        } else {
            scalar::zero()
        }
}

/// The sums of the rows of the image, padded or not.
spec fn row_totals<S: Scalar>(sc: Scene<S>, l1_only: bool, c: int, width: int) -> spec_fn(
    int,
) -> S {
    |y: int| total(row_at(padded_loss(sc, l1_only, c), y), width)
}

/// Part of a row of pixels: the one in a tile.
spec fn piece<S: Scalar>(sc: Scene<S>, l1_only: bool, c: int, y: int, tile_x: int) -> S {
    total(in_row(row_at(padded_loss(sc, l1_only, c), y), 16, tile_x), 16)
}

spec fn pieces<S: Scalar>(sc: Scene<S>, l1_only: bool, c: int, tile_y: int) -> spec_fn(
    int,
    int,
) -> S {
    |tile_x: int, r: int| piece(sc, l1_only, c, tile_y * 16 + r, tile_x)
}

/// A tile adds up to its pieces of rows.
proof fn lemma_tile_total<S: Scalar>(sc: Scene<S>, l1_only: bool, c: int, tile: int)
    requires
        adds_up::<S>(),
        0 < image_loss::tiles_across(sc.w),
        0 <= tile,
    ensures
        image_loss::tree_sum(image_loss::tile_losses(sc, l1_only, c, tile)) == total(
            row_at(
                pieces(sc, l1_only, c, tile / image_loss::tiles_across(sc.w)),
                tile % image_loss::tiles_across(sc.w),
            ),
            16,
        ),
{
    let values = image_loss::tile_losses(sc, l1_only, c, tile);
    assert(halves(256)) by {
        reveal_with_fuel(halves, 10);
    }
    lemma_tree_sum(values);
    let f = |i: int| values[i];
    lemma_total_rows(f, 16, 16);
    let tile_y = tile / image_loss::tiles_across(sc.w);
    let tile_x = tile % image_loss::tiles_across(sc.w);
    let g = row_at(pieces(sc, l1_only, c, tile_y), tile_x);
    let by_row = |r: int| total(in_row(f, 16, r), 16);
    assert forall|r: int| 0 <= r < 16 implies #[trigger] by_row(r) == g(r) by {
        let y = tile_y * 16 + r;
        let h = in_row(row_at(padded_loss(sc, l1_only, c), y), 16, tile_x);
        let k = in_row(f, 16, r);
        assert forall|x: int| 0 <= x < 16 implies #[trigger] k(x) == h(x) by {
            let i = r * 16 + x;
            assert(i / 16 == r && i % 16 == x);
            assert(0 <= i < 256);
        }
        lemma_total_eq(k, h, 16);
    }
    lemma_total_eq(by_row, g, 16);
}

/// The tiles of a row of tiles add up to its rows of pixels.
proof fn lemma_tile_row<S: Scalar>(sc: Scene<S>, l1_only: bool, c: int, tile_y: int)
    requires
        adds_up::<S>(),
        0 <= sc.w,
    ensures
        total(
            |tile_x: int| total(row_at(pieces(sc, l1_only, c, tile_y), tile_x), 16),
            image_loss::tiles_across(sc.w),
        ) == total(
            |r: int| row_totals(sc, l1_only, c, sc.w)(tile_y * 16 + r),
            16,
        ),
{
    let across = image_loss::tiles_across(sc.w);
    let p = pieces(sc, l1_only, c, tile_y);
    lemma_total_swap(p, across, 16);
    let by_column = |r: int| total(column_at(p, r), across);
    let rows = |r: int| row_totals(sc, l1_only, c, sc.w)(tile_y * 16 + r);
    assert forall|r: int| 0 <= r < 16 implies #[trigger] by_column(r) == rows(r) by {
        let line = row_at(padded_loss(sc, l1_only, c), tile_y * 16 + r);
        lemma_total_rows(line, across, 16);
        lemma_total_eq(
            column_at(p, r),
            |tile_x: int| total(in_row(line, 16, tile_x), 16),
            across,
        );
        lemma_total_tail(line, sc.w, across * 16);
    }
    lemma_total_eq(by_column, rows, 16);
}

/// The sums of all tiles of a channel add up to the losses of its pixels.
proof fn lemma_all_tiles<S: Scalar>(sc: Scene<S>, l1_only: bool, c: int)
    requires
        adds_up::<S>(),
        0 < sc.h,
        0 < sc.w,
    ensures
        total(
            |t: int| image_loss::tree_sum(image_loss::tile_losses(sc, l1_only, c, t)),
            image_loss::tile_count(sc.h, sc.w),
        ) == total(row_totals(sc, l1_only, c, sc.w), sc.h),
{
    let across = image_loss::tiles_across(sc.w);
    let down = image_loss::tiles_across(sc.h);
    let tiles = |t: int| image_loss::tree_sum(image_loss::tile_losses(sc, l1_only, c, t));
    assert(across * down == down * across) by (nonlinear_arith);
    lemma_total_rows(tiles, down, across);
    let by_row = |r: int| total(in_row(tiles, across, r), across);
    let rows = row_totals(sc, l1_only, c, sc.w);
    let grouped = |r: int| total(in_row(rows, 16, r), 16);
    assert forall|r: int| 0 <= r < down implies #[trigger] by_row(r) == grouped(r) by {
        let p = pieces(sc, l1_only, c, r);
        let line = in_row(tiles, across, r);
        let q = |tile_x: int| total(row_at(p, tile_x), 16);
        assert forall|x: int| 0 <= x < across implies #[trigger] line(x) == q(x) by {
            let t = r * across + x;
            assert(t / across == r && t % across == x && 0 <= t) by (nonlinear_arith)
                requires
                    t == r * across + x,
                    0 <= x < across,
                    0 <= r,
            ;
            lemma_tile_total(sc, l1_only, c, t);
        }
        lemma_total_eq(line, q, across);
        lemma_tile_row(sc, l1_only, c, r);
        lemma_total_eq(|i: int| rows(r * 16 + i), in_row(rows, 16, r), 16);
    }
    lemma_total_eq(by_row, grouped, down);
    lemma_total_rows(rows, down, 16);
    assert forall|y: int| sc.h <= y < down * 16 implies #[trigger] rows(y) == scalar::zero::<S>() by {
        let line = row_at(padded_loss(sc, l1_only, c), y);
        lemma_total_tail(line, 0, sc.w);
    }
    lemma_total_tail(rows, sc.h, down * 16);
}

/// The sum of a channel of a loss map.
pub open spec fn map_total<S: Scalar>(sc: Scene<S>, map: Seq<S>, c: int) -> S {
    total(
        |y: int|
            total(|x: int| map[image_loss::pixel_slot(sc.w, sc.cn, y, x, c)], sc.w),
        sc.h,
    )
}

/// The sum of the tiles of a plane.
pub open spec fn plane_total<S: Scalar>(sc: Scene<S>, parts: Seq<S>, c: int) -> S {
    let tiles = image_loss::tile_count(sc.h, sc.w);
    total(|t: int| parts[stencil::nth_slot(c, tiles, t)], tiles)
}

/// The weighted sums of the tiles of a plane add up to the sum of the plane's
/// channel of the loss map, times the weight of the plane. This asks of the
/// scalar type that sums can be reordered and that a factor can be taken out of
/// them.
pub proof fn tile_sums_add_up_to_the_map<S: Scalar>(
    sc: Scene<S>,
    l1_only: bool,
    map: Seq<S>,
    parts: Seq<S>,
    c: int,
)
    requires
        adds_up::<S>(),
        distributes::<S>(),
        0 < sc.h,
        0 < sc.w,
        0 <= c < sc.cn,
        c < image_loss::plane_count(sc.cfg, sc.cn),
        loss::is_loss_map(sc, l1_only, map),
        loss::are_partial_sums(sc, l1_only, parts),
    ensures
        plane_total(sc, parts, c) == scalar::product(
            map_total(sc, map, c),
            if c == 3 {
                image_loss::weights_of(sc.cfg, sc.h, sc.w).alpha
            } else {
                image_loss::weights_of(sc.cfg, sc.h, sc.w).rgb
            },
        ),
{
    let tiles = image_loss::tile_count(sc.h, sc.w);
    let weight = if c == 3 {
        image_loss::weights_of(sc.cfg, sc.h, sc.w).alpha
    } else {
        image_loss::weights_of(sc.cfg, sc.h, sc.w).rgb
    };
    let sums = |t: int| image_loss::tree_sum(image_loss::tile_losses(sc, l1_only, c, t));
    let row = |t: int| parts[stencil::nth_slot(c, tiles, t)];
    assert(0 <= tiles) by (nonlinear_arith)
        requires
            tiles == image_loss::tiles_across(sc.w) * image_loss::tiles_across(sc.h),
            0 <= image_loss::tiles_across(sc.w),
            0 <= image_loss::tiles_across(sc.h),
    ;
    assert forall|t: int| 0 <= t < tiles implies #[trigger] row(t) == scalar::product(
        sums(t),
        weight,
    ) by {
        assert(parts[stencil::nth_slot(c, tiles, t)] == image_loss::tile_partial(
            sc,
            l1_only,
            c,
            t,
        ));
    }
    lemma_total_eq(row, |t: int| scalar::product(sums(t), weight), tiles);
    lemma_total_scaled(sums, weight, tiles);
    lemma_all_tiles(sc, l1_only, c);
    let rows = row_totals(sc, l1_only, c, sc.w);
    let lines = |y: int|
        total(|x: int| map[image_loss::pixel_slot(sc.w, sc.cn, y, x, c)], sc.w);
    assert forall|y: int| 0 <= y < sc.h implies #[trigger] rows(y) == lines(y) by {
        lemma_total_eq(
            row_at(padded_loss(sc, l1_only, c), y),
            |x: int| map[image_loss::pixel_slot(sc.w, sc.cn, y, x, c)],
            sc.w,
        );
    }
    lemma_total_eq(rows, lines, sc.h);
}

} // verus!
