//! Sums and blurs of plain numbers: reordering, and moving a blur from one
//! factor of a sum of products to the other.
use vstd::prelude::*;

use crate::exact;

verus! {

/// The sum of the first `n` values of `f`.
pub open spec fn rsum(f: spec_fn(int) -> real, n: int) -> real
    decreases n,
{
    if n <= 0 {
        0 as real
    } else {
        rsum(f, n - 1) + f(n - 1)
    }
}

pub(crate) proof fn lemma_rsum_eq(f: spec_fn(int) -> real, g: spec_fn(int) -> real, n: int)
    requires
        forall|i: int| 0 <= i < n ==> #[trigger] f(i) == g(i),
    ensures
        rsum(f, n) == rsum(g, n),
    decreases n,
{
    if n > 0 {
        lemma_rsum_eq(f, g, n - 1);
        assert(f(n - 1) == g(n - 1));
    }
}

pub(crate) proof fn lemma_rsum_add(
    f: spec_fn(int) -> real,
    g: spec_fn(int) -> real,
    h: spec_fn(int) -> real,
    n: int,
)
    requires
        forall|i: int| 0 <= i < n ==> #[trigger] h(i) == f(i) + g(i),
    ensures
        rsum(h, n) == rsum(f, n) + rsum(g, n),
    decreases n,
{
    if n > 0 {
        lemma_rsum_add(f, g, h, n - 1);
        assert(h(n - 1) == f(n - 1) + g(n - 1));
    }
}

pub(crate) proof fn lemma_rsum_scaled(
    f: spec_fn(int) -> real,
    k: real,
    h: spec_fn(int) -> real,
    n: int,
)
    requires
        forall|i: int| 0 <= i < n ==> #[trigger] h(i) == k * f(i),
    ensures
        rsum(h, n) == k * rsum(f, n),
    decreases n,
{
    if n > 0 {
        lemma_rsum_scaled(f, k, h, n - 1);
        exact::lemma_in_front(k, rsum(f, n - 1), f(n - 1));
        assert(h(n - 1) == k * f(n - 1));
    } else {
        exact::lemma_times_zero(k, 0 as real);
    }
}

/// Values of zero at the end add nothing.
pub(crate) proof fn lemma_rsum_tail(f: spec_fn(int) -> real, n: int, longer: int)
    requires
        0 <= n <= longer,
        forall|i: int| n <= i < longer ==> #[trigger] f(i) == 0 as real,
    ensures
        rsum(f, longer) == rsum(f, n),
    decreases longer,
{
    if n < longer {
        lemma_rsum_tail(f, n, longer - 1);
        assert(f(longer - 1) == 0 as real);
    }
}

/// A sum of sums, in either order.
pub(crate) proof fn lemma_rsum_swap(f: spec_fn(int, int) -> real, n: int, m: int)
    requires
        0 <= n,
        0 <= m,
    ensures
        rsum(|a: int| rsum(|b: int| f(a, b), m), n) == rsum(
            |b: int| rsum(|a: int| f(a, b), n),
            m,
        ),
    decreases n,
{
    let rows = |a: int| rsum(|b: int| f(a, b), m);
    let columns = |b: int| rsum(|a: int| f(a, b), n);
    if n == 0 {
        lemma_rsum_tail(columns, 0, m);
    } else {
        lemma_rsum_swap(f, n - 1, m);
        let shorter = |b: int| rsum(|a: int| f(a, b), n - 1);
        let last = |b: int| f(n - 1, b);
        assert forall|b: int| 0 <= b < m implies #[trigger] columns(b) == shorter(b) + last(b) by {}
        lemma_rsum_add(shorter, last, columns, m);
        assert(rows(n - 1) == rsum(last, m));
    }
}

/// A long sum by rows of `cols` values.
pub(crate) proof fn lemma_rsum_rows(f: spec_fn(int) -> real, rows: int, cols: int)
    requires
        0 <= rows,
        0 <= cols,
    ensures
        rsum(f, rows * cols) == rsum(|r: int| rsum(|i: int| f(r * cols + i), cols), rows),
    decreases rows,
{
    let line = |r: int| rsum(|i: int| f(r * cols + i), cols);
    if rows > 0 {
        lemma_rsum_rows(f, rows - 1, cols);
        let start = (rows - 1) * cols;
        assert(rows * cols == start + cols && 0 <= start) by (nonlinear_arith)
            requires
                start == (rows - 1) * cols,
                rows > 0,
                cols >= 0,
        ;
        lemma_rsum_append(f, start, cols);
        assert(line(rows - 1) == rsum(|i: int| f(start + i), cols));
    } else {
        assert(0 * cols == 0);
    }
}

pub(crate) proof fn lemma_rsum_append(f: spec_fn(int) -> real, start: int, n: int)
    requires
        0 <= start,
        0 <= n,
    ensures
        rsum(f, start + n) == rsum(f, start) + rsum(|i: int| f(start + i), n),
    decreases n,
{
    if n > 0 {
        lemma_rsum_append(f, start, n - 1);
    }
}

/// Nothing is there outside of the first `n` places.
pub open spec fn lies_within(f: spec_fn(int) -> real, n: int) -> bool {
    forall|i: int| i < 0 || n <= i ==> #[trigger] f(i) == 0 as real
}

/// The first `d` symmetric pairs of a blur with weights `t` around `at`.
pub open spec fn rpairs(
    t: spec_fn(int) -> real,
    f: spec_fn(int) -> real,
    at: int,
    d: int,
) -> real
    decreases d,
{
    if d <= 0 {
        0 as real
    } else {
        rpairs(t, f, at, d - 1) + (f(at - d) + f(at + d)) * t(5 - d)
    }
}

/// The blur of `f` at `at`.
pub open spec fn rblur(t: spec_fn(int) -> real, f: spec_fn(int) -> real, at: int) -> real {
    rpairs(t, f, at, 5) + f(at) * t(5)
}

proof fn lemma_pairs_eq(
    t: spec_fn(int) -> real,
    f: spec_fn(int) -> real,
    g: spec_fn(int) -> real,
    at: int,
    d: int,
)
    requires
        forall|i: int| #[trigger] f(i) == g(i),
    ensures
        rpairs(t, f, at, d) == rpairs(t, g, at, d),
    decreases d,
{
    if d > 0 {
        lemma_pairs_eq(t, f, g, at, d - 1);
        assert(f(at - d) == g(at - d) && f(at + d) == g(at + d));
    }
}

pub(crate) proof fn lemma_blur_eq(
    t: spec_fn(int) -> real,
    f: spec_fn(int) -> real,
    g: spec_fn(int) -> real,
    at: int,
)
    requires
        forall|i: int| #[trigger] f(i) == g(i),
    ensures
        rblur(t, f, at) == rblur(t, g, at),
{
    lemma_pairs_eq(t, f, g, at, 5);
    assert(f(at) == g(at));
}

proof fn lemma_pairs_linear(
    t: spec_fn(int) -> real,
    f: spec_fn(int) -> real,
    g: spec_fn(int) -> real,
    k: real,
    h: spec_fn(int) -> real,
    at: int,
    d: int,
)
    requires
        forall|i: int| #[trigger] h(i) == f(i) + g(i) * k,
    ensures
        rpairs(t, h, at, d) == rpairs(t, f, at, d) + rpairs(t, g, at, d) * k,
    decreases d,
{
    if d > 0 {
        lemma_pairs_linear(t, f, g, k, h, at, d - 1);
        let (a, b) = (at - d, at + d);
        let w = t(5 - d);
        assert(h(a) == f(a) + g(a) * k && h(b) == f(b) + g(b) * k);
        exact::lemma_factor(g(a), g(b), k);
        exact::lemma_factor(f(a) + f(b), (g(a) + g(b)) * k, w);
        exact::lemma_swap_last(g(a) + g(b), k, w);
        exact::lemma_factor(rpairs(t, g, at, d - 1), (g(a) + g(b)) * w, k);
    } else {
        exact::lemma_times_zero(0 as real, k);
    }
}

/// A blur is linear.
pub(crate) proof fn lemma_blur_linear(
    t: spec_fn(int) -> real,
    f: spec_fn(int) -> real,
    g: spec_fn(int) -> real,
    k: real,
    h: spec_fn(int) -> real,
    at: int,
)
    requires
        forall|i: int| #[trigger] h(i) == f(i) + g(i) * k,
    ensures
        rblur(t, h, at) == rblur(t, f, at) + rblur(t, g, at) * k,
{
    lemma_pairs_linear(t, f, g, k, h, at, 5);
    let w = t(5);
    assert(h(at) == f(at) + g(at) * k);
    exact::lemma_factor(f(at), g(at) * k, w);
    exact::lemma_swap_last(g(at), k, w);
    exact::lemma_factor(rpairs(t, g, at, 5), g(at) * w, k);
}

proof fn lemma_pairs_zero(t: spec_fn(int) -> real, f: spec_fn(int) -> real, at: int, d: int)
    requires
        forall|i: int| #[trigger] f(i) == 0 as real,
    ensures
        rpairs(t, f, at, d) == 0 as real,
    decreases d,
{
    if d > 0 {
        lemma_pairs_zero(t, f, at, d - 1);
        assert(f(at - d) == 0 as real && f(at + d) == 0 as real);
        exact::lemma_times_zero(0 as real, t(5 - d));
    }
}

pub(crate) proof fn lemma_blur_zero(t: spec_fn(int) -> real, f: spec_fn(int) -> real, at: int)
    requires
        forall|i: int| #[trigger] f(i) == 0 as real,
    ensures
        rblur(t, f, at) == 0 as real,
{
    lemma_pairs_zero(t, f, at, 5);
    assert(f(at) == 0 as real);
    exact::lemma_times_zero(0 as real, t(5));
}

/// A sum, moved by `d` places.
proof fn lemma_shifted_sum(h: spec_fn(int) -> real, g: spec_fn(int) -> real, d: int, n: int)
    requires
        0 <= d,
        forall|i: int| i < 0 ==> #[trigger] h(i) == 0 as real,
        forall|i: int| #[trigger] g(i) == h(i - d),
    ensures
        rsum(g, n) == rsum(h, n - d),
    decreases n,
{
    if n > 0 {
        lemma_shifted_sum(h, g, d, n - 1);
        assert(g(n - 1) == h(n - 1 - d));
    }
}

/// A factor of a sum of products, moved by `d` places against the other.
proof fn lemma_shift(f: spec_fn(int) -> real, g: spec_fn(int) -> real, d: int, n: int)
    requires
        0 <= d,
        0 <= n,
        lies_within(f, n),
        lies_within(g, n),
    ensures
        rsum(|i: int| f(i) * g(i + d), n) == rsum(|i: int| f(i - d) * g(i), n),
{
    let h = |i: int| f(i) * g(i + d);
    let moved = |i: int| f(i - d) * g(i);
    assert forall|i: int| i < 0 implies #[trigger] h(i) == 0 as real by {
        assert(f(i) == 0 as real);
        exact::lemma_times_zero(f(i), g(i + d));
    }
    assert forall|i: int| #[trigger] moved(i) == h(i - d) by {}
    lemma_shifted_sum(h, moved, d, n);
    assert forall|i: int| n - d <= i < n implies #[trigger] h(i) == 0 as real by {
        assert(g(i + d) == 0 as real);
        exact::lemma_times_zero(f(i), g(i + d));
    }
    if n >= d {
        lemma_rsum_tail(h, n - d, n);
    } else {
        lemma_rsum_tail(h, 0, n);
    }
}

proof fn lemma_pairs_adjoint(
    t: spec_fn(int) -> real,
    f: spec_fn(int) -> real,
    g: spec_fn(int) -> real,
    n: int,
    d: int,
)
    requires
        0 <= n,
        0 <= d,
        lies_within(f, n),
        lies_within(g, n),
    ensures
        rsum(|i: int| f(i) * rpairs(t, g, i, d), n) == rsum(|i: int| rpairs(t, f, i, d) * g(i), n),
    decreases d,
{
    let left = |i: int| f(i) * rpairs(t, g, i, d);
    let right = |i: int| rpairs(t, f, i, d) * g(i);
    if d == 0 {
        assert forall|i: int| 0 <= i < n implies #[trigger] left(i) == right(i) by {
            exact::lemma_times_zero(f(i), 0 as real);
            exact::lemma_times_zero(0 as real, g(i));
        }
        lemma_rsum_eq(left, right, n);
    } else {
        lemma_pairs_adjoint(t, f, g, n, d - 1);
        let left0 = |i: int| f(i) * rpairs(t, g, i, d - 1);
        let right0 = |i: int| rpairs(t, f, i, d - 1) * g(i);
        let w = t(5 - d);
        // The products with the two neighbours at distance `d`.
        let (ahead, ahead_moved) = (|i: int| f(i) * g(i + d), |i: int| f(i - d) * g(i));
        let (behind, behind_moved) = (|i: int| g(i) * f(i + d), |i: int| g(i - d) * f(i));
        lemma_shift(f, g, d, n);
        lemma_shift(g, f, d, n);
        let both = |i: int| ahead(i) + behind_moved(i);
        let both_moved = |i: int| ahead_moved(i) + behind(i);
        lemma_rsum_add(ahead, behind_moved, both, n);
        lemma_rsum_add(ahead_moved, behind, both_moved, n);
        let (weighed, weighed_moved) = (|i: int| w * both(i), |i: int| w * both_moved(i));
        lemma_rsum_scaled(both, w, weighed, n);
        lemma_rsum_scaled(both_moved, w, weighed_moved, n);
        assert forall|i: int| 0 <= i < n implies #[trigger] left(i) == left0(i) + weighed(i) by {
            let pair = g(i - d) + g(i + d);
            exact::lemma_in_front(f(i), rpairs(t, g, i, d - 1), pair * w);
            exact::lemma_regroup(f(i), pair, w);
            exact::lemma_in_front(f(i), g(i - d), g(i + d));
            exact::lemma_commute(f(i), g(i - d));
            exact::lemma_commute(f(i) * pair, w);
        }
        assert forall|i: int| 0 <= i < n implies #[trigger] right(i) == right0(i) + weighed_moved(
            i,
        ) by {
            let pair = f(i - d) + f(i + d);
            exact::lemma_factor(rpairs(t, f, i, d - 1), pair * w, g(i));
            exact::lemma_swap_last(pair, w, g(i));
            exact::lemma_factor(f(i - d), f(i + d), g(i));
            exact::lemma_commute(f(i + d), g(i));
            exact::lemma_commute(pair * g(i), w);
        }
        lemma_rsum_add(left0, weighed, left, n);
        lemma_rsum_add(right0, weighed_moved, right, n);
    }
}

/// A blur may be moved from one factor of a sum of products to the other.
pub(crate) proof fn lemma_blur_adjoint(
    t: spec_fn(int) -> real,
    f: spec_fn(int) -> real,
    g: spec_fn(int) -> real,
    n: int,
)
    requires
        0 <= n,
        lies_within(f, n),
        lies_within(g, n),
    ensures
        rsum(|i: int| f(i) * rblur(t, g, i), n) == rsum(|i: int| rblur(t, f, i) * g(i), n),
{
    let left = |i: int| f(i) * rblur(t, g, i);
    let right = |i: int| rblur(t, f, i) * g(i);
    let left0 = |i: int| f(i) * rpairs(t, g, i, 5);
    let right0 = |i: int| rpairs(t, f, i, 5) * g(i);
    let w = t(5);
    let centre = |i: int| (f(i) * g(i)) * w;
    lemma_pairs_adjoint(t, f, g, n, 5);
    assert forall|i: int| 0 <= i < n implies #[trigger] left(i) == left0(i) + centre(i) by {
        exact::lemma_in_front(f(i), rpairs(t, g, i, 5), g(i) * w);
        exact::lemma_regroup(f(i), g(i), w);
    }
    assert forall|i: int| 0 <= i < n implies #[trigger] right(i) == right0(i) + centre(i) by {
        exact::lemma_factor(rpairs(t, f, i, 5), f(i) * w, g(i));
        exact::lemma_swap_last(f(i), w, g(i));
    }
    lemma_rsum_add(left0, centre, left, n);
    lemma_rsum_add(right0, centre, right, n);
}

/// A row of a plane.
pub open spec fn plane_row(f: spec_fn(int, int) -> real, y: int) -> spec_fn(int) -> real {
    |x: int| f(y, x)
}

/// A column of a plane.
pub open spec fn plane_column(f: spec_fn(int, int) -> real, x: int) -> spec_fn(int) -> real {
    |y: int| f(y, x)
}

/// The sum of the values of a plane in `h` rows of `w`.
pub open spec fn rsum2(f: spec_fn(int, int) -> real, h: int, w: int) -> real {
    rsum(|y: int| rsum(plane_row(f, y), w), h)
}

/// A plane blurred along its rows.
pub open spec fn row_blur(t: spec_fn(int) -> real, f: spec_fn(int, int) -> real) -> spec_fn(
    int,
    int,
) -> real {
    |y: int, x: int| rblur(t, plane_row(f, y), x)
}

/// A plane blurred along its columns.
pub open spec fn column_blur(t: spec_fn(int) -> real, f: spec_fn(int, int) -> real) -> spec_fn(
    int,
    int,
) -> real {
    |y: int, x: int| rblur(t, plane_column(f, x), y)
}

/// A plane blurred along its rows, then along its columns.
pub open spec fn plane_blur(t: spec_fn(int) -> real, f: spec_fn(int, int) -> real) -> spec_fn(
    int,
    int,
) -> real {
    column_blur(t, row_blur(t, f))
}

/// Nothing is there outside of `h` rows of `w` places.
pub open spec fn plane_within(f: spec_fn(int, int) -> real, h: int, w: int) -> bool {
    forall|y: int, x: int| !(0 <= y < h && 0 <= x < w) ==> #[trigger] f(y, x) == 0 as real
}

pub(crate) proof fn lemma_rsum2_eq(
    f: spec_fn(int, int) -> real,
    g: spec_fn(int, int) -> real,
    h: int,
    w: int,
)
    requires
        forall|y: int, x: int| 0 <= y < h && 0 <= x < w ==> #[trigger] f(y, x) == g(y, x),
    ensures
        rsum2(f, h, w) == rsum2(g, h, w),
{
    let (p, q) = (|y: int| rsum(plane_row(f, y), w), |y: int| rsum(plane_row(g, y), w));
    assert forall|y: int| 0 <= y < h implies #[trigger] p(y) == q(y) by {
        lemma_rsum_eq(plane_row(f, y), plane_row(g, y), w);
    }
    lemma_rsum_eq(p, q, h);
}

pub(crate) proof fn lemma_rsum2_add(
    f: spec_fn(int, int) -> real,
    g: spec_fn(int, int) -> real,
    s: spec_fn(int, int) -> real,
    h: int,
    w: int,
)
    requires
        forall|y: int, x: int| 0 <= y < h && 0 <= x < w ==> #[trigger] s(y, x) == f(y, x) + g(y, x),
    ensures
        rsum2(s, h, w) == rsum2(f, h, w) + rsum2(g, h, w),
{
    let (p, q) = (|y: int| rsum(plane_row(f, y), w), |y: int| rsum(plane_row(g, y), w));
    let r = |y: int| rsum(plane_row(s, y), w);
    assert forall|y: int| 0 <= y < h implies #[trigger] r(y) == p(y) + q(y) by {
        lemma_rsum_add(plane_row(f, y), plane_row(g, y), plane_row(s, y), w);
    }
    lemma_rsum_add(p, q, r, h);
}

pub(crate) proof fn lemma_rsum2_scaled(
    f: spec_fn(int, int) -> real,
    k: real,
    s: spec_fn(int, int) -> real,
    h: int,
    w: int,
)
    requires
        forall|y: int, x: int| 0 <= y < h && 0 <= x < w ==> #[trigger] s(y, x) == k * f(y, x),
    ensures
        rsum2(s, h, w) == k * rsum2(f, h, w),
{
    let p = |y: int| rsum(plane_row(f, y), w);
    let r = |y: int| rsum(plane_row(s, y), w);
    assert forall|y: int| 0 <= y < h implies #[trigger] r(y) == k * p(y) by {
        lemma_rsum_scaled(plane_row(f, y), k, plane_row(s, y), w);
    }
    lemma_rsum_scaled(p, k, r, h);
}

/// The sum of a plane by columns.
pub(crate) proof fn lemma_rsum2_columns(f: spec_fn(int, int) -> real, h: int, w: int)
    requires
        0 <= h,
        0 <= w,
    ensures
        rsum2(f, h, w) == rsum(|x: int| rsum(plane_column(f, x), h), w),
{
    lemma_rsum_swap(f, h, w);
    let (p, q) = (|y: int| rsum(plane_row(f, y), w), |y: int| rsum(|x: int| f(y, x), w));
    assert forall|y: int| 0 <= y < h implies #[trigger] p(y) == q(y) by {
        lemma_rsum_eq(plane_row(f, y), |x: int| f(y, x), w);
    }
    lemma_rsum_eq(p, q, h);
    let (r, s) = (|x: int| rsum(plane_column(f, x), h), |x: int| rsum(|y: int| f(y, x), h));
    assert forall|x: int| 0 <= x < w implies #[trigger] r(x) == s(x) by {
        lemma_rsum_eq(plane_column(f, x), |y: int| f(y, x), h);
    }
    lemma_rsum_eq(r, s, w);
}

/// The pairs of a blur along a column of a plane that was blurred along its
/// rows are the blur along the row of those pairs.
proof fn lemma_pairs_commute(
    t: spec_fn(int) -> real,
    f: spec_fn(int, int) -> real,
    y: int,
    x: int,
    d: int,
)
    requires
        0 <= d,
    ensures
        rpairs(t, plane_column(row_blur(t, f), x), y, d) == rblur(
            t,
            |i: int| rpairs(t, plane_column(f, i), y, d),
            x,
        ),
    decreases d,
{
    let now = |i: int| rpairs(t, plane_column(f, i), y, d);
    if d == 0 {
        lemma_blur_zero(t, now, x);
    } else {
        lemma_pairs_commute(t, f, y, x, d - 1);
        let before = |i: int| rpairs(t, plane_column(f, i), y, d - 1);
        let (a, b) = (plane_row(f, y - d), plane_row(f, y + d));
        let pair = |i: int| a(i) + b(i) * (1 as real);
        let w = t(5 - d);
        assert forall|i: int| #[trigger] now(i) == before(i) + pair(i) * w by {}
        lemma_blur_linear(t, a, b, 1 as real, pair, x);
        lemma_blur_linear(t, before, pair, w, now, x);
    }
}

/// The order of the two blurs of a plane does not matter.
pub(crate) proof fn lemma_blurs_commute(
    t: spec_fn(int) -> real,
    f: spec_fn(int, int) -> real,
    y: int,
    x: int,
)
    ensures
        plane_blur(t, f)(y, x) == row_blur(t, column_blur(t, f))(y, x),
{
    lemma_pairs_commute(t, f, y, x, 5);
    let pairs = |i: int| rpairs(t, plane_column(f, i), y, 5);
    let whole = plane_row(column_blur(t, f), y);
    let w = t(5);
    assert forall|i: int| #[trigger] whole(i) == pairs(i) + plane_row(f, y)(i) * w by {}
    lemma_blur_linear(t, pairs, plane_row(f, y), w, whole, x);
}

/// A blur of a plane may be moved from one factor of a sum of products to the
/// other.
pub(crate) proof fn lemma_plane_adjoint(
    t: spec_fn(int) -> real,
    f: spec_fn(int, int) -> real,
    g: spec_fn(int, int) -> real,
    h: int,
    w: int,
)
    requires
        0 <= h,
        0 <= w,
        plane_within(f, h, w),
        plane_within(g, h, w),
    ensures
        rsum2(|y: int, x: int| f(y, x) * plane_blur(t, g)(y, x), h, w) == rsum2(
            |y: int, x: int| plane_blur(t, f)(y, x) * g(y, x),
            h,
            w,
        ),
{
    let rows = row_blur(t, g);
    let columns = column_blur(t, f);
    let start = |y: int, x: int| f(y, x) * plane_blur(t, g)(y, x);
    let middle = |y: int, x: int| columns(y, x) * rows(y, x);
    let end = |y: int, x: int| plane_blur(t, f)(y, x) * g(y, x);
    // Along the columns.
    lemma_rsum2_columns(start, h, w);
    lemma_rsum2_columns(middle, h, w);
    let (p, q) = (|x: int| rsum(plane_column(start, x), h), |x: int| rsum(plane_column(middle, x), h));
    assert forall|x: int| 0 <= x < w implies #[trigger] p(x) == q(x) by {
        let (a, b) = (plane_column(f, x), plane_column(rows, x));
        assert forall|y: int| y < 0 || h <= y implies #[trigger] a(y) == 0 as real by {
            assert(f(y, x) == 0 as real);
        }
        assert forall|y: int| y < 0 || h <= y implies #[trigger] b(y) == 0 as real by {
            assert forall|i: int| #[trigger] plane_row(g, y)(i) == 0 as real by {
                assert(g(y, i) == 0 as real);
            }
            lemma_blur_zero(t, plane_row(g, y), x);
        }
        lemma_blur_adjoint(t, a, b, h);
        lemma_rsum_eq(plane_column(start, x), |i: int| a(i) * rblur(t, b, i), h);
        lemma_rsum_eq(plane_column(middle, x), |i: int| rblur(t, a, i) * b(i), h);
    }
    lemma_rsum_eq(p, q, w);
    // Along the rows.
    let (r, s) = (|y: int| rsum(plane_row(middle, y), w), |y: int| rsum(plane_row(end, y), w));
    assert forall|y: int| 0 <= y < h implies #[trigger] r(y) == s(y) by {
        let (a, b) = (plane_row(columns, y), plane_row(g, y));
        assert forall|x: int| x < 0 || w <= x implies #[trigger] b(x) == 0 as real by {
            assert(g(y, x) == 0 as real);
        }
        assert forall|x: int| x < 0 || w <= x implies #[trigger] a(x) == 0 as real by {
            assert forall|i: int| #[trigger] plane_column(f, x)(i) == 0 as real by {
                assert(f(i, x) == 0 as real);
            }
            lemma_blur_zero(t, plane_column(f, x), y);
        }
        lemma_blur_adjoint(t, a, b, w);
        lemma_rsum_eq(plane_row(middle, y), |i: int| a(i) * rblur(t, b, i), w);
        let done = |i: int| rblur(t, a, i) * b(i);
        assert forall|i: int| 0 <= i < w implies #[trigger] done(i) == plane_row(end, y)(i) by {
            lemma_blurs_commute(t, f, y, i);
        }
        lemma_rsum_eq(done, plane_row(end, y), w);
    }
    lemma_rsum_eq(r, s, h);
}

/// The sum of a tile of a plane, whose corner is tile `r` down and `k` across.
proof fn lemma_tile_rows(f: spec_fn(int, int) -> real, r: int, k: int)
    ensures
        rsum(|i: int| f(r * 16 + i / 16, k * 16 + i % 16), 256) == rsum(
            |a: int| rsum(|b: int| f(r * 16 + a, k * 16 + b), 16),
            16,
        ),
{
    let g = |i: int| f(r * 16 + i / 16, k * 16 + i % 16);
    lemma_rsum_rows(g, 16, 16);
    let (p, q) = (
        |a: int| rsum(|b: int| g(a * 16 + b), 16),
        |a: int| rsum(|b: int| f(r * 16 + a, k * 16 + b), 16),
    );
    assert forall|a: int| 0 <= a < 16 implies #[trigger] p(a) == q(a) by {
        let (u, v) = (|b: int| g(a * 16 + b), |b: int| f(r * 16 + a, k * 16 + b));
        assert forall|b: int| 0 <= b < 16 implies #[trigger] u(b) == v(b) by {
            assert((a * 16 + b) / 16 == a && (a * 16 + b) % 16 == b);
        }
        lemma_rsum_eq(u, v, 16);
    }
    lemma_rsum_eq(p, q, 16);
}

/// The sums of a row of tiles add up to the sum of sixteen rows.
proof fn lemma_tile_line(f: spec_fn(int, int) -> real, across: int, r: int)
    requires
        0 <= across,
    ensures
        rsum(|k: int| rsum(|i: int| f(r * 16 + i / 16, k * 16 + i % 16), 256), across) == rsum(
            |a: int| rsum(plane_row(f, r * 16 + a), across * 16),
            16,
        ),
{
    let tiles = |k: int| rsum(|i: int| f(r * 16 + i / 16, k * 16 + i % 16), 256);
    let part = |k: int, a: int| rsum(|b: int| f(r * 16 + a, k * 16 + b), 16);
    let by_tile = |k: int| rsum(|a: int| part(k, a), 16);
    assert forall|k: int| 0 <= k < across implies #[trigger] tiles(k) == by_tile(k) by {
        lemma_tile_rows(f, r, k);
        lemma_rsum_eq(
            |a: int| rsum(|b: int| f(r * 16 + a, k * 16 + b), 16),
            |a: int| part(k, a),
            16,
        );
    }
    lemma_rsum_eq(tiles, by_tile, across);
    lemma_rsum_swap(part, across, 16);
    let (by_row, rows) = (
        |a: int| rsum(|k: int| part(k, a), across),
        |a: int| rsum(plane_row(f, r * 16 + a), across * 16),
    );
    assert forall|a: int| 0 <= a < 16 implies #[trigger] by_row(a) == rows(a) by {
        let row = plane_row(f, r * 16 + a);
        lemma_rsum_rows(row, across, 16);
        let (u, v) = (|k: int| part(k, a), |k: int| rsum(|b: int| row(k * 16 + b), 16));
        assert forall|k: int| 0 <= k < across implies #[trigger] u(k) == v(k) by {
            lemma_rsum_eq(
                |b: int| f(r * 16 + a, k * 16 + b),
                |b: int| row(k * 16 + b),
                16,
            );
        }
        lemma_rsum_eq(u, v, across);
    }
    lemma_rsum_eq(by_row, rows, 16);
}

/// The sums of the tiles of a plane add up to the sum of the plane.
pub(crate) proof fn lemma_tiles(
    f: spec_fn(int, int) -> real,
    down: int,
    across: int,
    h: int,
    w: int,
)
    requires
        0 <= h <= down * 16,
        0 <= w <= across * 16,
        plane_within(f, h, w),
    ensures
        rsum(
            |t: int| rsum(|i: int| f((t / across) * 16 + i / 16, (t % across) * 16 + i % 16), 256),
            down * across,
        ) == rsum2(f, h, w),
{
    let tile = |t: int|
        rsum(|i: int| f((t / across) * 16 + i / 16, (t % across) * 16 + i % 16), 256);
    let row = |y: int| rsum(plane_row(f, y), across * 16);
    lemma_rsum_rows(tile, down, across);
    let (lines, sixteen) = (
        |r: int| rsum(|k: int| tile(r * across + k), across),
        |r: int| rsum(|a: int| row(r * 16 + a), 16),
    );
    assert forall|r: int| 0 <= r < down implies #[trigger] lines(r) == sixteen(r) by {
        let (u, v) = (
            |k: int| tile(r * across + k),
            |k: int| rsum(|i: int| f(r * 16 + i / 16, k * 16 + i % 16), 256),
        );
        assert forall|k: int| 0 <= k < across implies #[trigger] u(k) == v(k) by {
            vstd::arithmetic::div_mod::lemma_fundamental_div_mod_converse(
                r * across + k,
                across,
                r,
                k,
            );
            lemma_rsum_eq(
                |i: int|
                    f(
                        ((r * across + k) / across) * 16 + i / 16,
                        ((r * across + k) % across) * 16 + i % 16,
                    ),
                |i: int| f(r * 16 + i / 16, k * 16 + i % 16),
                256,
            );
        }
        lemma_rsum_eq(u, v, across);
        lemma_tile_line(f, across, r);
        lemma_rsum_eq(
            |a: int| rsum(plane_row(f, r * 16 + a), across * 16),
            |a: int| row(r * 16 + a),
            16,
        );
    }
    lemma_rsum_eq(lines, sixteen, down);
    lemma_rsum_rows(row, down, 16);
    // Beyond the image there is nothing.
    assert forall|y: int| h <= y < down * 16 implies #[trigger] row(y) == 0 as real by {
        let line = plane_row(f, y);
        assert forall|x: int| 0 <= x < across * 16 implies #[trigger] line(x) == 0 as real by {
            assert(f(y, x) == 0 as real);
        }
        lemma_rsum_tail(line, 0, across * 16);
    }
    lemma_rsum_tail(row, h, down * 16);
    let short = |y: int| rsum(plane_row(f, y), w);
    assert forall|y: int| 0 <= y < h implies #[trigger] row(y) == short(y) by {
        let line = plane_row(f, y);
        assert forall|x: int| w <= x < across * 16 implies #[trigger] line(x) == 0 as real by {
            assert(f(y, x) == 0 as real);
        }
        lemma_rsum_tail(line, w, across * 16);
    }
    lemma_rsum_eq(row, short, h);
}

/// A sum of which only one value is not zero.
proof fn lemma_rsum_single(f: spec_fn(int) -> real, at: int, n: int)
    requires
        0 <= at < n,
        forall|i: int| 0 <= i < n && i != at ==> #[trigger] f(i) == 0 as real,
    ensures
        rsum(f, n) == f(at),
    decreases n,
{
    if at == n - 1 {
        lemma_rsum_tail(f, 0, n - 1);
    } else {
        lemma_rsum_single(f, at, n - 1);
        assert(f(n - 1) == 0 as real);
    }
}

/// A plane of which only one value is not zero.
pub(crate) proof fn lemma_rsum2_single(
    f: spec_fn(int, int) -> real,
    y0: int,
    x0: int,
    h: int,
    w: int,
)
    requires
        0 <= y0 < h,
        0 <= x0 < w,
        forall|y: int, x: int|
            0 <= y < h && 0 <= x < w && !(y == y0 && x == x0) ==> #[trigger] f(y, x) == 0 as real,
    ensures
        rsum2(f, h, w) == f(y0, x0),
{
    let rows = |y: int| rsum(plane_row(f, y), w);
    assert forall|y: int| 0 <= y < h && y != y0 implies #[trigger] rows(y) == 0 as real by {
        let row = plane_row(f, y);
        assert forall|x: int| 0 <= x < w implies #[trigger] row(x) == 0 as real by {
            assert(f(y, x) == 0 as real);
        }
        lemma_rsum_tail(row, 0, w);
    }
    lemma_rsum_single(rows, y0, h);
    let row = plane_row(f, y0);
    assert forall|x: int| 0 <= x < w && x != x0 implies #[trigger] row(x) == 0 as real by {
        assert(f(y0, x) == 0 as real);
    }
    lemma_rsum_single(row, x0, w);
}

} // verus!
