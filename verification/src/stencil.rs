//! The separable eleven-tap blur of the image kernels, over flat buffers that
//! hold a rectangle of cells with a few lanes each.
use vstd::prelude::*;

use crate::scalar;
use crate::scalar::{
    eval_exp, eval_from_count, eval_literal, eval_minus, eval_negated, eval_over, eval_plus,
    eval_times, eval_zero, Scalar,
};

verus! {

/// Pixels that the blur reaches on either side.
pub const HALO: u32 = 5;

/// The bell curve with a deviation of one and a half, at distance `5 - i` from its
/// centre.
pub open spec fn bell<S: Scalar>(i: int) -> S {
    let sigma = scalar::literal("1.5");
    let x = scalar::difference(scalar::from_count(i as u32), scalar::literal("5.0"));
    scalar::exponential(
        scalar::quotient(
            scalar::product(scalar::negation(x), x),
            scalar::product(scalar::product(scalar::literal("2.0"), sigma), sigma),
        ),
    )
}

/// The sum of the first `n` values of the bell curve.
pub open spec fn bell_sum<S: Scalar>(n: int) -> S
    decreases n,
{
    if n <= 0 {
        scalar::zero()
    } else {
        scalar::sum(bell_sum(n - 1), bell(n - 1))
    }
}

/// The weight of the blur tap at distance `5 - i` from the centre: eleven values
/// of the bell curve, divided by their sum.
#[verifier::opaque]
pub open spec fn tap<S: Scalar>(i: int) -> S {
    scalar::quotient(bell(i), bell_sum(11))
}

/// The eleven weights of the blur.
pub open spec fn are_taps<S: Scalar>(taps: Seq<S>) -> bool {
    &&& taps.len() == 11
    &&& scalar::deterministic::<S>() ==> forall|i: int|
        0 <= i < 11 ==> #[trigger] taps[i] == tap::<S>(i)
}

fn eval_bell<S: Scalar>(i: u32) -> (r: S)
    ensures
        scalar::deterministic::<S>() ==> r == bell::<S>(i as int),
{
    let sigma: S = eval_literal("1.5");
    let x: S = eval_minus(eval_from_count(i), eval_literal("5.0"));
    eval_exp(
        eval_over(
            eval_times(eval_negated(x), x),
            eval_times(eval_times(eval_literal("2.0"), sigma), sigma),
        ),
    )
}

/// The weights of the blur.
pub fn gauss_taps<S: Scalar>() -> (taps: Vec<S>)
    ensures
        are_taps(taps@),
{
    let mut bells: Vec<S> = Vec::new();
    let mut total: S = eval_zero();
    let mut i: u32 = 0;
    while i < 11
        invariant
            i <= 11,
            bells.len() == i,
            scalar::deterministic::<S>() ==> total == bell_sum::<S>(i as int),
            scalar::deterministic::<S>() ==> forall|k: int|
                0 <= k < i ==> #[trigger] bells[k] == bell::<S>(k),
        decreases 11 - i,
    {
        let value: S = eval_bell(i);
        bells.push(value);
        total = eval_plus(total, value);
        i = i + 1;
    }
    let mut taps: Vec<S> = Vec::new();
    let mut k: usize = 0;
    while k < 11
        invariant
            k <= 11,
            bells.len() == 11,
            taps.len() == k,
            scalar::deterministic::<S>() ==> total == bell_sum::<S>(11),
            scalar::deterministic::<S>() ==> forall|j: int|
                0 <= j < 11 ==> #[trigger] bells[j] == bell::<S>(j),
            scalar::deterministic::<S>() ==> forall|j: int|
                0 <= j < k ==> #[trigger] taps[j] == tap::<S>(j),
        decreases 11 - k,
    {
        proof {
            reveal(tap);
        }
        taps.push(eval_over(bells[k], total));
        k = k + 1;
    }
    taps
}

/// The first `d` symmetric pairs of taps around `at`.
pub open spec fn blur_pairs<S: Scalar>(f: spec_fn(int) -> S, at: int, d: int) -> S
    decreases d,
{
    if d <= 0 {
        scalar::zero()
    } else {
        scalar::sum(
            blur_pairs(f, at, d - 1),
            scalar::product(scalar::sum(f(at - d), f(at + d)), tap(5 - d)),
        )
    }
}

/// The blur of `f` at `at`: five symmetric pairs, nearest first, then the
/// centre.
pub open spec fn blur<S: Scalar>(f: spec_fn(int) -> S, at: int) -> S {
    scalar::sum(blur_pairs(f, at, 5), scalar::product(f(at), tap(5)))
}

pub open spec fn shifted(a: int, t: int) -> int {
    a + t
}

/// Two functions agree on the reach of the blur.
pub open spec fn agree<S: Scalar>(f: spec_fn(int) -> S, a: int, g: spec_fn(int) -> S, b: int) -> bool {
    forall|t: int| -5 <= t <= 5 ==> f(#[trigger] shifted(a, t)) == g(shifted(b, t))
}

pub(crate) proof fn lemma_blur_agrees<S: Scalar>(
    f: spec_fn(int) -> S,
    a: int,
    g: spec_fn(int) -> S,
    b: int,
)
    requires
        agree(f, a, g, b),
    ensures
        blur(f, a) == blur(g, b),
{
    lemma_pairs_agree(f, a, g, b, 5);
    assert(shifted(a, 0) == a);
    assert(shifted(b, 0) == b);
}

proof fn lemma_pairs_agree<S: Scalar>(
    f: spec_fn(int) -> S,
    a: int,
    g: spec_fn(int) -> S,
    b: int,
    d: int,
)
    requires
        agree(f, a, g, b),
        0 <= d <= 5,
    ensures
        blur_pairs(f, a, d) == blur_pairs(g, b, d),
    decreases d,
{
    if d > 0 {
        lemma_pairs_agree(f, a, g, b, d - 1);
        assert(shifted(a, -d) == a - d && shifted(b, -d) == b - d);
        assert(shifted(a, d) == a + d && shifted(b, d) == b + d);
    }
}

/// The five products of a pair of samples that the statistics are made of.
pub open spec fn moment<S: Scalar>(k: int, p: S, g: S) -> S {
    if k == 0 {
        p
    } else if k == 1 {
        scalar::product(p, p)
    } else if k == 2 {
        g
    } else if k == 3 {
        scalar::product(g, g)
    } else {
        scalar::product(p, g)
    }
}

pub(crate) fn moment_of<S: Scalar>(k: u32, p: S, g: S) -> (r: S)
    ensures
        scalar::deterministic::<S>() ==> r == moment(k as int, p, g),
{
    if k == 0 {
        p
    } else if k == 1 {
        eval_times(p, p)
    } else if k == 2 {
        g
    } else if k == 3 {
        eval_times(g, g)
    } else {
        eval_times(p, g)
    }
}

/// How a buffer's lanes are read at an index.
#[derive(Clone, Copy)]
pub enum Lane {
    /// The value itself.
    Plain,
    /// A moment of the pair of values that starts there.
    Moment(u32),
}

pub open spec fn reading<S: Scalar>(buf: Seq<S>, i: int, lane: Lane) -> S {
    match lane {
        Lane::Plain => buf[i],
        Lane::Moment(k) => moment(k as int, buf[i], buf[i + 1]),
    }
}

/// The samples of a buffer that lie `stride` apart around an index.
pub open spec fn strided<S: Scalar>(buf: Seq<S>, center: int, stride: int, lane: Lane) -> spec_fn(
    int,
) -> S {
    |t: int| reading(buf, center + t * stride, lane)
}

fn read<S: Scalar>(buf: &Vec<S>, i: usize, lane: Lane) -> (r: S)
    requires
        i + 1 < buf.len() || (lane is Plain && i < buf.len()),
    ensures
        scalar::deterministic::<S>() ==> r == reading(buf@, i as int, lane),
{
    match lane {
        Lane::Plain => buf[i],
        Lane::Moment(k) => moment_of(k, buf[i], buf[i + 1]),
    }
}

/// Blurs a buffer along a stride.
pub(crate) fn blur_buffer<S: Scalar>(
    taps: &Vec<S>,
    buf: &Vec<S>,
    center: usize,
    stride: usize,
    lane: Lane,
) -> (r: S)
    requires
        are_taps(taps@),
        5 * stride <= center,
        center + 5 * stride + (if lane is Plain {
            0int
        } else {
            1
        }) < buf.len(),
    ensures
        scalar::deterministic::<S>() ==> r == blur(
            strided(buf@, center as int, stride as int, lane),
            0,
        ),
{
    let ghost f = strided(buf@, center as int, stride as int, lane);
    let mut acc: S = eval_zero();
    let mut d: usize = 1;
    while d < 6
        invariant
            1 <= d <= 6,
            are_taps(taps@),
            5 * stride <= center,
            center + 5 * stride + (if lane is Plain {
                0int
            } else {
                1
            }) < buf.len(),
            f == strided(buf@, center as int, stride as int, lane),
            scalar::deterministic::<S>() ==> acc == blur_pairs(f, 0, d - 1),
        decreases 6 - d,
    {
        proof {
            assert(0 <= d * stride <= 5 * stride) by (nonlinear_arith)
                requires
                    1 <= d <= 5,
            ;
            assert(-(d as int) * stride == -(d * stride)) by (nonlinear_arith);
        }
        let reach: usize = d * stride;
        let left: S = read(buf, center - reach, lane);
        let right: S = read(buf, center + reach, lane);
        acc = eval_plus(acc, eval_times(eval_plus(left, right), taps[5 - d]));
        d = d + 1;
    }
    eval_plus(acc, eval_times(read(buf, center, lane), taps[5]))
}

/// The index of a lane of a cell.
pub open spec fn slot(y: int, side: int, x: int, lanes: int, lane: int) -> int {
    (y * side + x) * lanes + lane
}

/// The index of a lane of the `t`th cell.
pub open spec fn nth_slot(t: int, lanes: int, lane: int) -> int {
    t * lanes + lane
}

/// The first `count` cells of rows of length `side` hold what `value` says.
pub open spec fn filled<S>(
    buf: Seq<S>,
    side: int,
    lanes: int,
    count: int,
    value: spec_fn(int, int, int) -> S,
) -> bool {
    forall|t: int, k: int|
        0 <= t < count && 0 <= k < lanes ==> buf[#[trigger] nth_slot(t, lanes, k)] == value(
            t / side,
            t % side,
            k,
        )
}

/// A rectangle of cells holds what `value` says.
pub open spec fn holds<S>(
    buf: Seq<S>,
    rows: int,
    side: int,
    lanes: int,
    value: spec_fn(int, int, int) -> S,
) -> bool {
    forall|y: int, x: int, k: int|
        0 <= y < rows && 0 <= x < side && 0 <= k < lanes ==> buf[#[trigger] slot(
            y,
            side,
            x,
            lanes,
            k,
        )] == value(y, x, k)
}

pub(crate) proof fn lemma_filled_holds<S>(
    buf: Seq<S>,
    rows: int,
    side: int,
    lanes: int,
    value: spec_fn(int, int, int) -> S,
)
    requires
        0 < side,
        0 <= rows,
        filled(buf, side, lanes, rows * side, value),
    ensures
        holds(buf, rows, side, lanes, value),
{
    assert forall|y: int, x: int, k: int|
        0 <= y < rows && 0 <= x < side && 0 <= k < lanes implies buf[#[trigger] slot(
        y,
        side,
        x,
        lanes,
        k,
    )] == value(y, x, k) by {
        let t = y * side + x;
        assert(t / side == y && t % side == x && 0 <= t < rows * side) by (nonlinear_arith)
            requires
                t == y * side + x,
                0 <= y < rows,
                0 <= x < side,
        ;
        assert(slot(y, side, x, lanes, k) == nth_slot(t, lanes, k));
    }
}

pub(crate) proof fn lemma_slot_in_bounds(y: int, rows: int, side: int, x: int, lanes: int, k: int)
    requires
        0 <= y < rows,
        0 <= x < side,
        0 <= k < lanes,
    ensures
        0 <= slot(y, side, x, lanes, k) < rows * side * lanes,
        0 <= y * side + x < rows * side,
{
    assert(0 <= y * side + x < rows * side) by (nonlinear_arith)
        requires
            0 <= y < rows,
            0 <= x < side,
    ;
    let t = y * side + x;
    let n = rows * side;
    assert(0 <= t * lanes + k < n * lanes) by (nonlinear_arith)
        requires
            0 <= t < n,
            0 <= k < lanes,
    ;
}

} // verus!
