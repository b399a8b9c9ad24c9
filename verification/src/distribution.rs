//! How the shapes and opacities of splats are distributed, and what of splats is
//! drawn. Stored values come as bit patterns; ratios, logarithms and colors are
//! computed in a scalar type.
use vstd::prelude::*;

use crate::counting;
use crate::float_bits;
use crate::num;
use crate::num::{lit, Geometric, Num};
use crate::visualize;
use crate::visualize::{count_above, count_under, ordered_scales, percentiles, Percentiles};

verus! {

/// The operations that the statistics use beside those of the formulas.
pub trait Recorded: Geometric {
    /// The number that a bit pattern stores.
    fn of_bits(bits: u32) -> Self;

    /// The bit pattern that stores the number.
    fn bits(self) -> u32;

    /// The logarithm to base ten.
    fn log_ten(self) -> Self;

    /// The number without its fraction, zero for what is below zero or not a
    /// number.
    fn truncated(self) -> u64;
}

/// Every operation's result is a function of its arguments.
pub open spec fn deterministic<S: Recorded>() -> bool {
    &&& num::deterministic::<S>()
    &&& forall|b: u32, r: S, q: S|
        #[trigger] call_ensures(S::of_bits, (b,), r) && #[trigger] call_ensures(
            S::of_bits,
            (b,),
            q,
        ) ==> r == q
    &&& forall|a: S, r: u32, q: u32|
        #[trigger] call_ensures(S::bits, (a,), r) && #[trigger] call_ensures(
            S::bits,
            (a,),
            q,
        ) ==> r == q
    &&& forall|a: S, r: S, q: S|
        #[trigger] call_ensures(S::log_ten, (a,), r) && #[trigger] call_ensures(
            S::log_ten,
            (a,),
            q,
        ) ==> r == q
    &&& forall|a: S, r: u64, q: u64|
        #[trigger] call_ensures(S::truncated, (a,), r) && #[trigger] call_ensures(
            S::truncated,
            (a,),
            q,
        ) ==> r == q
}

pub open spec fn spec_stored<S: Recorded>(bits: u32) -> Num<S> {
    Num { value: choose|r: S| call_ensures(S::of_bits, (bits,), r) }
}

/// The number that a bit pattern stores.
#[verifier::when_used_as_spec(spec_stored)]
pub fn stored<S: Recorded>(bits: u32) -> (r: Num<S>)
    ensures
        deterministic::<S>() ==> r == stored::<S>(bits),
{
    Num { value: S::of_bits(bits) }
}

pub open spec fn spec_bits_of<S: Recorded>(n: Num<S>) -> u32 {
    choose|r: u32| call_ensures(S::bits, (n.value,), r)
}

/// The bit pattern that stores a number.
#[verifier::when_used_as_spec(spec_bits_of)]
pub fn bits_of<S: Recorded>(n: Num<S>) -> (r: u32)
    ensures
        deterministic::<S>() ==> r == bits_of(n),
{
    n.value.bits()
}

pub open spec fn spec_log_ten<S: Recorded>(n: Num<S>) -> Num<S> {
    Num { value: choose|r: S| call_ensures(S::log_ten, (n.value,), r) }
}

/// The logarithm to base ten.
#[verifier::when_used_as_spec(spec_log_ten)]
pub fn log_ten<S: Recorded>(n: Num<S>) -> (r: Num<S>)
    ensures
        deterministic::<S>() ==> r == log_ten(n),
{
    Num { value: n.value.log_ten() }
}

/// What `Recorded::truncated` returns.
pub open spec fn truncation<S: Recorded>(n: Num<S>) -> u64 {
    choose|r: u64| call_ensures(S::truncated, (n.value,), r)
}

/// The byte of a number without its fraction.
pub open spec fn byte_of<S: Recorded>(n: Num<S>) -> u8 {
    let t = truncation(n);
    if t > 255 {
        255
    } else {
        t as u8
    }
}

fn to_byte<S: Recorded>(n: Num<S>) -> (r: u8)
    ensures
        deterministic::<S>() ==> r == byte_of(n),
{
    let t: u64 = n.value.truncated();
    if t > 255 {
        255
    } else {
        t as u8
    }
}

/// Shapes of splats, one value for each. `spindle` is the largest scale over the
/// middle one, `flatness` the middle one over the smallest.
pub struct Shapes {
    pub max_log: Vec<u32>,
    pub min_log: Vec<u32>,
    pub spindle: Vec<u32>,
    pub flatness: Vec<u32>,
}

/// The scales of splat `i` in order.
pub open spec fn scales_at(scales: Seq<u32>, i: int) -> (u32, u32, u32) {
    visualize::scale_order(scales[3 * i], scales[3 * i + 1], scales[3 * i + 2])
}

/// Logarithms of the largest scales of the first `n` splats.
pub open spec fn max_logs<S: Recorded>(scales: Seq<u32>, n: int) -> Seq<u32> {
    Seq::new(n as nat, |i: int| bits_of(log_ten(stored::<S>(scales_at(scales, i).2))))
}

/// Logarithms of the smallest scales of the first `n` splats.
pub open spec fn min_logs<S: Recorded>(scales: Seq<u32>, n: int) -> Seq<u32> {
    Seq::new(n as nat, |i: int| bits_of(log_ten(stored::<S>(scales_at(scales, i).0))))
}

/// How much the first `n` splats are like needles.
pub open spec fn spindles<S: Recorded>(scales: Seq<u32>, n: int) -> Seq<u32> {
    Seq::new(
        n as nat,
        |i: int|
            bits_of(stored::<S>(scales_at(scales, i).2) / stored::<S>(scales_at(scales, i).1)),
    )
}

/// How flat the first `n` splats are.
pub open spec fn flatnesses<S: Recorded>(scales: Seq<u32>, n: int) -> Seq<u32> {
    Seq::new(
        n as nat,
        |i: int|
            bits_of(stored::<S>(scales_at(scales, i).1) / stored::<S>(scales_at(scales, i).0)),
    )
}

/// The shapes of splats, from rows of three scales.
pub fn splat_shapes<S: Recorded>(scales: &Vec<u32>) -> (shapes: Shapes)
    requires
        scales.len() % 3 == 0,
    ensures
        shapes.max_log.len() == scales.len() / 3,
        shapes.min_log.len() == scales.len() / 3,
        shapes.spindle.len() == scales.len() / 3,
        shapes.flatness.len() == scales.len() / 3,
        deterministic::<S>() ==> {
            &&& shapes.max_log@ == max_logs::<S>(scales@, scales.len() as int / 3)
            &&& shapes.min_log@ == min_logs::<S>(scales@, scales.len() as int / 3)
            &&& shapes.spindle@ == spindles::<S>(scales@, scales.len() as int / 3)
            &&& shapes.flatness@ == flatnesses::<S>(scales@, scales.len() as int / 3)
        },
{
    let n: usize = scales.len() / 3;
    let mut max_log: Vec<u32> = Vec::new();
    let mut min_log: Vec<u32> = Vec::new();
    let mut spindle: Vec<u32> = Vec::new();
    let mut flatness: Vec<u32> = Vec::new();
    let mut i: usize = 0;
    while i < n
        invariant
            i <= n,
            3 * n == scales.len(),
            max_log.len() == i,
            min_log.len() == i,
            spindle.len() == i,
            flatness.len() == i,
            deterministic::<S>() ==> {
                &&& max_log@ =~= max_logs::<S>(scales@, i as int)
                &&& min_log@ =~= min_logs::<S>(scales@, i as int)
                &&& spindle@ =~= spindles::<S>(scales@, i as int)
                &&& flatness@ =~= flatnesses::<S>(scales@, i as int)
            },
        decreases n - i,
    {
        let (small, middle, large): (u32, u32, u32) = ordered_scales(
            scales[3 * i],
            scales[3 * i + 1],
            scales[3 * i + 2],
        );
        max_log.push(bits_of(log_ten(stored::<S>(large))));
        min_log.push(bits_of(log_ten(stored::<S>(small))));
        spindle.push(bits_of(stored::<S>(large) / stored::<S>(middle)));
        flatness.push(bits_of(stored::<S>(middle) / stored::<S>(small)));
        i = i + 1;
    }
    Shapes { max_log, min_log, spindle, flatness }
}

/// Bit patterns of the thresholds that splats are counted by.
pub const THREE_BITS: u32 = 0x4040_0000;

pub const FIVE_BITS: u32 = 0x40a0_0000;

pub const TEN_BITS: u32 = 0x4120_0000;

pub const TWENTIETH_BITS: u32 = 0x3d4c_cccd;

pub const FIFTH_BITS: u32 = 0x3e4c_cccd;

/// Distributions over splats.
pub struct SplatDistribution {
    /// The number of splats.
    pub total: u32,
    pub scale_max_log10: Percentiles,
    pub scale_min_log10: Percentiles,
    pub opacity: Percentiles,
    pub spindle: Percentiles,
    pub flatness: Percentiles,
    /// Splats whose spindle factor is above three, five and ten.
    pub spindle_gt_3: u32,
    pub spindle_gt_5: u32,
    pub spindle_gt_10: u32,
    /// Splats whose opacity is under a twentieth and a fifth.
    pub opac_lt_05: u32,
    pub opac_lt_20: u32,
}

/// The number of values above a threshold.
pub open spec fn number_above(values: Seq<u32>, threshold: u32) -> int {
    counting::count_where(visualize::above(values, threshold), 0, values.len() as int)
}

/// The number of values below a threshold.
pub open spec fn number_below(values: Seq<u32>, threshold: u32) -> int {
    counting::count_where(visualize::below(values, threshold), 0, values.len() as int)
}

/// The distributions over splats with these scales and opacities.
pub open spec fn is_distribution<S: Recorded>(
    d: SplatDistribution,
    scales: Seq<u32>,
    opacities: Seq<u32>,
) -> bool {
    let n = opacities.len() as int;
    let spindle = spindles::<S>(scales, n);
    &&& d.total == n
    &&& d.scale_max_log10 == visualize::percentiles_of::<S>(max_logs::<S>(scales, n))
    &&& d.scale_min_log10 == visualize::percentiles_of::<S>(min_logs::<S>(scales, n))
    &&& d.opacity == visualize::percentiles_of::<S>(opacities)
    &&& d.spindle == visualize::percentiles_of::<S>(spindle)
    &&& d.flatness == visualize::percentiles_of::<S>(flatnesses::<S>(scales, n))
    &&& d.spindle_gt_3 == number_above(spindle, THREE_BITS)
    &&& d.spindle_gt_5 == number_above(spindle, FIVE_BITS)
    &&& d.spindle_gt_10 == number_above(spindle, TEN_BITS)
    &&& d.opac_lt_05 == number_below(opacities, TWENTIETH_BITS)
    &&& d.opac_lt_20 == number_below(opacities, FIFTH_BITS)
}

fn number_over(values: &Vec<u32>, threshold: u32) -> (n: u32)
    requires
        values.len() <= u32::MAX,
    ensures
        n == number_above(values@, threshold),
{
    let n: usize = count_above(values, threshold);
    proof {
        counting::lemma_count_bounds(
            visualize::above(values@, threshold),
            0,
            values.len() as int,
        );
    }
    n as u32
}

fn number_under(values: &Vec<u32>, threshold: u32) -> (n: u32)
    requires
        values.len() <= u32::MAX,
    ensures
        n == number_below(values@, threshold),
{
    let n: usize = count_under(values, threshold);
    proof {
        counting::lemma_count_bounds(
            visualize::below(values@, threshold),
            0,
            values.len() as int,
        );
    }
    n as u32
}

/// The distributions over splats, from rows of three scales and from opacities;
/// none where there are no splats.
pub fn splat_distribution<S: Recorded>(scales: &Vec<u32>, opacities: &Vec<u32>) -> (r: Option<
    SplatDistribution,
>)
    requires
        scales.len() == 3 * opacities.len(),
        opacities.len() <= u32::MAX,
    ensures
        match r {
            None => opacities.len() == 0,
            Some(d) => {
                &&& opacities.len() > 0
                &&& d.total == opacities.len()
                &&& d.opac_lt_05 == number_below(opacities@, TWENTIETH_BITS)
                &&& d.opac_lt_20 == number_below(opacities@, FIFTH_BITS)
                &&& deterministic::<S>() ==> is_distribution::<S>(d, scales@, opacities@)
            },
        },
{
    if opacities.len() == 0 {
        return None;
    }
    let shapes: Shapes = splat_shapes::<S>(scales);
    Some(
        SplatDistribution {
            total: opacities.len() as u32,
            scale_max_log10: percentiles::<S>(&shapes.max_log),
            scale_min_log10: percentiles::<S>(&shapes.min_log),
            opacity: percentiles::<S>(opacities),
            spindle: percentiles::<S>(&shapes.spindle),
            flatness: percentiles::<S>(&shapes.flatness),
            spindle_gt_3: number_over(&shapes.spindle, THREE_BITS),
            spindle_gt_5: number_over(&shapes.spindle, FIVE_BITS),
            spindle_gt_10: number_over(&shapes.spindle, TEN_BITS),
            opac_lt_05: number_under(opacities, TWENTIETH_BITS),
            opac_lt_20: number_under(opacities, FIFTH_BITS),
        },
    )
}

/// A higher threshold is passed by no more values than a lower one, and by no
/// more than there are.
pub proof fn higher_thresholds_count_fewer(values: Seq<u32>, low: u32, high: u32)
    requires
        float_bits::is_less(low, high),
    ensures
        number_above(values, high) <= number_above(values, low) <= values.len(),
        number_below(values, low) <= number_below(values, high) <= values.len(),
{
    let n = values.len() as int;
    lemma_fewer(visualize::above(values, high), visualize::above(values, low), n);
    lemma_fewer(visualize::below(values, low), visualize::below(values, high), n);
    counting::lemma_count_bounds(visualize::above(values, low), 0, n);
    counting::lemma_count_bounds(visualize::below(values, high), 0, n);
}

proof fn lemma_fewer(p: spec_fn(int) -> bool, q: spec_fn(int) -> bool, n: int)
    requires
        n >= 0,
        forall|i: int| #[trigger] p(i) ==> q(i),
    ensures
        counting::count_where(p, 0, n) <= counting::count_where(q, 0, n),
    decreases n,
{
    if n > 0 {
        lemma_fewer(p, q, n - 1);
    }
}

/// The byte of a color of a rendered image.
pub open spec fn render_byte<S: Recorded>(v: Num<S>) -> u8 {
    byte_of(v.held(num::zero(), lit("1.0")) * lit("255.0") + lit("0.5"))
}

/// The bytes of a rendered image.
pub fn render_bytes<S: Recorded>(values: &Vec<Num<S>>) -> (bytes: Vec<u8>)
    ensures
        bytes.len() == values.len(),
        deterministic::<S>() ==> forall|i: int|
            0 <= i < values.len() ==> #[trigger] bytes[i] == render_byte(values[i]),
{
    let mut bytes: Vec<u8> = Vec::new();
    let mut i: usize = 0;
    while i < values.len()
        invariant
            i <= values.len(),
            bytes.len() == i,
            deterministic::<S>() ==> forall|k: int|
                0 <= k < i ==> #[trigger] bytes[k] == render_byte(values[k]),
        decreases values.len() - i,
    {
        let v: Num<S> = values[i].held(num::zero(), lit("1.0")) * lit("255.0") + lit("0.5");
        bytes.push(to_byte(v));
        i = i + 1;
    }
    bytes
}

/// The byte of a base color that a splat is drawn in, from its coefficient.
pub open spec fn base_byte<S: Recorded>(coeff: Num<S>) -> u8 {
    byte_of((coeff * lit("0.2820948") + lit("0.5")) * lit("255.0"))
}

/// The byte of a base color that a splat is drawn in, from its coefficient.
pub fn base_color_byte<S: Recorded>(coeff: Num<S>) -> (r: u8)
    ensures
        deterministic::<S>() ==> r == base_byte(coeff),
{
    to_byte((coeff * lit("0.2820948") + lit("0.5")) * lit("255.0"))
}

pub open spec fn spec_drawn_radius<S: Geometric>(log_scale: Num<S>, opacity: Num<S>) -> Num<S> {
    log_scale.exp() * opacity * lit("2.0") + lit("0.004")
}

/// A half axis of the ellipsoid that a splat is drawn as: two deviations, faded
/// with the opacity, and a little more for the blur.
#[verifier::when_used_as_spec(spec_drawn_radius)]
pub fn drawn_radius<S: Geometric>(log_scale: Num<S>, opacity: Num<S>) -> (r: Num<S>)
    ensures
        num::deterministic::<S>() ==> r == drawn_radius(log_scale, opacity),
{
    log_scale.exp() * opacity * lit("2.0") + lit("0.004")
}

/// The thresholds are the nearest patterns to what they are called.
pub proof fn thresholds_are_what_they_are_called()
    ensures
        float_bits::is_nearest(THREE_BITS, 3, 1),
        float_bits::is_nearest(FIVE_BITS, 5, 1),
        float_bits::is_nearest(TEN_BITS, 10, 1),
        float_bits::is_nearest(TWENTIETH_BITS, 1, 20),
        float_bits::is_nearest(FIFTH_BITS, 1, 5),
{
    vstd::arithmetic::power2::lemma2_to64();
}

/// Fewer splats pass a higher bar: those counted by a threshold are among those
/// counted by the next wider one, and those among all.
pub proof fn counted_splats_are_nested<S: Recorded>(
    d: SplatDistribution,
    scales: Seq<u32>,
    opacities: Seq<u32>,
)
    requires
        is_distribution::<S>(d, scales, opacities),
    ensures
        d.spindle_gt_10 <= d.spindle_gt_5 <= d.spindle_gt_3 <= d.total,
        d.opac_lt_05 <= d.opac_lt_20 <= d.total,
{
    let n = opacities.len() as int;
    higher_thresholds_count_fewer(spindles::<S>(scales, n), THREE_BITS, FIVE_BITS);
    higher_thresholds_count_fewer(spindles::<S>(scales, n), FIVE_BITS, TEN_BITS);
    higher_thresholds_count_fewer(opacities, TWENTIETH_BITS, FIFTH_BITS);
}

/// What an operation of a deterministic scalar type returns is what the
/// statistics take it to return.
pub proof fn statistics_use_the_operations_of_the_type<S: Recorded>()
    requires
        deterministic::<S>(),
    ensures
        forall|n: u32, r: S| #[trigger] call_ensures(S::of_bits, (n,), r) ==> stored::<S>(n).value == r,
        forall|a: Num<S>, r: u32| #[trigger] call_ensures(S::bits, (a.value,), r) ==> bits_of(a) == r,
        forall|a: Num<S>, r: S| #[trigger] call_ensures(S::log_ten, (a.value,), r) ==> log_ten(a).value == r,
        forall|a: Num<S>, r: u64| #[trigger] call_ensures(S::truncated, (a.value,), r) ==> truncation(a) == r,
{
}

} // verus!
