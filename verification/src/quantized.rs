//! Quantized splats: values in the unit interval, spread between bounds.
use vstd::prelude::*;

use crate::exact;
use crate::num::{deterministic, Geometric, Num, Vec3};

verus! {

pub open spec fn spec_spread<S: Geometric>(raw: Vec3<S>, min: Vec3<S>, max: Vec3<S>) -> Vec3<S> {
    Vec3 {
        x: raw.x * (max.x - min.x) + min.x,
        y: raw.y * (max.y - min.y) + min.y,
        z: raw.z * (max.z - min.z) + min.z,
    }
}

/// Values in the unit interval, spread between two bounds.
#[verifier::when_used_as_spec(spec_spread)]
pub fn spread<S: Geometric>(raw: Vec3<S>, min: Vec3<S>, max: Vec3<S>) -> (out: Vec3<S>)
    ensures
        deterministic::<S>() ==> out == spread(raw, min, max),
{
    Vec3 {
        x: raw.x * (max.x - min.x) + min.x,
        y: raw.y * (max.y - min.y) + min.y,
        z: raw.z * (max.z - min.z) + min.z,
    }
}

/// The bounds of a run of quantized splats.
#[derive(Clone, Copy, Debug)]
pub struct QuantMeta<S> {
    pub min: Vec3<S>,
    pub max: Vec3<S>,
    pub min_scale: Vec3<S>,
    pub max_scale: Vec3<S>,
    pub min_color: Vec3<S>,
    pub max_color: Vec3<S>,
}

impl<S: Geometric> QuantMeta<S> {
    /// The position of a quantized one.
    pub open spec fn mean_of(self, raw: Vec3<S>) -> Vec3<S> {
        spread(raw, self.min, self.max)
    }

    /// The position of a quantized one.
    pub fn mean(&self, raw: Vec3<S>) -> (r: Vec3<S>)
        ensures
            deterministic::<S>() ==> r == self.mean_of(raw),
    {
        spread(raw, self.min, self.max)
    }

    /// The logarithms of scales of quantized ones.
    pub open spec fn scale_of(self, raw: Vec3<S>) -> Vec3<S> {
        spread(raw, self.min_scale, self.max_scale)
    }

    /// The logarithms of scales of quantized ones.
    pub fn scale(&self, raw: Vec3<S>) -> (r: Vec3<S>)
        ensures
            deterministic::<S>() ==> r == self.scale_of(raw),
    {
        spread(raw, self.min_scale, self.max_scale)
    }

    /// The color of a quantized one.
    pub open spec fn color_of(self, raw: Vec3<S>) -> Vec3<S> {
        spread(raw, self.min_color, self.max_color)
    }

    /// The color of a quantized one.
    pub fn color(&self, raw: Vec3<S>) -> (r: Vec3<S>)
        ensures
            deterministic::<S>() ==> r == self.color_of(raw),
    {
        spread(raw, self.min_color, self.max_color)
    }
}

/// `out` divides the way from `low` to `high` as `raw` divides the unit interval:
/// zero is at `low`, one at `high`, and equal steps are equally long.
pub open spec fn divides<S: Geometric>(
    value: spec_fn(S) -> real,
    raw: Num<S>,
    low: Num<S>,
    high: Num<S>,
    out: Num<S>,
) -> bool {
    let (r, a, b) = (exact::of(value, raw), exact::of(value, low), exact::of(value, high));
    &&& exact::of(value, out) == ((1 as real) - r) * a + r * b
    &&& r == 0 as real ==> exact::of(value, out) == a
    &&& r == 1 as real ==> exact::of(value, out) == b
    &&& a <= b && 0 as real <= r <= 1 as real ==> a <= exact::of(value, out) <= b
}

proof fn lemma_divides<S: Geometric>(
    value: spec_fn(S) -> real,
    raw: Num<S>,
    low: Num<S>,
    high: Num<S>,
)
    requires
        exact::is_exact(value),
    ensures
        divides(value, raw, low, high, raw * (high - low) + low),
{
    let (r, a, b) = (exact::of(value, raw), exact::of(value, low), exact::of(value, high));
    let one = 1 as real;
    exact::lemma_in_front(r, b, a);
    exact::lemma_factor_difference(one, r, a);
    assert(one * a == a);
    if r == 0 as real {
        exact::lemma_times_zero(r, b - a);
    }
    if r == one {
        assert(one * (b - a) == b - a);
    }
    if a <= b && 0 as real <= r <= one {
        lemma_part(r, b - a);
    }
}

proof fn lemma_part(r: real, w: real)
    by (nonlinear_arith)
    requires
        0 as real <= r <= 1 as real,
        0 as real <= w,
    ensures
        0 as real <= r * w <= w,
{
}

/// Each axis of a quantized position, scale or color is spread between its own
/// bounds, and by nothing else.
pub proof fn axes_are_spread_between_their_bounds<S: Geometric>(
    value: spec_fn(S) -> real,
    m: QuantMeta<S>,
    raw: Vec3<S>,
)
    requires
        exact::is_exact(value),
    ensures
        divides(value, raw.x, m.min.x, m.max.x, m.mean_of(raw).x),
        divides(value, raw.y, m.min.y, m.max.y, m.mean_of(raw).y),
        divides(value, raw.z, m.min.z, m.max.z, m.mean_of(raw).z),
        divides(value, raw.x, m.min_scale.x, m.max_scale.x, m.scale_of(raw).x),
        divides(value, raw.y, m.min_scale.y, m.max_scale.y, m.scale_of(raw).y),
        divides(value, raw.z, m.min_scale.z, m.max_scale.z, m.scale_of(raw).z),
        divides(value, raw.x, m.min_color.x, m.max_color.x, m.color_of(raw).x),
        divides(value, raw.y, m.min_color.y, m.max_color.y, m.color_of(raw).y),
        divides(value, raw.z, m.min_color.z, m.max_color.z, m.color_of(raw).z),
{
    lemma_divides(value, raw.x, m.min.x, m.max.x);
    lemma_divides(value, raw.y, m.min.y, m.max.y);
    lemma_divides(value, raw.z, m.min.z, m.max.z);
    lemma_divides(value, raw.x, m.min_scale.x, m.max_scale.x);
    lemma_divides(value, raw.y, m.min_scale.y, m.max_scale.y);
    lemma_divides(value, raw.z, m.min_scale.z, m.max_scale.z);
    lemma_divides(value, raw.x, m.min_color.x, m.max_color.x);
    lemma_divides(value, raw.y, m.min_color.y, m.max_color.y);
    lemma_divides(value, raw.z, m.min_color.z, m.max_color.z);
}

} // verus!
