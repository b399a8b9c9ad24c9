//! Slopes: how fast the values of a formula move when its inputs do, and the
//! rules by which sums, products and quotients carry them on.
use vstd::prelude::*;

use crate::exact;
use crate::num::{Geometric, Num};
use crate::scalar;

verus! {

/// `value` gives every scalar the number that it stands for, and `slope` the
/// speed at which that number moves. Operations compute without rounding, and
/// move as the rules of differentiation say. Constants stand still. Where an
/// operation has a kink, nothing is said of its slope.
pub open spec fn is_slope<S: Geometric>(
    value: spec_fn(S) -> real,
    slope: spec_fn(S) -> real,
) -> bool {
    &&& exact::is_exact(value)
    &&& forall|a: S, b: S| slope(#[trigger] scalar::sum(a, b)) == slope(a) + slope(b)
    &&& forall|a: S, b: S| slope(#[trigger] scalar::difference(a, b)) == slope(a) - slope(b)
    &&& forall|a: S, b: S|
        slope(#[trigger] scalar::product(a, b)) == slope(a) * value(b) + value(a) * slope(b)
    &&& forall|a: S, b: S|
        value(b) != 0 as real ==> slope(#[trigger] scalar::quotient(a, b)) == (slope(a) - (value(a)
            / value(b)) * slope(b)) / value(b)
    &&& forall|a: S, b: S|
        slope(a) == 0 as real && slope(b) == 0 as real ==> slope(
            #[trigger] scalar::quotient(a, b),
        ) == 0 as real
    &&& forall|a: S| slope(#[trigger] scalar::negation(a)) == -slope(a)
    &&& forall|a: S|
        slope(a) == 0 as real ==> slope(#[trigger] scalar::exponential(a)) == 0 as real
    &&& slope(scalar::zero()) == 0 as real
    &&& slope(scalar::one()) == 0 as real
    &&& slope(scalar::two()) == 0 as real
    &&& slope(scalar::three()) == 0 as real
    &&& forall|text: &'static str| slope(#[trigger] scalar::literal(text)) == 0 as real
    &&& forall|n: u32| slope(#[trigger] scalar::from_count(n)) == 0 as real
    &&& forall|a: Num<S>, low: Num<S>, high: Num<S>|
        value(low.value) < value(a.value) < value(high.value) ==> slope(
            (#[trigger] a.held(low, high)).value,
        ) == slope(a.value)
}

/// How fast a value of a formula moves.
pub open spec fn of<S: Geometric>(slope: spec_fn(S) -> real, n: Num<S>) -> real {
    slope(n.value)
}

/// A product with a constant moves as its other factor does, times the constant.
pub(crate) proof fn lemma_constants<S: Geometric>(
    value: spec_fn(S) -> real,
    slope: spec_fn(S) -> real,
)
    requires
        is_slope(value, slope),
    ensures
        forall|a: S, b: S|
            slope(a) == 0 as real ==> slope(#[trigger] scalar::product(a, b)) == value(a) * slope(
                b,
            ),
        forall|a: S, b: S|
            slope(b) == 0 as real ==> slope(#[trigger] scalar::product(a, b)) == slope(a) * value(
                b,
            ),
        forall|a: S, b: S|
            slope(a) == 0 as real && slope(b) == 0 as real ==> slope(
                #[trigger] scalar::product(a, b),
            ) == 0 as real,
{
    let zero = 0 as real;
    assert forall|a: S, b: S| slope(a) == zero implies slope(#[trigger] scalar::product(a, b))
        == value(a) * slope(b) by {
        exact::lemma_times_zero(slope(a), value(b));
    }
    assert forall|a: S, b: S| slope(b) == zero implies slope(#[trigger] scalar::product(a, b))
        == slope(a) * value(b) by {
        exact::lemma_times_zero(value(a), slope(b));
    }
    assert forall|a: S, b: S| slope(a) == zero && slope(b) == zero implies slope(
        #[trigger] scalar::product(a, b),
    ) == zero by {
        exact::lemma_times_zero(value(a), slope(b));
    }
}

/// Away from their kinks, the operations that have one move as the branch does
/// that they take there; where both branches move alike, they do so at the kink
/// too. The small whole numbers are what they are called.
pub open spec fn follows_branches<S: Geometric>(
    value: spec_fn(S) -> real,
    slope: spec_fn(S) -> real,
) -> bool {
    &&& value(scalar::one()) == 1 as real
    &&& value(scalar::two()) == 2 as real
    &&& forall|a: S|
        value(a) > 0 as real ==> slope(#[trigger] scalar::magnitude(a)) == slope(a)
    &&& forall|a: S|
        value(a) < 0 as real ==> slope(#[trigger] scalar::magnitude(a)) == -slope(a)
    &&& forall|a: S, b: S|
        value(#[trigger] scalar::larger(a, b)) == if value(a) < value(b) {
            value(b)
        } else {
            value(a)
        }
    &&& forall|a: S, b: S|
        value(a) < value(b) ==> slope(#[trigger] scalar::larger(a, b)) == slope(b)
    &&& forall|a: S, b: S|
        slope(a) == slope(b) ==> slope(#[trigger] scalar::larger(a, b)) == slope(a)
    &&& forall|a: S|
        -(1 as real) < value(a) < 1 as real ==> slope(#[trigger] scalar::within_unit(a)) == slope(a)
}

} // verus!
