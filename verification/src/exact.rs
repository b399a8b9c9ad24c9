//! Scalar types that compute exactly: what the formulas of lenses promise where
//! nothing is rounded.
use vstd::prelude::*;

use crate::num::{Geometric, Num};
use crate::scalar;

verus! {

/// `value` gives every scalar the number that it stands for, and the operations
/// compute with these numbers without rounding.
pub open spec fn is_exact<S: Geometric>(value: spec_fn(S) -> real) -> bool {
    &&& forall|a: S, b: S| value(#[trigger] scalar::sum(a, b)) == value(a) + value(b)
    &&& forall|a: S, b: S| value(#[trigger] scalar::difference(a, b)) == value(a) - value(b)
    &&& forall|a: S, b: S| value(#[trigger] scalar::product(a, b)) == value(a) * value(b)
    &&& forall|a: S, b: S|
        value(b) != 0 as real ==> value(#[trigger] scalar::quotient(a, b)) == value(a) / value(b)
    &&& forall|a: S| value(#[trigger] scalar::negation(a)) == -value(a)
    &&& value(scalar::zero()) == 0 as real
    &&& value(scalar::literal("0.5")) * (2 as real) == 1 as real
    &&& value(scalar::literal("1.0")) == 1 as real
    &&& value(scalar::literal("2.0")) == 2 as real
    &&& value(scalar::literal("3.0")) == 3 as real
    &&& value(scalar::literal("4.0")) == 4 as real
    &&& value(scalar::literal("6.0")) == 6 as real
    &&& forall|a: S, b: S| #[trigger] scalar::less(a, b) == (value(a) < value(b))
    &&& forall|a: S, b: S| #[trigger] scalar::same(a, b) == (value(a) == value(b))
    &&& forall|a: Num<S>, low: Num<S>, high: Num<S>|
        value(low.value) <= value(a.value) <= value(high.value) ==> value(
            (#[trigger] a.held(low, high)).value,
        ) == value(a.value)
}

/// A literal is the number that it denotes, a fraction of whole numbers.
pub open spec fn reads<S: Geometric>(
    value: spec_fn(S) -> real,
    text: &'static str,
    numerator: int,
    denominator: int,
) -> bool {
    value(scalar::literal(text)) == (numerator as real) / (denominator as real)
}

/// Counts and small whole numbers are what they are called, and the operations
/// that choose between their arguments choose by their numbers.
pub open spec fn chooses<S: Geometric>(value: spec_fn(S) -> real) -> bool {
    &&& value(scalar::one()) == 1 as real
    &&& value(scalar::two()) == 2 as real
    &&& value(scalar::three()) == 3 as real
    &&& forall|n: u32| value(#[trigger] scalar::from_count::<S>(n)) == (n as int) as real
    &&& forall|a: S|
        value(#[trigger] scalar::magnitude(a)) == if value(a) < 0 as real {
            -value(a)
        } else {
            value(a)
        }
    &&& forall|a: S, b: S|
        value(#[trigger] scalar::larger(a, b)) == if value(a) < value(b) {
            value(b)
        } else {
            value(a)
        }
    &&& forall|a: S|
        value(#[trigger] scalar::within_unit(a)) == held_real(
            value(a),
            -(1 as real),
            1 as real,
        )
    &&& forall|a: Num<S>, low: Num<S>, high: Num<S>|
        value(low.value) <= value(high.value) ==> value((#[trigger] a.held(low, high)).value)
            == held_real(value(a.value), value(low.value), value(high.value))
}

/// A number, held between two others.
pub open spec fn held_real(x: real, low: real, high: real) -> real {
    if x < low {
        low
    } else if x > high {
        high
    } else {
        x
    }
}

/// The square root is the number from zero on whose square is the argument.
pub open spec fn takes_roots<S: Geometric>(value: spec_fn(S) -> real) -> bool {
    forall|a: Num<S>|
        of(value, a) >= 0 as real ==> of(value, #[trigger] a.root()) >= 0 as real && of(
            value,
            a.root(),
        ) * of(value, a.root()) == of(value, a)
}

/// `e` is an exponential function: it turns sums into products, and is positive
/// and growing. The exponentials, logarithms and logistic functions of the
/// scalar type are those of `e`.
pub open spec fn exponentiates<S: Geometric>(
    value: spec_fn(S) -> real,
    e: spec_fn(real) -> real,
) -> bool {
    &&& forall|x: real, y: real| #[trigger] e(x + y) == e(x) * e(y)
    &&& forall|x: real| #[trigger] e(x) > 0 as real
    &&& e(0 as real) == 1 as real
    &&& forall|x: real, y: real| x < y ==> #[trigger] e(x) < #[trigger] e(y)
    &&& forall|a: S| value(#[trigger] scalar::exponential(a)) == e(value(a))
    &&& forall|a: Num<S>|
        of(value, a) > 0 as real ==> e(of(value, #[trigger] a.ln())) == of(value, a)
    &&& forall|a: Num<S>|
        of(value, #[trigger] a.sigmoid()) * ((1 as real) + e(-of(value, a))) == 1 as real
}

/// The number that a value of a formula stands for.
pub open spec fn of<S: Geometric>(value: spec_fn(S) -> real, n: Num<S>) -> real {
    value(n.value)
}

/// A product with zero is zero, and one with one is the other factor.
pub proof fn products_with_zero_and_one<S: Geometric>(value: spec_fn(S) -> real)
    requires
        is_exact(value),
    ensures
        forall|a: S, b: S|
            value(a) == 0 as real || value(b) == 0 as real ==> value(
                #[trigger] scalar::product(a, b),
            ) == 0 as real,
        forall|a: S, b: S|
            value(a) == 1 as real ==> value(#[trigger] scalar::product(a, b)) == value(b),
        forall|a: S, b: S|
            value(b) == 1 as real ==> value(#[trigger] scalar::product(a, b)) == value(a),
        forall|a: S, b: S|
            value(b) == 1 as real ==> value(#[trigger] scalar::quotient(a, b)) == value(a),
{
    assert forall|a: S, b: S| value(a) == 0 as real || value(b) == 0 as real implies value(
        #[trigger] scalar::product(a, b),
    ) == 0 as real by {
        lemma_times_zero(value(a), value(b));
    }
    assert forall|a: S, b: S| value(a) == 1 as real implies value(#[trigger] scalar::product(a, b))
        == value(b) by {
        lemma_times_one(value(a), value(b));
    }
    assert forall|a: S, b: S| value(b) == 1 as real implies value(#[trigger] scalar::product(a, b))
        == value(a) by {
        lemma_times_one(value(b), value(a));
    }
    assert forall|a: S, b: S| value(b) == 1 as real implies value(#[trigger] scalar::quotient(a, b))
        == value(a) by {
        lemma_over_one(value(a), value(b));
    }
}

pub(crate) proof fn lemma_times_zero(x: real, y: real)
    by (nonlinear_arith)
    requires
        x == 0 as real || y == 0 as real,
    ensures
        x * y == 0 as real,
{
}

proof fn lemma_times_one(x: real, y: real)
    by (nonlinear_arith)
    requires
        x == 1 as real,
    ensures
        x * y == y,
        y * x == y,
{
}

pub(crate) proof fn lemma_over_one(x: real, y: real)
    by (nonlinear_arith)
    requires
        y == 1 as real,
    ensures
        x / y == x,
{
}

pub(crate) proof fn lemma_commute(a: real, b: real)
    by (nonlinear_arith)
    ensures
        a * b == b * a,
{
}

pub(crate) proof fn lemma_regroup(a: real, b: real, c: real)
    by (nonlinear_arith)
    ensures
        (a * b) * c == a * (b * c),
{
}

pub(crate) proof fn lemma_opposite(a: real, b: real)
    by (nonlinear_arith)
    ensures
        (-a) * b == -(a * b),
{
}

pub(crate) proof fn lemma_factor(a: real, b: real, c: real)
    by (nonlinear_arith)
    ensures
        (a + b) * c == a * c + b * c,
{
}

/// Moves the last factor of a product before the one in front of it.
pub(crate) proof fn lemma_swap_last(a: real, b: real, c: real)
    ensures
        (a * b) * c == (a * c) * b,
{
    lemma_regroup(a, b, c);
    lemma_commute(b, c);
    lemma_regroup(a, c, b);
}

pub(crate) proof fn lemma_factor_difference(a: real, b: real, c: real)
    ensures
        (a - b) * c == a * c - b * c,
{
    lemma_factor(a, -b, c);
    lemma_opposite(b, c);
    assert(a - b == a + (-b));
}

/// A factor in front of a sum.
pub(crate) proof fn lemma_in_front(k: real, a: real, b: real)
    ensures
        k * (a + b) == k * a + k * b,
        k * (a - b) == k * a - k * b,
        k * (-a) == -(k * a),
{
    lemma_commute(k, a + b);
    lemma_commute(k, a - b);
    lemma_commute(k, -a);
    lemma_commute(k, a);
    lemma_commute(k, b);
    lemma_factor(a, b, k);
    lemma_factor_difference(a, b, k);
    lemma_opposite(a, k);
}

/// A factor in front of what two slopes add up to.
pub(crate) proof fn lemma_in_front_of_two(k: real, a: real, da: real, b: real, db: real)
    ensures
        k * (a * da + b * db) == (k * a) * da + (k * b) * db,
        k * (a * da - b * db) == (k * a) * da - (k * b) * db,
{
    lemma_in_front(k, a * da, b * db);
    lemma_regroup(k, a, da);
    lemma_regroup(k, b, db);
}

/// A factor in front of what three slopes add up to.
pub(crate) proof fn lemma_in_front_of_three(
    k: real,
    a: real,
    da: real,
    b: real,
    db: real,
    c: real,
    dc: real,
)
    ensures
        k * (a * da + b * db + c * dc) == (k * a) * da + (k * b) * db + (k * c) * dc,
{
    lemma_in_front(k, a * da + b * db, c * dc);
    lemma_in_front_of_two(k, a, da, b, db);
    lemma_regroup(k, c, dc);
}

/// Moves the first factor of a product behind the next.
pub(crate) proof fn lemma_swap_first(a: real, b: real, c: real)
    ensures
        a * (b * c) == b * (a * c),
{
    lemma_regroup(a, b, c);
    lemma_commute(a, b);
    lemma_regroup(b, a, c);
}

} // verus!
