//! Arithmetic on an abstract scalar type.
//!
//! The image kernels compute with whatever number type they are instantiated
//! for. Here that type is a parameter: its operations come without contracts,
//! and what the kernels compute is stated over the operations' own results.
use vstd::prelude::*;

verus! {

/// The operations that the image kernels use.
pub trait Scalar: Copy {
    fn zero() -> Self;

    fn one() -> Self;

    fn two() -> Self;

    fn three() -> Self;

    /// The number that a decimal text denotes.
    fn literal(text: &'static str) -> Self;

    /// The exponential function.
    fn exp(self) -> Self;

    /// A pixel count.
    fn from_count(count: u32) -> Self;

    fn plus(self, other: Self) -> Self;

    fn minus(self, other: Self) -> Self;

    fn times(self, other: Self) -> Self;

    fn over(self, other: Self) -> Self;

    fn negated(self) -> Self;

    fn magnitude(self) -> Self;

    /// The larger of the two.
    fn larger(self, other: Self) -> Self;

    /// The value, held between minus one and one.
    fn within_unit(self) -> Self;

    fn less(self, other: Self) -> bool;

    fn same(self, other: Self) -> bool;
}

/// What `Scalar::zero` returns.
pub open spec fn zero<S: Scalar>() -> S {
    choose|r: S| call_ensures(S::zero, (), r)
}

/// What `Scalar::one` returns.
pub open spec fn one<S: Scalar>() -> S {
    choose|r: S| call_ensures(S::one, (), r)
}

/// What `Scalar::two` returns.
pub open spec fn two<S: Scalar>() -> S {
    choose|r: S| call_ensures(S::two, (), r)
}

/// What `Scalar::three` returns.
pub open spec fn three<S: Scalar>() -> S {
    choose|r: S| call_ensures(S::three, (), r)
}

/// What `Scalar::literal` returns.
pub open spec fn literal<S: Scalar>(text: &'static str) -> S {
    choose|r: S| call_ensures(S::literal, (text,), r)
}

/// What `Scalar::exp` returns.
pub open spec fn exponential<S: Scalar>(a: S) -> S {
    choose|r: S| call_ensures(S::exp, (a,), r)
}

/// The stabilizer of the luminance term.
#[verifier::opaque]
pub open spec fn c1<S: Scalar>() -> S {
    product(literal("0.01"), literal("0.01"))
}

/// The stabilizer of the contrast term.
#[verifier::opaque]
pub open spec fn c2<S: Scalar>() -> S {
    product(literal("0.03"), literal("0.03"))
}

/// A colour byte scaled to the unit interval.
#[verifier::opaque]
pub open spec fn from_byte<S: Scalar>(byte: u32) -> S {
    product(from_count(byte), quotient(one(), literal("255.0")))
}

/// What `Scalar::from_count` returns.
pub open spec fn from_count<S: Scalar>(count: u32) -> S {
    choose|r: S| call_ensures(S::from_count, (count,), r)
}

/// What `Scalar::negated` returns.
pub open spec fn negation<S: Scalar>(a: S) -> S {
    choose|r: S| call_ensures(S::negated, (a,), r)
}

/// What `Scalar::magnitude` returns.
pub open spec fn magnitude<S: Scalar>(a: S) -> S {
    choose|r: S| call_ensures(S::magnitude, (a,), r)
}

/// What `Scalar::within_unit` returns.
pub open spec fn within_unit<S: Scalar>(a: S) -> S {
    choose|r: S| call_ensures(S::within_unit, (a,), r)
}

/// What `Scalar::plus` returns.
pub open spec fn sum<S: Scalar>(a: S, b: S) -> S {
    choose|r: S| call_ensures(S::plus, (a, b), r)
}

/// What `Scalar::minus` returns.
pub open spec fn difference<S: Scalar>(a: S, b: S) -> S {
    choose|r: S| call_ensures(S::minus, (a, b), r)
}

/// What `Scalar::times` returns.
pub open spec fn product<S: Scalar>(a: S, b: S) -> S {
    choose|r: S| call_ensures(S::times, (a, b), r)
}

/// What `Scalar::over` returns.
pub open spec fn quotient<S: Scalar>(a: S, b: S) -> S {
    choose|r: S| call_ensures(S::over, (a, b), r)
}

/// What `Scalar::larger` returns.
pub open spec fn larger<S: Scalar>(a: S, b: S) -> S {
    choose|r: S| call_ensures(S::larger, (a, b), r)
}

/// What `Scalar::less` returns.
pub open spec fn less<S: Scalar>(a: S, b: S) -> bool {
    choose|r: bool| call_ensures(S::less, (a, b), r)
}

/// What `Scalar::same` returns.
pub open spec fn same<S: Scalar>(a: S, b: S) -> bool {
    choose|r: bool| call_ensures(S::same, (a, b), r)
}

/// Every operation's result is a function of its arguments.
pub open spec fn deterministic<S: Scalar>() -> bool {
    &&& forall|r: S, q: S|
        #[trigger] call_ensures(S::zero, (), r) && #[trigger] call_ensures(
            S::zero,
            (),
            q,
        ) ==> r == q
    &&& forall|r: S, q: S|
        #[trigger] call_ensures(S::one, (), r) && #[trigger] call_ensures(
            S::one,
            (),
            q,
        ) ==> r == q
    &&& forall|r: S, q: S|
        #[trigger] call_ensures(S::two, (), r) && #[trigger] call_ensures(
            S::two,
            (),
            q,
        ) ==> r == q
    &&& forall|r: S, q: S|
        #[trigger] call_ensures(S::three, (), r) && #[trigger] call_ensures(
            S::three,
            (),
            q,
        ) ==> r == q
    &&& forall|t: &'static str, r: S, q: S|
        #[trigger] call_ensures(S::literal, (t,), r) && #[trigger] call_ensures(
            S::literal,
            (t,),
            q,
        ) ==> r == q
    &&& forall|a: S, r: S, q: S|
        #[trigger] call_ensures(S::exp, (a,), r) && #[trigger] call_ensures(
            S::exp,
            (a,),
            q,
        ) ==> r == q
    &&& forall|count: u32, r: S, q: S|
        #[trigger] call_ensures(S::from_count, (count,), r) && #[trigger] call_ensures(
            S::from_count,
            (count,),
            q,
        ) ==> r == q
    &&& forall|a: S, r: S, q: S|
        #[trigger] call_ensures(S::negated, (a,), r) && #[trigger] call_ensures(
            S::negated,
            (a,),
            q,
        ) ==> r == q
    &&& forall|a: S, r: S, q: S|
        #[trigger] call_ensures(S::magnitude, (a,), r) && #[trigger] call_ensures(
            S::magnitude,
            (a,),
            q,
        ) ==> r == q
    &&& forall|a: S, r: S, q: S|
        #[trigger] call_ensures(S::within_unit, (a,), r) && #[trigger] call_ensures(
            S::within_unit,
            (a,),
            q,
        ) ==> r == q
    &&& forall|a: S, b: S, r: S, q: S|
        #[trigger] call_ensures(S::plus, (a, b), r) && #[trigger] call_ensures(
            S::plus,
            (a, b),
            q,
        ) ==> r == q
    &&& forall|a: S, b: S, r: S, q: S|
        #[trigger] call_ensures(S::minus, (a, b), r) && #[trigger] call_ensures(
            S::minus,
            (a, b),
            q,
        ) ==> r == q
    &&& forall|a: S, b: S, r: S, q: S|
        #[trigger] call_ensures(S::times, (a, b), r) && #[trigger] call_ensures(
            S::times,
            (a, b),
            q,
        ) ==> r == q
    &&& forall|a: S, b: S, r: S, q: S|
        #[trigger] call_ensures(S::over, (a, b), r) && #[trigger] call_ensures(
            S::over,
            (a, b),
            q,
        ) ==> r == q
    &&& forall|a: S, b: S, r: S, q: S|
        #[trigger] call_ensures(S::larger, (a, b), r) && #[trigger] call_ensures(
            S::larger,
            (a, b),
            q,
        ) ==> r == q
    &&& forall|a: S, b: S, r: bool, q: bool|
        #[trigger] call_ensures(S::less, (a, b), r) && #[trigger] call_ensures(
            S::less,
            (a, b),
            q,
        ) ==> r == q
    &&& forall|a: S, b: S, r: bool, q: bool|
        #[trigger] call_ensures(S::same, (a, b), r) && #[trigger] call_ensures(
            S::same,
            (a, b),
            q,
        ) ==> r == q
}

pub(crate) fn eval_zero<S: Scalar>() -> (r: S)
    ensures
        deterministic::<S>() ==> r == zero::<S>(),
{
    S::zero()
}

pub(crate) fn eval_one<S: Scalar>() -> (r: S)
    ensures
        deterministic::<S>() ==> r == one::<S>(),
{
    S::one()
}

pub(crate) fn eval_two<S: Scalar>() -> (r: S)
    ensures
        deterministic::<S>() ==> r == two::<S>(),
{
    S::two()
}

pub(crate) fn eval_three<S: Scalar>() -> (r: S)
    ensures
        deterministic::<S>() ==> r == three::<S>(),
{
    S::three()
}

pub(crate) fn eval_literal<S: Scalar>(text: &'static str) -> (r: S)
    ensures
        deterministic::<S>() ==> r == literal::<S>(text),
{
    S::literal(text)
}

pub(crate) fn eval_exp<S: Scalar>(a: S) -> (r: S)
    ensures
        deterministic::<S>() ==> r == exponential(a),
{
    a.exp()
}

pub(crate) fn eval_c1<S: Scalar>() -> (r: S)
    ensures
        deterministic::<S>() ==> r == c1::<S>(),
{
    reveal(c1);
    eval_times(eval_literal("0.01"), eval_literal("0.01"))
}

pub(crate) fn eval_c2<S: Scalar>() -> (r: S)
    ensures
        deterministic::<S>() ==> r == c2::<S>(),
{
    reveal(c2);
    eval_times(eval_literal("0.03"), eval_literal("0.03"))
}

pub(crate) fn eval_from_byte<S: Scalar>(byte: u32) -> (r: S)
    ensures
        deterministic::<S>() ==> r == from_byte::<S>(byte),
{
    reveal(from_byte);
    eval_times(eval_from_count(byte), eval_over(eval_one(), eval_literal("255.0")))
}

pub(crate) fn eval_from_count<S: Scalar>(count: u32) -> (r: S)
    ensures
        deterministic::<S>() ==> r == from_count::<S>(count),
{
    S::from_count(count)
}

pub(crate) fn eval_negated<S: Scalar>(a: S) -> (r: S)
    ensures
        deterministic::<S>() ==> r == negation(a),
{
    a.negated()
}

pub(crate) fn eval_magnitude<S: Scalar>(a: S) -> (r: S)
    ensures
        deterministic::<S>() ==> r == magnitude(a),
{
    a.magnitude()
}

pub(crate) fn eval_within_unit<S: Scalar>(a: S) -> (r: S)
    ensures
        deterministic::<S>() ==> r == within_unit(a),
{
    a.within_unit()
}

pub(crate) fn eval_plus<S: Scalar>(a: S, b: S) -> (r: S)
    ensures
        deterministic::<S>() ==> r == sum(a, b),
{
    a.plus(b)
}

pub(crate) fn eval_minus<S: Scalar>(a: S, b: S) -> (r: S)
    ensures
        deterministic::<S>() ==> r == difference(a, b),
{
    a.minus(b)
}

pub(crate) fn eval_times<S: Scalar>(a: S, b: S) -> (r: S)
    ensures
        deterministic::<S>() ==> r == product(a, b),
{
    a.times(b)
}

pub(crate) fn eval_over<S: Scalar>(a: S, b: S) -> (r: S)
    ensures
        deterministic::<S>() ==> r == quotient(a, b),
{
    a.over(b)
}

pub(crate) fn eval_larger<S: Scalar>(a: S, b: S) -> (r: S)
    ensures
        deterministic::<S>() ==> r == larger(a, b),
{
    a.larger(b)
}

pub(crate) fn eval_less<S: Scalar>(a: S, b: S) -> (r: bool)
    ensures
        deterministic::<S>() ==> r == less(a, b),
{
    a.less(b)
}

pub(crate) fn eval_same<S: Scalar>(a: S, b: S) -> (r: bool)
    ensures
        deterministic::<S>() ==> r == same(a, b),
{
    a.same(b)
}

/// What an operation of a deterministic scalar type returns is what the contracts
/// take it to return, with its arguments in their order.
pub proof fn operations_return_what_contracts_say<S: Scalar>()
    requires
        deterministic::<S>(),
    ensures
        forall|r: S| #[trigger] call_ensures(S::zero, (), r) ==> zero::<S>() == r,
        forall|r: S| #[trigger] call_ensures(S::one, (), r) ==> one::<S>() == r,
        forall|r: S| #[trigger] call_ensures(S::two, (), r) ==> two::<S>() == r,
        forall|r: S| #[trigger] call_ensures(S::three, (), r) ==> three::<S>() == r,
        forall|t: &'static str, r: S| #[trigger] call_ensures(S::literal, (t,), r) ==> literal::<S>(t) == r,
        forall|a: S, r: S| #[trigger] call_ensures(S::exp, (a,), r) ==> exponential(a) == r,
        forall|n: u32, r: S| #[trigger] call_ensures(S::from_count, (n,), r) ==> from_count::<S>(n) == r,
        forall|a: S, b: S, r: S| #[trigger] call_ensures(S::plus, (a, b), r) ==> sum(a, b) == r,
        forall|a: S, b: S, r: S| #[trigger] call_ensures(S::minus, (a, b), r) ==> difference(a, b) == r,
        forall|a: S, b: S, r: S| #[trigger] call_ensures(S::times, (a, b), r) ==> product(a, b) == r,
        forall|a: S, b: S, r: S| #[trigger] call_ensures(S::over, (a, b), r) ==> quotient(a, b) == r,
        forall|a: S, r: S| #[trigger] call_ensures(S::negated, (a,), r) ==> negation(a) == r,
        forall|a: S, r: S| #[trigger] call_ensures(S::magnitude, (a,), r) ==> magnitude(a) == r,
        forall|a: S, b: S, r: S| #[trigger] call_ensures(S::larger, (a, b), r) ==> larger(a, b) == r,
        forall|a: S, r: S| #[trigger] call_ensures(S::within_unit, (a,), r) ==> within_unit(a) == r,
        forall|a: S, b: S, r: bool| #[trigger] call_ensures(S::less, (a, b), r) ==> less(a, b) == r,
        forall|a: S, b: S, r: bool| #[trigger] call_ensures(S::same, (a, b), r) ==> same(a, b) == r,
{
}

} // verus!
