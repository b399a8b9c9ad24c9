//! Formulas over an abstract scalar type, written with operators.
//!
//! The operators of [`Num`] are those of the scalar type inside. A formula reads
//! the same in code and in a contract; the contract holds where the results of
//! the operations are functions of their arguments.
use vstd::prelude::*;

use crate::scalar;
use crate::scalar::{
    eval_exp, eval_from_count, eval_larger, eval_less, eval_literal, eval_magnitude, eval_minus,
    eval_negated, eval_over, eval_plus, eval_same, eval_times, eval_zero, Scalar,
};

verus! {

/// The operations that the formulas of lenses and of color use beside those of
/// the image kernels.
pub trait Geometric: Scalar {
    /// The circle constant.
    fn pi() -> Self;

    /// The largest finite number.
    fn largest() -> Self;

    /// The natural logarithm.
    fn ln(self) -> Self;

    /// The logistic function.
    fn sigmoid(self) -> Self;

    fn tangent(self) -> Self;

    fn arctangent(self) -> Self;

    /// The square root.
    fn root(self) -> Self;

    /// One with the sign of the value.
    fn sign(self) -> Self;

    /// The length of a vector of two components.
    fn hypotenuse(self, other: Self) -> Self;

    /// The value, held between `low` and `high`.
    fn held(self, low: Self, high: Self) -> Self;

    /// Whether the value is a number and not infinite.
    fn finite(self) -> bool;

    /// The nearest whole number, zero for what is below zero.
    fn nearest(self) -> u64;
}

/// A number in a formula.
#[derive(Clone, Copy, Debug)]
pub struct Num<S> {
    pub value: S,
}

/// Every operation's result is a function of its arguments.
pub open spec fn deterministic<S: Geometric>() -> bool {
    &&& scalar::deterministic::<S>()
    &&& forall|r: S, q: S|
        #[trigger] call_ensures(S::pi, (), r) && #[trigger] call_ensures(S::pi, (), q) ==> r
            == q
    &&& forall|r: S, q: S|
        #[trigger] call_ensures(S::largest, (), r) && #[trigger] call_ensures(S::largest, (), q) ==> r
            == q
    &&& forall|a: S, r: S, q: S|
        #[trigger] call_ensures(S::ln, (a,), r) && #[trigger] call_ensures(
            S::ln,
            (a,),
            q,
        ) ==> r == q
    &&& forall|a: S, r: S, q: S|
        #[trigger] call_ensures(S::sigmoid, (a,), r) && #[trigger] call_ensures(
            S::sigmoid,
            (a,),
            q,
        ) ==> r == q
    &&& forall|a: S, r: S, q: S|
        #[trigger] call_ensures(S::tangent, (a,), r) && #[trigger] call_ensures(
            S::tangent,
            (a,),
            q,
        ) ==> r == q
    &&& forall|a: S, r: S, q: S|
        #[trigger] call_ensures(S::arctangent, (a,), r) && #[trigger] call_ensures(
            S::arctangent,
            (a,),
            q,
        ) ==> r == q
    &&& forall|a: S, r: S, q: S|
        #[trigger] call_ensures(S::root, (a,), r) && #[trigger] call_ensures(
            S::root,
            (a,),
            q,
        ) ==> r == q
    &&& forall|a: S, r: S, q: S|
        #[trigger] call_ensures(S::sign, (a,), r) && #[trigger] call_ensures(
            S::sign,
            (a,),
            q,
        ) ==> r == q
    &&& forall|a: S, r: u64, q: u64|
        #[trigger] call_ensures(S::nearest, (a,), r) && #[trigger] call_ensures(
            S::nearest,
            (a,),
            q,
        ) ==> r == q
    &&& forall|a: S, r: bool, q: bool|
        #[trigger] call_ensures(S::finite, (a,), r) && #[trigger] call_ensures(
            S::finite,
            (a,),
            q,
        ) ==> r == q
    &&& forall|a: S, b: S, r: S, q: S|
        #[trigger] call_ensures(S::hypotenuse, (a, b), r) && #[trigger] call_ensures(
            S::hypotenuse,
            (a, b),
            q,
        ) ==> r == q
    &&& forall|a: S, b: S, c: S, r: S, q: S|
        #[trigger] call_ensures(S::held, (a, b, c), r) && #[trigger] call_ensures(
            S::held,
            (a, b, c),
            q,
        ) ==> r == q
}

/// The operators as they stand in contracts.
impl<S: Geometric> Num<S> {
    pub open spec fn spec_add(self, rhs: Num<S>) -> Num<S> {
        Num { value: scalar::sum(self.value, rhs.value) }
    }

    pub open spec fn spec_sub(self, rhs: Num<S>) -> Num<S> {
        Num { value: scalar::difference(self.value, rhs.value) }
    }

    pub open spec fn spec_mul(self, rhs: Num<S>) -> Num<S> {
        Num { value: scalar::product(self.value, rhs.value) }
    }

    pub open spec fn spec_euclidean_or_real_div(self, rhs: Num<S>) -> Num<S> {
        Num { value: scalar::quotient(self.value, rhs.value) }
    }
}

impl<S: Geometric> core::ops::Add for Num<S> {
    type Output = Num<S>;

    fn add(self, rhs: Num<S>) -> (r: Num<S>) {
        Num { value: eval_plus(self.value, rhs.value) }
    }
}

impl<S: Geometric> vstd::std_specs::ops::AddSpecImpl for Num<S> {
    open spec fn obeys_add_spec() -> bool {
        deterministic::<S>()
    }

    open spec fn add_req(self, rhs: Num<S>) -> bool {
        true
    }

    open spec fn add_spec(self, rhs: Num<S>) -> Num<S> {
        self + rhs
    }
}

impl<S: Geometric> core::ops::Sub for Num<S> {
    type Output = Num<S>;

    fn sub(self, rhs: Num<S>) -> (r: Num<S>) {
        Num { value: eval_minus(self.value, rhs.value) }
    }
}

impl<S: Geometric> vstd::std_specs::ops::SubSpecImpl for Num<S> {
    open spec fn obeys_sub_spec() -> bool {
        deterministic::<S>()
    }

    open spec fn sub_req(self, rhs: Num<S>) -> bool {
        true
    }

    open spec fn sub_spec(self, rhs: Num<S>) -> Num<S> {
        self - rhs
    }
}

impl<S: Geometric> core::ops::Mul for Num<S> {
    type Output = Num<S>;

    fn mul(self, rhs: Num<S>) -> (r: Num<S>) {
        Num { value: eval_times(self.value, rhs.value) }
    }
}

impl<S: Geometric> vstd::std_specs::ops::MulSpecImpl for Num<S> {
    open spec fn obeys_mul_spec() -> bool {
        deterministic::<S>()
    }

    open spec fn mul_req(self, rhs: Num<S>) -> bool {
        true
    }

    open spec fn mul_spec(self, rhs: Num<S>) -> Num<S> {
        self * rhs
    }
}

impl<S: Geometric> core::ops::Div for Num<S> {
    type Output = Num<S>;

    fn div(self, rhs: Num<S>) -> (r: Num<S>) {
        Num { value: eval_over(self.value, rhs.value) }
    }
}

impl<S: Geometric> vstd::std_specs::ops::DivSpecImpl for Num<S> {
    open spec fn obeys_div_spec() -> bool {
        deterministic::<S>()
    }

    open spec fn div_req(self, rhs: Num<S>) -> bool {
        true
    }

    open spec fn div_spec(self, rhs: Num<S>) -> Num<S> {
        self / rhs
    }
}

impl<S: Geometric> Num<S> {
    pub open spec fn spec_opposite(self) -> Num<S> {
        Num { value: scalar::negation(self.value) }
    }

    /// The value with its sign turned.
    #[verifier::when_used_as_spec(spec_opposite)]
    pub fn opposite(self) -> (r: Num<S>)
        ensures
            deterministic::<S>() ==> r == self.opposite(),
    {
        Num { value: eval_negated(self.value) }
    }

    pub open spec fn spec_magnitude(self) -> Num<S> {
        Num { value: scalar::magnitude(self.value) }
    }

    /// The value without its sign.
    #[verifier::when_used_as_spec(spec_magnitude)]
    pub fn magnitude(self) -> (r: Num<S>)
        ensures
            deterministic::<S>() ==> r == self.magnitude(),
    {
        Num { value: eval_magnitude(self.value) }
    }

    pub open spec fn spec_exp(self) -> Num<S> {
        Num { value: scalar::exponential(self.value) }
    }

    /// The exponential function.
    #[verifier::when_used_as_spec(spec_exp)]
    pub fn exp(self) -> (r: Num<S>)
        ensures
            deterministic::<S>() ==> r == self.exp(),
    {
        Num { value: eval_exp(self.value) }
    }

    pub open spec fn spec_ln(self) -> Num<S> {
        Num { value: choose|r: S| call_ensures(S::ln, (self.value,), r) }
    }

    /// The natural logarithm.
    #[verifier::when_used_as_spec(spec_ln)]
    pub fn ln(self) -> (r: Num<S>)
        ensures
            deterministic::<S>() ==> r == self.ln(),
    {
        Num { value: self.value.ln() }
    }

    pub open spec fn spec_sigmoid(self) -> Num<S> {
        Num { value: choose|r: S| call_ensures(S::sigmoid, (self.value,), r) }
    }

    /// The logistic function.
    #[verifier::when_used_as_spec(spec_sigmoid)]
    pub fn sigmoid(self) -> (r: Num<S>)
        ensures
            deterministic::<S>() ==> r == self.sigmoid(),
    {
        Num { value: self.value.sigmoid() }
    }

    pub open spec fn spec_tangent(self) -> Num<S> {
        Num { value: choose|r: S| call_ensures(S::tangent, (self.value,), r) }
    }

    /// The tangent of an angle.
    #[verifier::when_used_as_spec(spec_tangent)]
    pub fn tangent(self) -> (r: Num<S>)
        ensures
            deterministic::<S>() ==> r == self.tangent(),
    {
        Num { value: self.value.tangent() }
    }

    pub open spec fn spec_arctangent(self) -> Num<S> {
        Num { value: choose|r: S| call_ensures(S::arctangent, (self.value,), r) }
    }

    /// The angle of a tangent.
    #[verifier::when_used_as_spec(spec_arctangent)]
    pub fn arctangent(self) -> (r: Num<S>)
        ensures
            deterministic::<S>() ==> r == self.arctangent(),
    {
        Num { value: self.value.arctangent() }
    }

    pub open spec fn spec_root(self) -> Num<S> {
        Num { value: choose|r: S| call_ensures(S::root, (self.value,), r) }
    }

    /// The square root.
    #[verifier::when_used_as_spec(spec_root)]
    pub fn root(self) -> (r: Num<S>)
        ensures
            deterministic::<S>() ==> r == self.root(),
    {
        Num { value: self.value.root() }
    }

    pub open spec fn spec_sign(self) -> Num<S> {
        Num { value: choose|r: S| call_ensures(S::sign, (self.value,), r) }
    }

    /// One with the sign of the value.
    #[verifier::when_used_as_spec(spec_sign)]
    pub fn sign(self) -> (r: Num<S>)
        ensures
            deterministic::<S>() ==> r == self.sign(),
    {
        Num { value: self.value.sign() }
    }

    pub open spec fn spec_larger(self, other: Num<S>) -> Num<S> {
        Num { value: scalar::larger(self.value, other.value) }
    }

    /// The larger of the two.
    #[verifier::when_used_as_spec(spec_larger)]
    pub fn larger(self, other: Num<S>) -> (r: Num<S>)
        ensures
            deterministic::<S>() ==> r == self.larger(other),
    {
        Num { value: eval_larger(self.value, other.value) }
    }

    pub open spec fn spec_hypotenuse(self, other: Num<S>) -> Num<S> {
        Num { value: choose|r: S| call_ensures(S::hypotenuse, (self.value, other.value), r) }
    }

    /// The length of a vector of two components.
    #[verifier::when_used_as_spec(spec_hypotenuse)]
    pub fn hypotenuse(self, other: Num<S>) -> (r: Num<S>)
        ensures
            deterministic::<S>() ==> r == self.hypotenuse(other),
    {
        Num { value: self.value.hypotenuse(other.value) }
    }

    pub open spec fn spec_held(self, low: Num<S>, high: Num<S>) -> Num<S> {
        Num {
            value: choose|r: S| call_ensures(S::held, (self.value, low.value, high.value), r),
        }
    }

    /// The value, held between `low` and `high`.
    #[verifier::when_used_as_spec(spec_held)]
    pub fn held(self, low: Num<S>, high: Num<S>) -> (r: Num<S>)
        ensures
            deterministic::<S>() ==> r == self.held(low, high),
    {
        Num { value: self.value.held(low.value, high.value) }
    }

    pub open spec fn spec_finite(self) -> bool {
        choose|r: bool| call_ensures(S::finite, (self.value,), r)
    }

    /// Whether the value is a number and not infinite.
    #[verifier::when_used_as_spec(spec_finite)]
    pub fn finite(self) -> (r: bool)
        ensures
            deterministic::<S>() ==> r == self.finite(),
    {
        self.value.finite()
    }

    pub open spec fn spec_nearest(self) -> u64 {
        choose|r: u64| call_ensures(S::nearest, (self.value,), r)
    }

    /// The nearest whole number, zero for what is below zero.
    #[verifier::when_used_as_spec(spec_nearest)]
    pub fn nearest(self) -> (r: u64)
        ensures
            deterministic::<S>() ==> r == self.nearest(),
    {
        self.value.nearest()
    }

    pub open spec fn spec_below(self, other: Num<S>) -> bool {
        scalar::less(self.value, other.value)
    }

    /// Whether the value is less than the other.
    #[verifier::when_used_as_spec(spec_below)]
    pub fn below(self, other: Num<S>) -> (r: bool)
        ensures
            deterministic::<S>() ==> r == self.below(other),
    {
        eval_less(self.value, other.value)
    }

    pub open spec fn spec_at_most(self, other: Num<S>) -> bool {
        scalar::less(self.value, other.value) || scalar::same(self.value, other.value)
    }

    /// Whether the value is less than the other or the same.
    #[verifier::when_used_as_spec(spec_at_most)]
    pub fn at_most(self, other: Num<S>) -> (r: bool)
        ensures
            deterministic::<S>() ==> r == self.at_most(other),
    {
        eval_less(self.value, other.value) || eval_same(self.value, other.value)
    }
}

pub open spec fn spec_lit<S: Geometric>(text: &'static str) -> Num<S> {
    Num { value: scalar::literal(text) }
}

/// The number that a decimal text denotes.
#[verifier::when_used_as_spec(spec_lit)]
pub fn lit<S: Geometric>(text: &'static str) -> (r: Num<S>)
    ensures
        deterministic::<S>() ==> r == lit::<S>(text),
{
    Num { value: eval_literal(text) }
}

pub open spec fn spec_zero<S: Geometric>() -> Num<S> {
    Num { value: scalar::zero() }
}

/// Zero.
#[verifier::when_used_as_spec(spec_zero)]
pub fn zero<S: Geometric>() -> (r: Num<S>)
    ensures
        deterministic::<S>() ==> r == zero::<S>(),
{
    Num { value: eval_zero() }
}

pub open spec fn spec_count<S: Geometric>(n: u32) -> Num<S> {
    Num { value: scalar::from_count(n) }
}

/// A whole number.
#[verifier::when_used_as_spec(spec_count)]
pub fn count<S: Geometric>(n: u32) -> (r: Num<S>)
    ensures
        deterministic::<S>() ==> r == count::<S>(n),
{
    Num { value: eval_from_count(n) }
}

pub open spec fn spec_pi<S: Geometric>() -> Num<S> {
    Num { value: choose|r: S| call_ensures(S::pi, (), r) }
}

/// The circle constant.
#[verifier::when_used_as_spec(spec_pi)]
pub fn pi<S: Geometric>() -> (r: Num<S>)
    ensures
        deterministic::<S>() ==> r == pi::<S>(),
{
    Num { value: S::pi() }
}

pub open spec fn spec_largest<S: Geometric>() -> Num<S> {
    Num { value: choose|r: S| call_ensures(S::largest, (), r) }
}

/// The largest finite number.
#[verifier::when_used_as_spec(spec_largest)]
pub fn largest<S: Geometric>() -> (r: Num<S>)
    ensures
        deterministic::<S>() ==> r == largest::<S>(),
{
    Num { value: S::largest() }
}

/// A vector of two components.
#[derive(Clone, Copy, Debug)]
pub struct Vec2<S> {
    pub x: Num<S>,
    pub y: Num<S>,
}

/// A quaternion.
#[derive(Clone, Copy, Debug)]
pub struct Quat<S> {
    pub x: Num<S>,
    pub y: Num<S>,
    pub z: Num<S>,
    pub w: Num<S>,
}

/// A vector of three components.
#[derive(Clone, Copy, Debug)]
pub struct Vec3<S> {
    pub x: Num<S>,
    pub y: Num<S>,
    pub z: Num<S>,
}

impl<S: Geometric> Vec3<S> {
    pub open spec fn spec_plus(self, other: Vec3<S>) -> Vec3<S> {
        Vec3 { x: self.x + other.x, y: self.y + other.y, z: self.z + other.z }
    }

    /// The sum, component by component.
    #[verifier::when_used_as_spec(spec_plus)]
    pub fn plus(self, other: Vec3<S>) -> (r: Vec3<S>)
        ensures
            deterministic::<S>() ==> r == self.plus(other),
    {
        Vec3 { x: self.x + other.x, y: self.y + other.y, z: self.z + other.z }
    }

    pub open spec fn spec_scale(self, factor: Num<S>) -> Vec3<S> {
        Vec3 { x: self.x * factor, y: self.y * factor, z: self.z * factor }
    }

    /// Every component times `factor`.
    #[verifier::when_used_as_spec(spec_scale)]
    pub fn scale(self, factor: Num<S>) -> (r: Vec3<S>)
        ensures
            deterministic::<S>() ==> r == self.scale(factor),
    {
        Vec3 { x: self.x * factor, y: self.y * factor, z: self.z * factor }
    }

    pub open spec fn spec_dot(self, other: Vec3<S>) -> Num<S> {
        self.x * other.x + self.y * other.y + self.z * other.z
    }

    /// The inner product.
    #[verifier::when_used_as_spec(spec_dot)]
    pub fn dot(self, other: Vec3<S>) -> (r: Num<S>)
        ensures
            deterministic::<S>() ==> r == self.dot(other),
    {
        self.x * other.x + self.y * other.y + self.z * other.z
    }
}

/// What an operation of a deterministic scalar type returns is what the formulas
/// take it to return, with its arguments in their order.
pub proof fn formulas_use_the_operations_of_the_type<S: Geometric>()
    requires
        deterministic::<S>(),
    ensures
        forall|a: Num<S>, b: Num<S>, r: S| #[trigger] call_ensures(S::plus, (a.value, b.value), r) ==> (a + b).value == r,
        forall|a: Num<S>, b: Num<S>, r: S| #[trigger] call_ensures(S::minus, (a.value, b.value), r) ==> (a - b).value == r,
        forall|a: Num<S>, b: Num<S>, r: S| #[trigger] call_ensures(S::times, (a.value, b.value), r) ==> (a * b).value == r,
        forall|a: Num<S>, b: Num<S>, r: S| #[trigger] call_ensures(S::over, (a.value, b.value), r) ==> (a / b).value == r,
        forall|a: Num<S>, r: S| #[trigger] call_ensures(S::negated, (a.value,), r) ==> a.opposite().value == r,
        forall|a: Num<S>, r: S| #[trigger] call_ensures(S::magnitude, (a.value,), r) ==> a.magnitude().value == r,
        forall|a: Num<S>, r: S| #[trigger] call_ensures(S::exp, (a.value,), r) ==> a.exp().value == r,
        forall|a: Num<S>, r: S| #[trigger] call_ensures(S::ln, (a.value,), r) ==> a.ln().value == r,
        forall|a: Num<S>, r: S| #[trigger] call_ensures(S::sigmoid, (a.value,), r) ==> a.sigmoid().value == r,
        forall|a: Num<S>, r: S| #[trigger] call_ensures(S::tangent, (a.value,), r) ==> a.tangent().value == r,
        forall|a: Num<S>, r: S| #[trigger] call_ensures(S::arctangent, (a.value,), r) ==> a.arctangent().value == r,
        forall|a: Num<S>, r: S| #[trigger] call_ensures(S::root, (a.value,), r) ==> a.root().value == r,
        forall|a: Num<S>, r: S| #[trigger] call_ensures(S::sign, (a.value,), r) ==> a.sign().value == r,
        forall|a: Num<S>, b: Num<S>, r: S| #[trigger] call_ensures(S::larger, (a.value, b.value), r) ==> a.larger(b).value == r,
        forall|a: Num<S>, b: Num<S>, r: S| #[trigger] call_ensures(S::hypotenuse, (a.value, b.value), r) ==> a.hypotenuse(b).value == r,
        forall|a: Num<S>, b: Num<S>, c: Num<S>, r: S| #[trigger] call_ensures(S::held, (a.value, b.value, c.value), r) ==> a.held(b, c).value == r,
        forall|a: Num<S>, r: bool| #[trigger] call_ensures(S::finite, (a.value,), r) ==> a.finite() == r,
        forall|a: Num<S>, r: u64| #[trigger] call_ensures(S::nearest, (a.value,), r) ==> a.nearest() == r,
        forall|a: Num<S>, b: Num<S>, r: bool| #[trigger] call_ensures(S::less, (a.value, b.value), r) ==> a.below(b) == r,
        forall|t: &'static str, r: S| #[trigger] call_ensures(S::literal, (t,), r) ==> lit::<S>(t).value == r,
        forall|r: S| #[trigger] call_ensures(S::zero, (), r) ==> zero::<S>().value == r,
        forall|n: u32, r: S| #[trigger] call_ensures(S::from_count, (n,), r) ==> count::<S>(n).value == r,
        forall|r: S| #[trigger] call_ensures(S::pi, (), r) ==> pi::<S>().value == r,
        forall|r: S| #[trigger] call_ensures(S::largest, (), r) ==> largest::<S>().value == r,
        forall|a: Num<S>, b: Num<S>, r: bool, q: bool|
            #[trigger] call_ensures(S::less, (a.value, b.value), r) && #[trigger] call_ensures(
                S::same,
                (a.value, b.value),
                q,
            ) ==> a.at_most(b) == (r || q),
{
    scalar::operations_return_what_contracts_say::<S>();
}

} // verus!
