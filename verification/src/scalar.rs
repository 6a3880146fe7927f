//! The number type that the root finder computes with.
use vstd::prelude::*;

verus! {

/// A number that the root finder can compute with.
///
/// Every method takes every operand: none has a precondition. None promises anything
/// about its result either. The library's contracts speak of the results through the
/// relations below, each of which holds of the values that the method can return for
/// the given operands.
pub trait Scalar: Copy {
    /// `self + rhs`.
    fn plus(self, rhs: Self) -> Self;

    /// `self - rhs`.
    fn minus(self, rhs: Self) -> Self;

    /// `self * rhs`.
    fn times(self, rhs: Self) -> Self;

    /// `self / rhs`.
    fn over(self, rhs: Self) -> Self;

    /// The convergence test: whether a remainder is small enough to count as zero.
    fn is_negligible(self) -> bool;

    /// Whether a slope is zero, so that nothing can be divided by it.
    fn is_zero(self) -> bool;

    /// Reads one coefficient from its decimal notation, `None` where the text is not a
    /// number.
    fn from_decimal(text: &str) -> Option<Self>;
}

/// `r` is a value that `a.plus(b)` can return.
pub open spec fn sum_is<S: Scalar>(a: S, b: S, r: S) -> bool {
    call_ensures(S::plus, (a, b), r)
}

/// `r` is a value that `a.minus(b)` can return.
pub open spec fn difference_is<S: Scalar>(a: S, b: S, r: S) -> bool {
    call_ensures(S::minus, (a, b), r)
}

/// `r` is a value that `a.times(b)` can return.
pub open spec fn product_is<S: Scalar>(a: S, b: S, r: S) -> bool {
    call_ensures(S::times, (a, b), r)
}

/// `r` is a value that `a.over(b)` can return.
pub open spec fn quotient_is<S: Scalar>(a: S, b: S, r: S) -> bool {
    call_ensures(S::over, (a, b), r)
}

/// `answer` is what the convergence test can say of `a`.
pub open spec fn negligible_is<S: Scalar>(a: S, answer: bool) -> bool {
    call_ensures(S::is_negligible, (a,), answer)
}

/// `answer` is what the zero test can say of `a`.
pub open spec fn zero_is<S: Scalar>(a: S, answer: bool) -> bool {
    call_ensures(S::is_zero, (a,), answer)
}

/// `r` is what reading a text with the characters `text` can give.
pub open spec fn decimal_is<S: Scalar>(text: Seq<char>, r: Option<S>) -> bool {
    exists|t: &str| t@ == text && #[trigger] call_ensures(S::from_decimal, (t,), r)
}

/// Adding is a function: the same operands give the same sum.
pub open spec fn sums_are_unique<S: Scalar>() -> bool {
    forall|a: S, b: S, first: S, second: S|
        #![trigger sum_is(a, b, first), sum_is(a, b, second)]
        sum_is(a, b, first) && sum_is(a, b, second) ==> first == second
}

/// Subtracting is a function.
pub open spec fn differences_are_unique<S: Scalar>() -> bool {
    forall|a: S, b: S, first: S, second: S|
        #![trigger difference_is(a, b, first), difference_is(a, b, second)]
        difference_is(a, b, first) && difference_is(a, b, second) ==> first == second
}

/// Multiplying is a function.
pub open spec fn products_are_unique<S: Scalar>() -> bool {
    forall|a: S, b: S, first: S, second: S|
        #![trigger product_is(a, b, first), product_is(a, b, second)]
        product_is(a, b, first) && product_is(a, b, second) ==> first == second
}

/// Dividing is a function.
pub open spec fn quotients_are_unique<S: Scalar>() -> bool {
    forall|a: S, b: S, first: S, second: S|
        #![trigger quotient_is(a, b, first), quotient_is(a, b, second)]
        quotient_is(a, b, first) && quotient_is(a, b, second) ==> first == second
}

/// The two tests are functions: neither says both yes and no of the same number.
pub open spec fn tests_are_decided<S: Scalar>() -> bool {
    &&& forall|a: S|
        #![trigger negligible_is(a, true), negligible_is(a, false)]
        !(negligible_is(a, true) && negligible_is(a, false))
    &&& forall|a: S|
        #![trigger zero_is(a, true), zero_is(a, false)]
        !(zero_is(a, true) && zero_is(a, false))
}

/// The arithmetic is pure: every operation and every test is a function of its
/// operands.
pub open spec fn arithmetic_is_pure<S: Scalar>() -> bool {
    &&& sums_are_unique::<S>()
    &&& differences_are_unique::<S>()
    &&& products_are_unique::<S>()
    &&& quotients_are_unique::<S>()
    &&& tests_are_decided::<S>()
}

} // verus!
