//! The numbers a network computes with.
//!
//! The library never looks inside a number. It asks the number type for a
//! handful of operations and states every result as a relation between the
//! operands and what the operation gave back: `is_sum(a, b, r)` reads "`r` is
//! a value that `a.plus(b)` may return". Nothing is assumed of an operation
//! beyond the contract its implementation carries.

use vstd::prelude::*;

verus! {

/// A number type with the arithmetic that training needs.
///
/// The methods carry no contract here. An implementation may give each a
/// postcondition of its own, and the relations below then mean exactly that
/// postcondition.
pub trait Scalar: Copy {
    /// The additive identity.
    fn zero() -> Self;

    /// The multiplicative identity.
    fn one() -> Self;

    /// The number that stands for a count of items.
    fn from_count(n: usize) -> Self;

    /// `-self`.
    fn negated(self) -> Self;

    /// The exponential function at `self`.
    fn exp(self) -> Self;

    /// `self + rhs`.
    fn plus(self, rhs: Self) -> Self;

    /// `self - rhs`.
    fn minus(self, rhs: Self) -> Self;

    /// `self * rhs`.
    fn times(self, rhs: Self) -> Self;

    /// `self / rhs`.
    fn over(self, rhs: Self) -> Self;

    /// Whether `self > rhs`; `None` where the two are not ordered.
    fn exceeds(self, rhs: Self) -> Option<bool>;
}

/// `r` is a value of `T::zero()`.
pub open spec fn is_zero<T: Scalar>(r: T) -> bool {
    call_ensures(T::zero, (), r)
}

/// `r` is a value of `T::one()`.
pub open spec fn is_one<T: Scalar>(r: T) -> bool {
    call_ensures(T::one, (), r)
}

/// `r` is a value of `T::from_count(n)`.
pub open spec fn is_count<T: Scalar>(n: usize, r: T) -> bool {
    call_ensures(T::from_count, (n,), r)
}

/// `r` is a value of `x.negated()`.
pub open spec fn is_negation<T: Scalar>(x: T, r: T) -> bool {
    call_ensures(T::negated, (x,), r)
}

/// `r` is a value of `x.exp()`.
pub open spec fn is_exp<T: Scalar>(x: T, r: T) -> bool {
    call_ensures(T::exp, (x,), r)
}

/// `r` is a value of `a.plus(b)`.
pub open spec fn is_sum<T: Scalar>(a: T, b: T, r: T) -> bool {
    call_ensures(T::plus, (a, b), r)
}

/// `r` is a value of `a.minus(b)`.
pub open spec fn is_difference<T: Scalar>(a: T, b: T, r: T) -> bool {
    call_ensures(T::minus, (a, b), r)
}

/// `r` is a value of `a.times(b)`.
pub open spec fn is_product<T: Scalar>(a: T, b: T, r: T) -> bool {
    call_ensures(T::times, (a, b), r)
}

/// `r` is a value of `a.over(b)`.
pub open spec fn is_quotient<T: Scalar>(a: T, b: T, r: T) -> bool {
    call_ensures(T::over, (a, b), r)
}

/// `r` is a value of `a.exceeds(b)`.
pub open spec fn is_comparison<T: Scalar>(a: T, b: T, r: Option<bool>) -> bool {
    call_ensures(T::exceeds, (a, b), r)
}

/// `verdict` tells whether `x` was found to exceed a zero. It is `false`
/// where the two are not ordered.
pub open spec fn is_positivity<T: Scalar>(x: T, verdict: bool) -> bool {
    exists|z: T, c: Option<bool>|
        #![trigger is_zero(z), is_comparison(x, z, c)]
        is_zero(z) && is_comparison(x, z, c) && verdict == (c == Some(true))
}

/// Whether `x` exceeds zero.
pub fn positive<T: Scalar>(x: T) -> (verdict: bool)
    ensures
        is_positivity(x, verdict),
{
    let z = T::zero();
    let c = x.exceeds(z);
    let verdict = match c {
        Some(b) => b,
        None => false,
    };
    proof {
        assert(is_zero(z) && is_comparison(x, z, c));
    }
    verdict
}

} // verus!
