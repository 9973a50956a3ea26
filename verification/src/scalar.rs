//! The arithmetic that the library is written over.
//!
//! The samples of a field are values of a type that implements [`Scalar`].
//! The library never looks inside such a value: it only calls the operations
//! of the trait, in a fixed order, and its contracts say which calls, on which
//! arguments, produced each result.

use vstd::prelude::*;

verus! {

/// A number type with the operations that the fits and the statistics use,
/// and with a "not a number" value that marks samples outside the domain.
pub trait Scalar: Copy {
    /// The number zero.
    fn zero() -> Self;

    /// The value that marks a sample as undefined.
    fn nan() -> Self;

    /// The value above every number.
    fn infinity() -> Self;

    /// The value below every number.
    fn neg_infinity() -> Self;

    /// The number of samples `n`, as a scalar.
    fn from_count(n: usize) -> Self;

    /// Ten to the power `exponent`.
    fn pow10(exponent: i32) -> Self;

    /// Whether the value marks an undefined sample.
    fn is_nan(self) -> bool;

    /// `self + rhs`.
    fn plus(self, rhs: Self) -> Self;

    /// `self - rhs`.
    fn minus(self, rhs: Self) -> Self;

    /// `self * rhs`.
    fn times(self, rhs: Self) -> Self;

    /// `self / rhs`.
    fn over(self, rhs: Self) -> Self;

    /// The square root of `self`.
    fn root(self) -> Self;

    /// `1 / self`.
    fn recip(self) -> Self;

    /// The absolute value of `self`.
    fn abs(self) -> Self;
}

/// `r` is what `T::zero()` returns.
pub open spec fn is_zero<T: Scalar>(r: T) -> bool {
    call_ensures(T::zero, (), r)
}

/// `r` is what `T::nan()` returns.
pub open spec fn is_undefined<T: Scalar>(r: T) -> bool {
    call_ensures(T::nan, (), r)
}

/// `r` is what `T::infinity()` returns.
pub open spec fn is_infinity<T: Scalar>(r: T) -> bool {
    call_ensures(T::infinity, (), r)
}

/// `r` is what `T::neg_infinity()` returns.
pub open spec fn is_neg_infinity<T: Scalar>(r: T) -> bool {
    call_ensures(T::neg_infinity, (), r)
}

/// `r` is what `T::from_count(n)` returns.
pub open spec fn is_count<T: Scalar>(n: usize, r: T) -> bool {
    call_ensures(T::from_count, (n,), r)
}

/// `r` is what `T::pow10(exponent)` returns.
pub open spec fn is_pow10<T: Scalar>(exponent: i32, r: T) -> bool {
    call_ensures(T::pow10, (exponent,), r)
}

/// `b` is what `x.is_nan()` returns.
pub open spec fn is_nan_test<T: Scalar>(x: T, b: bool) -> bool {
    call_ensures(T::is_nan, (x,), b)
}

/// `x.is_nan()` returns `false`, and nothing else.
pub open spec fn is_defined<T: Scalar>(x: T) -> bool {
    is_nan_test(x, false) && !is_nan_test(x, true)
}

/// `r` is what `a.plus(b)` returns.
pub open spec fn is_plus<T: Scalar>(a: T, b: T, r: T) -> bool {
    call_ensures(T::plus, (a, b), r)
}

/// `r` is what `a.minus(b)` returns.
pub open spec fn is_minus<T: Scalar>(a: T, b: T, r: T) -> bool {
    call_ensures(T::minus, (a, b), r)
}

/// `r` is what `a.times(b)` returns.
pub open spec fn is_times<T: Scalar>(a: T, b: T, r: T) -> bool {
    call_ensures(T::times, (a, b), r)
}

/// `r` is what `a.over(b)` returns.
pub open spec fn is_over<T: Scalar>(a: T, b: T, r: T) -> bool {
    call_ensures(T::over, (a, b), r)
}

/// `r` is what `a.root()` returns.
pub open spec fn is_root<T: Scalar>(a: T, r: T) -> bool {
    call_ensures(T::root, (a,), r)
}

/// `r` is what `a.recip()` returns.
pub open spec fn is_recip<T: Scalar>(a: T, r: T) -> bool {
    call_ensures(T::recip, (a,), r)
}

/// `r` is what `a.abs()` returns.
pub open spec fn is_abs<T: Scalar>(a: T, r: T) -> bool {
    call_ensures(T::abs, (a,), r)
}

} // verus!
