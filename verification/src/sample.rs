//! The arithmetic that the pipeline needs of a pixel value.
//!
//! The library is generic over the number type of its images. Nothing is
//! assumed of the operations: every contract in this crate says which
//! operations were applied, to what and in which order, through the relations
//! below, and so holds for whatever type the caller brings.
use vstd::prelude::*;

verus! {

/// A number type in which light is measured.
pub trait Sample: Copy + Send + Sync {
    /// `num / den`, both converted first.
    fn ratio(num: i64, den: i64) -> (r: Self);

    /// The number `n`.
    fn count(n: usize) -> (r: Self);

    /// `self + other`.
    fn plus(self, other: Self) -> (r: Self);

    /// `self - other`.
    fn minus(self, other: Self) -> (r: Self);

    /// `self * other`.
    fn times(self, other: Self) -> (r: Self);

    /// `self / other`.
    fn over(self, other: Self) -> (r: Self);

    /// The absolute value.
    fn magnitude(self) -> (r: Self);

    /// The cosine of an angle in radians.
    fn cosine(self) -> (r: Self);

    /// `self` raised to `exponent`.
    fn power(self, exponent: Self) -> (r: Self);

    /// Half a turn in radians.
    fn half_turn() -> (r: Self);

    /// The larger of the two numbers.
    fn larger(self, other: Self) -> (r: Self);

    /// `self`, moved to the nearer end where it lies outside `low ..= high`.
    fn clamped(self, low: Self, high: Self) -> (r: Self);

    /// Is `self > other`?
    fn exceeds(self, other: Self) -> (r: bool);

    /// Is `self <= other`?
    fn at_most(self, other: Self) -> (r: bool);

    /// Is this the outcome of an operation that has none, such as zero over zero?
    fn is_undefined(self) -> (r: bool);

    /// A number beyond all distances.
    fn unlimited() -> (r: Self);

    /// The arithmetic mean, unless there are no values.
    fn mean(values: &Vec<Self>) -> (r: Option<Self>);

    /// The number cut down to a whole number of `0 ..= 255`.
    fn to_byte(self) -> (r: u8);
}

/// `r` is the number that stands for `num / den`.
#[verifier::inline]
pub open spec fn is_ratio<T: Sample>(num: i64, den: i64, r: T) -> bool {
    call_ensures(T::ratio, (num, den), r)
}

/// `r` is the number that stands for `n`.
#[verifier::inline]
pub open spec fn is_count<T: Sample>(n: usize, r: T) -> bool {
    call_ensures(T::count, (n,), r)
}

/// `r` is the number beyond all distances.
#[verifier::inline]
pub open spec fn is_unlimited<T: Sample>(r: T) -> bool {
    call_ensures(T::unlimited, (), r)
}

/// `r` is the number zero.
#[verifier::inline]
pub open spec fn is_zero<T: Sample>(r: T) -> bool {
    is_ratio(0, 1, r)
}

/// `r` is the number one.
#[verifier::inline]
pub open spec fn is_one<T: Sample>(r: T) -> bool {
    is_ratio(1, 1, r)
}

/// `r` came out of `a + b`.
#[verifier::inline]
pub open spec fn is_sum<T: Sample>(a: T, b: T, r: T) -> bool {
    call_ensures(T::plus, (a, b), r)
}

/// `r` came out of `a - b`.
#[verifier::inline]
pub open spec fn is_difference<T: Sample>(a: T, b: T, r: T) -> bool {
    call_ensures(T::minus, (a, b), r)
}

/// `r` came out of `a * b`.
#[verifier::inline]
pub open spec fn is_product<T: Sample>(a: T, b: T, r: T) -> bool {
    call_ensures(T::times, (a, b), r)
}

/// `r` came out of `a / b`.
#[verifier::inline]
pub open spec fn is_quotient<T: Sample>(a: T, b: T, r: T) -> bool {
    call_ensures(T::over, (a, b), r)
}

/// `r` came out as the absolute value of `a`.
#[verifier::inline]
pub open spec fn is_magnitude<T: Sample>(a: T, r: T) -> bool {
    call_ensures(T::magnitude, (a,), r)
}

/// `r` came out as the larger of `a` and `b`.
#[verifier::inline]
pub open spec fn is_larger<T: Sample>(a: T, b: T, r: T) -> bool {
    call_ensures(T::larger, (a, b), r)
}

/// `r` came out as `a`, clamped to `low ..= high`.
#[verifier::inline]
pub open spec fn is_clamped<T: Sample>(a: T, low: T, high: T, r: T) -> bool {
    call_ensures(T::clamped, (a, low, high), r)
}

/// `r` came out as `a`, clamped to `0 ..= 1`.
pub open spec fn is_unit_clamped<T: Sample>(a: T, r: T) -> bool {
    exists|zero: T, one: T|
        is_zero(zero) && is_one(one) && #[trigger] is_clamped(a, zero, one, r)
}

/// Zero.
pub fn zero<T: Sample>() -> (r: T)
    ensures
        is_zero(r),
{
    T::ratio(0, 1)
}

/// `a`, clamped to `0 ..= 1`.
pub fn unit_clamped<T: Sample>(a: T) -> (r: T)
    ensures
        is_unit_clamped(a, r),
{
    let zero: T = T::ratio(0, 1);
    let one: T = T::ratio(1, 1);
    a.clamped(zero, one)
}

} // verus!
