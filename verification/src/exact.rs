//! Number types that reckon without rounding.
//!
//! Some laws of the pipeline hold of the numbers themselves and not of the way
//! in which they are rounded. Such a law takes a reading of the number type as
//! real numbers and asks that the operations are exact under that reading.
use crate::plane::Plane;
use crate::sample::is_clamped;
use crate::sample::is_count;
use crate::sample::is_difference;
use crate::sample::is_larger;
use crate::sample::is_magnitude;
use crate::sample::is_product;
use crate::sample::is_quotient;
use crate::sample::is_ratio;
use crate::sample::is_sum;
use crate::sample::is_unit_clamped;
use crate::sample::Sample;
use vstd::prelude::*;

verus! {

/// Sums, differences and products are exact, and so are whole numbers and their
/// ratios.
pub open spec fn has_exact_ring<T: Sample>(value: spec_fn(T) -> real) -> bool {
    &&& forall|num: i64, den: i64, r: T|
        den != 0 && #[trigger] is_ratio(num, den, r) ==> value(r) * (den as real) == num as real
    &&& forall|n: usize, r: T| #[trigger] is_count(n, r) ==> value(r) == n as real
    &&& forall|a: T, b: T, r: T| #[trigger] is_sum(a, b, r) ==> value(r) == value(a) + value(b)
    &&& forall|a: T, b: T, r: T| #[trigger]
        is_difference(a, b, r) ==> value(r) == value(a) - value(b)
    &&& forall|a: T, b: T, r: T| #[trigger] is_product(a, b, r) ==> value(r) == value(a) * value(b)
}

/// Quotients are exact wherever there is one, and depend on the values alone.
pub open spec fn has_exact_quotients<T: Sample>(value: spec_fn(T) -> real) -> bool {
    &&& forall|a: T, b: T, r: T|
        value(b) != 0real && #[trigger] is_quotient(a, b, r) ==> value(r) * value(b) == value(a)
    &&& forall|a1: T, b1: T, r1: T, a2: T, b2: T, r2: T|
        value(a1) == value(a2) && value(b1) == value(b2) && #[trigger] is_quotient(a1, b1, r1)
            && #[trigger] is_quotient(a2, b2, r2) ==> value(r1) == value(r2)
}

/// Comparisons, absolute values and limits go by the values.
pub open spec fn has_exact_order<T: Sample>(value: spec_fn(T) -> real) -> bool {
    &&& forall|a: T, r: T| #[trigger]
        is_magnitude(a, r) ==> value(r) == size_of_real(value(a))
    &&& forall|a: T, b: T, r: T| #[trigger]
        is_larger(a, b, r) ==> value(r) == if value(a) < value(b) {
            value(b)
        } else {
            value(a)
        }
    &&& forall|a: T, low: T, high: T, r: T|
        value(low) <= value(high) && #[trigger] is_clamped(a, low, high, r) ==> value(r)
            == clamp_real(value(a), value(low), value(high))
    &&& forall|a: T, b: T, r: bool| #[trigger]
        call_ensures(T::exceeds, (a, b), r) ==> r == (value(a) > value(b))
    &&& forall|a: T, b: T, r: bool| #[trigger]
        call_ensures(T::at_most, (a, b), r) ==> r == (value(a) <= value(b))
}

/// The number type reckons without rounding.
pub open spec fn is_exact<T: Sample>(value: spec_fn(T) -> real) -> bool {
    has_exact_ring(value) && has_exact_quotients(value) && has_exact_order(value)
}

/// `x`, moved to the nearer end where it lies outside `low ..= high`.
pub open spec fn clamp_real(x: real, low: real, high: real) -> real {
    if x < low {
        low
    } else if x > high {
        high
    } else {
        x
    }
}

/// The size of a number.
pub open spec fn size_of_real(x: real) -> real {
    if x < 0real {
        0real - x
    } else {
        x
    }
}

/// All values lie within `low ..= high`.
pub open spec fn lies_within<T>(
    value: spec_fn(T) -> real,
    image: Plane<T>,
    low: real,
    high: real,
) -> bool {
    forall|r: int, c: int| image.has(r, c) ==> low <= value(#[trigger] image.at(r, c)) <= high
}

/// Both images have the same size and the same values.
pub open spec fn same_values<T>(value: spec_fn(T) -> real, a: Plane<T>, b: Plane<T>) -> bool {
    &&& a.same_size(&b)
    &&& forall|r: int, c: int|
        #![trigger a.at(r, c)]
        #![trigger b.at(r, c)]
        a.has(r, c) ==> value(a.at(r, c)) == value(b.at(r, c))
}

/// Clamping to `0 ..= 1` does that to the value.
pub proof fn lemma_unit_clamp<T: Sample>(value: spec_fn(T) -> real, a: T, r: T)
    requires
        is_exact(value),
        is_unit_clamped(a, r),
    ensures
        value(r) == clamp_real(value(a), 0real, 1real),
{
    let (zero, one) = choose|zero: T, one: T|
        is_ratio(0, 1, zero) && is_ratio(1, 1, one) && #[trigger] is_clamped(a, zero, one, r);
    assert(value(zero) * 1real == 0real);
    assert(value(one) * 1real == 1real);
}

/// The order of factors does not matter.
pub proof fn lemma_commute(x: real, y: real)
    by (nonlinear_arith)
    ensures
        x * y == y * x,
{
}

/// The grouping of factors does not matter.
pub proof fn lemma_regroup(x: real, y: real, z: real)
    by (nonlinear_arith)
    ensures
        x * (y * z) == (x * y) * z,
{
}

/// A product with a sum or a difference, on either side.
pub proof fn lemma_distribute(x: real, y: real, z: real)
    by (nonlinear_arith)
    ensures
        x * (y + z) == x * y + x * z,
        (y + z) * x == y * x + z * x,
        x * (y - z) == x * y - x * z,
        (y - z) * x == y * x - z * x,
{
}

/// The product of positive numbers is positive.
pub proof fn lemma_positive(x: real, y: real)
    by (nonlinear_arith)
    requires
        0real < x,
        0real < y,
    ensures
        0real < x * y,
{
}

/// The product of numbers from zero up is not negative.
pub proof fn lemma_not_negative(x: real, y: real)
    requires
        0real <= x,
        0real <= y,
    ensures
        0real <= x * y,
{
    if 0real < x && 0real < y {
        lemma_positive(x, y);
    } else if x == 0real {
        assert(0real * y == 0real);
    } else {
        assert(x * 0real == 0real);
    }
}

/// A greater factor makes for a greater product.
pub proof fn lemma_scale_order(x: real, y: real, z: real)
    requires
        x <= y,
        0real <= z,
    ensures
        x * z <= y * z,
        z * x <= z * y,
{
    lemma_not_negative(y - x, z);
    lemma_distribute(z, y, x);
    lemma_commute(x, z);
    lemma_commute(y, z);
    lemma_commute(y - x, z);
}

/// A factor other than zero can be cancelled.
pub proof fn lemma_cancel(x: real, y: real, z: real)
    requires
        z != 0real,
        x * z == y * z,
    ensures
        x == y,
{
    if x != y {
        let d = if x < y {
            y - x
        } else {
            x - y
        };
        let u = if z < 0real {
            0real - z
        } else {
            z
        };
        lemma_positive(d, u);
        lemma_distribute(z, x, y);
        lemma_distribute(z, y, x);
        lemma_distribute(d, 0real, z);
        assert(d * 0real == 0real);
        lemma_commute(d, z);
    }
}

/// The product of whole numbers, as real numbers.
pub proof fn lemma_whole_product(n: nat, m: nat)
    ensures
        (n * m) as real == (n as real) * (m as real),
    decreases n,
{
    if n == 0 {
        assert(0 * m == 0);
        assert(0real * (m as real) == 0real);
    } else {
        let k = (n - 1) as nat;
        lemma_whole_product(k, m);
        vstd::arithmetic::mul::lemma_mul_is_distributive_add_other_way(m as int, k as int, 1);
        assert(n * m == k * m + m);
        lemma_distribute(m as real, k as real, 1real);
        assert(n as real == k as real + 1real);
    }
}

} // verus!
