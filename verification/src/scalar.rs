//! Numbers the solver computes with.
//!
//! Every algorithm of this crate is written once, over [`Scalar`], and its contract says which
//! operations it performs, in which order. A caller picks the number type: a wrapper around a
//! hardware float for speed, or [`Fixed`], the fixed-point type of this module, for exact sums.
use vstd::prelude::*;

verus! {

/// A number type. Each operation returns the value of the spec function it is named after, so an
/// operation depends on its operands alone.
pub trait Scalar: Copy + Send + Sync {
    /// The number zero.
    spec fn zero_spec() -> Self;

    /// The number one.
    spec fn one_spec() -> Self;

    /// The number nearest to an unsigned 32-bit integer.
    spec fn from_u32_spec(value: u32) -> Self;

    /// The number nearest to an unsigned 64-bit integer.
    spec fn from_u64_spec(value: u64) -> Self;

    /// The number nearest to a count.
    spec fn from_count_spec(value: usize) -> Self;

    /// A number above every finite one.
    spec fn infinity_spec() -> Self;

    /// Addition.
    spec fn plus_spec(self, other: Self) -> Self;

    /// Subtraction.
    spec fn minus_spec(self, other: Self) -> Self;

    /// Multiplication.
    spec fn times_spec(self, other: Self) -> Self;

    /// Division.
    spec fn over_spec(self, other: Self) -> Self;

    /// Negation.
    spec fn negate_spec(self) -> Self;

    /// The larger of two numbers.
    spec fn max_spec(self, other: Self) -> Self;

    /// The smaller of two numbers.
    spec fn min_spec(self, other: Self) -> Self;

    /// `self > other`.
    spec fn exceeds_spec(self, other: Self) -> bool;

    /// `self >= other`.
    spec fn at_least_spec(self, other: Self) -> bool;

    /// `self == other`.
    spec fn same_spec(self, other: Self) -> bool;

    /// Whether the number is neither infinite nor undefined.
    spec fn is_finite_spec(self) -> bool;

    /// Whether the number is infinite.
    spec fn is_infinite_spec(self) -> bool;

    /// The nearest unsigned 32-bit integer, halves away from zero, out of range to the bound.
    spec fn round_u32_spec(self) -> u32;

    /// The least unsigned 32-bit integer not below the number, out of range to the bound.
    spec fn ceil_u32_spec(self) -> u32;

    /// The root of the given degree.
    spec fn root_spec(self, degree: u8) -> Self;

    /// The number raised to an exponent.
    spec fn power_spec(self, exponent: Self) -> Self;

    /// The natural logarithm.
    spec fn ln_spec(self) -> Self;

    /// The absolute value of the natural logarithm of `left / right`.
    spec fn log_ratio_spec(left: u32, right: u32) -> Self;

    /// A bit pattern that tells numbers apart.
    spec fn bits_spec(self) -> u64;

    /// The place of the number in the order of all numbers.
    spec fn place_spec(self) -> u64;

    fn zero() -> (r: Self)
        ensures
            r == Self::zero_spec(),
    ;

    fn one() -> (r: Self)
        ensures
            r == Self::one_spec(),
    ;

    fn from_u32(value: u32) -> (r: Self)
        ensures
            r == Self::from_u32_spec(value),
    ;

    fn from_u64(value: u64) -> (r: Self)
        ensures
            r == Self::from_u64_spec(value),
    ;

    fn from_count(value: usize) -> (r: Self)
        ensures
            r == Self::from_count_spec(value),
    ;

    fn infinity() -> (r: Self)
        ensures
            r == Self::infinity_spec(),
    ;

    fn plus(self, other: Self) -> (r: Self)
        ensures
            r == self.plus_spec(other),
    ;

    fn minus(self, other: Self) -> (r: Self)
        ensures
            r == self.minus_spec(other),
    ;

    fn times(self, other: Self) -> (r: Self)
        ensures
            r == self.times_spec(other),
    ;

    fn over(self, other: Self) -> (r: Self)
        ensures
            r == self.over_spec(other),
    ;

    fn negate(self) -> (r: Self)
        ensures
            r == self.negate_spec(),
    ;

    fn max_of(self, other: Self) -> (r: Self)
        ensures
            r == self.max_spec(other),
    ;

    fn min_of(self, other: Self) -> (r: Self)
        ensures
            r == self.min_spec(other),
    ;

    fn exceeds(self, other: Self) -> (r: bool)
        ensures
            r == self.exceeds_spec(other),
    ;

    fn at_least(self, other: Self) -> (r: bool)
        ensures
            r == self.at_least_spec(other),
    ;

    fn same(self, other: Self) -> (r: bool)
        ensures
            r == self.same_spec(other),
    ;

    fn is_finite(self) -> (r: bool)
        ensures
            r == self.is_finite_spec(),
    ;

    fn is_infinite(self) -> (r: bool)
        ensures
            r == self.is_infinite_spec(),
    ;

    fn round_u32(self) -> (r: u32)
        ensures
            r == self.round_u32_spec(),
    ;

    fn ceil_u32(self) -> (r: u32)
        ensures
            r == self.ceil_u32_spec(),
    ;

    fn root(self, degree: u8) -> (r: Self)
        ensures
            r == self.root_spec(degree),
    ;

    fn power(self, exponent: Self) -> (r: Self)
        ensures
            r == self.power_spec(exponent),
    ;

    fn ln(self) -> (r: Self)
        ensures
            r == self.ln_spec(),
    ;

    fn log_ratio(left: u32, right: u32) -> (r: Self)
        ensures
            r == Self::log_ratio_spec(left, right),
    ;

    fn bits(self) -> (r: u64)
        ensures
            r == self.bits_spec(),
    ;

    fn place(self) -> (r: u64)
        ensures
            r == self.place_spec(),
    ;

    /// One is finite and not below zero.
    proof fn one_is_positive()
        ensures
            Self::one_spec().is_finite_spec(),
            !Self::zero_spec().exceeds_spec(Self::one_spec()),
    ;

    /// Numbers of one bit pattern are one number.
    proof fn bits_tell_apart(a: Self, b: Self)
        requires
            a.bits_spec() == b.bits_spec(),
        ensures
            a == b,
    ;
}

/// A number type whose sums do not depend on the order of the summands. What the fast algorithms
/// of this crate compute equals what the direct ones compute over every such type.
pub trait ExactScalar: Scalar {
    proof fn plus_commutes(a: Self, b: Self)
        ensures
            a.plus_spec(b) == b.plus_spec(a),
    ;

    proof fn plus_associates(a: Self, b: Self, c: Self)
        ensures
            a.plus_spec(b).plus_spec(c) == a.plus_spec(b.plus_spec(c)),
    ;

    proof fn plus_zero(a: Self)
        ensures
            a.plus_spec(Self::zero_spec()) == a,
    ;

    proof fn plus_negation(a: Self)
        ensures
            a.plus_spec(a.negate_spec()) == Self::zero_spec(),
    ;

    proof fn minus_is_plus_negation(a: Self, b: Self)
        ensures
            a.minus_spec(b) == a.plus_spec(b.negate_spec()),
    ;

    proof fn times_unit(a: Self)
        ensures
            a.times_spec(Self::one_spec()) == a,
            a.times_spec(Self::zero_spec()) == Self::zero_spec(),
            a.times_spec(Self::one_spec().negate_spec()) == a.negate_spec(),
    ;

    proof fn same_is_equality(a: Self, b: Self)
        ensures
            a.same_spec(b) == (a == b),
    ;
}

/// The quotient of two integers as a number.
pub open spec fn ratio_spec<S: Scalar>(numerator: u32, denominator: u32) -> S {
    S::from_u32_spec(numerator).over_spec(S::from_u32_spec(denominator))
}

/// The quotient of two integers as a number.
pub fn ratio<S: Scalar>(numerator: u32, denominator: u32) -> (r: S)
    ensures
        r == ratio_spec::<S>(numerator, denominator),
{
    S::from_u32(numerator).over(S::from_u32(denominator))
}

/// The sum of a sequence, taken from the front.
pub open spec fn sum_spec<S: Scalar>(values: Seq<S>) -> S
    decreases values.len(),
{
    if values.len() == 0 {
        S::zero_spec()
    } else {
        sum_spec(values.drop_last()).plus_spec(values.last())
    }
}

/// The sum of a slice, taken from the front.
pub fn sum<S: Scalar>(values: &[S]) -> (r: S)
    ensures
        r == sum_spec(values@),
{
    let mut acc: S = S::zero();
    for i in 0..values.len()
        invariant
            acc == sum_spec(values@.take(i as int)),
    {
        proof {
            assert(values@.take(i + 1).drop_last() =~= values@.take(i as int));
        }
        acc = acc.plus(values[i]);
    }
    proof {
        assert(values@.take(values.len() as int) =~= values@);
    }
    acc
}

} // verus!
