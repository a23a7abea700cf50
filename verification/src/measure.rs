//! Numbers that count steps: what their sums, products, quotients and comparisons are, in whole numbers.
use vstd::prelude::*;
use crate::fixed::{wrap, Fixed, ONE_RAW};
use crate::scalar::ExactScalar;

verus! {

/// A number type whose numbers are whole numbers of steps. Sums and differences are exact up to a limit;
/// products and quotients are rounded down to a step.
pub trait MeasuredScalar: ExactScalar {
    /// How many steps the number is.
    spec fn steps(self) -> int;

    /// How many steps make one.
    spec fn unit() -> int;

    /// The most steps that are counted, on either side of zero.
    spec fn limit() -> int;

    /// Numbers are ordered as their steps are.
    proof fn measured_order(a: Self, b: Self)
        ensures
            a.at_least_spec(b) == (a.steps() >= b.steps()),
            a.exceeds_spec(b) == (a.steps() > b.steps()),
            a.same_spec(b) == (a.steps() == b.steps()),
            a.steps() == b.steps() ==> a == b,
            a.max_spec(b) == (if a.steps() >= b.steps() {
                a
            } else {
                b
            }),
            a.min_spec(b) == (if a.steps() <= b.steps() {
                a
            } else {
                b
            }),
            a.place_spec() > b.place_spec() <==> a.steps() > b.steps(),
    ;

    /// Zero is no step, and one is a unit of them.
    proof fn measured_units()
        ensures
            Self::zero_spec().steps() == 0,
            Self::one_spec().steps() == Self::unit(),
            2 <= Self::unit(),
            Self::unit() % 2 == 0,
            Self::unit() * 0x1_0000_0000 <= Self::limit(),
    ;

    /// Sums and differences add up up to the limit.
    proof fn measured_sum(a: Self, b: Self)
        ensures
            -Self::limit() <= a.steps() + b.steps() <= Self::limit() ==> a.plus_spec(b).steps()
                == a.steps() + b.steps(),
            -Self::limit() <= a.steps() - b.steps() <= Self::limit() ==> a.minus_spec(b).steps()
                == a.steps() - b.steps(),
            -Self::limit() <= a.steps() <= Self::limit() ==> a.negate_spec().steps() == -a.steps(),
    ;

    /// Products are rounded down to a step.
    proof fn measured_product(a: Self, b: Self)
        ensures
            -Self::limit() <= (a.steps() * b.steps()) / Self::unit() <= Self::limit()
                ==> a.times_spec(b).steps() == (a.steps() * b.steps()) / Self::unit(),
    ;

    /// Quotients are rounded down to a step.
    proof fn measured_quotient(a: Self, b: Self)
        ensures
            b.steps() > 0 && -Self::limit() <= (a.steps() * Self::unit()) / b.steps() <= Self::limit()
                ==> a.over_spec(b).steps() == (a.steps() * Self::unit()) / b.steps(),
    ;

    /// A whole number is so many units.
    proof fn measured_counts(value: u32, count: usize)
        ensures
            Self::from_u32_spec(value).steps() == value * Self::unit(),
            count * Self::unit() <= Self::limit() ==> Self::from_count_spec(count).steps() == count
                * Self::unit(),
    ;

    /// A number is rounded to the nearest whole number, a half up, and to no less than zero and no more than is
    /// counted.
    proof fn measured_rounding(a: Self)
        ensures
            a.steps() < 0 ==> a.round_u32_spec() == 0,
            0 <= a.steps() && (2 * a.steps() + Self::unit()) / (2 * Self::unit()) <= u32::MAX
                ==> a.round_u32_spec() == (2 * a.steps() + Self::unit()) / (2 * Self::unit()),
            a.steps() >= 0 && (2 * a.steps() + Self::unit()) / (2 * Self::unit()) > u32::MAX
                ==> a.round_u32_spec() == u32::MAX,
    ;

    /// A number is rounded up to a whole number in the same way.
    proof fn measured_ceiling(a: Self)
        ensures
            a.steps() <= 0 ==> a.ceil_u32_spec() == 0,
            a.steps() > 0 && (a.steps() + Self::unit() - 1) / Self::unit() <= u32::MAX
                ==> a.ceil_u32_spec() == (a.steps() + Self::unit() - 1) / Self::unit(),
    ;

    /// A number is its own first root.
    proof fn measured_first_root(a: Self)
        ensures
            a.root_spec(1) == a,
    ;
}

proof fn lemma_wrap_inside(value: int)
    requires
        -0x8000_0000_0000_0000 <= value < 0x8000_0000_0000_0000,
    ensures
        wrap(value) == value,
{
}

impl MeasuredScalar for Fixed {
    open spec fn steps(self) -> int {
        self.raw as int
    }

    open spec fn unit() -> int {
        ONE_RAW as int
    }

    open spec fn limit() -> int {
        0x7fff_ffff_ffff_ffff
    }

    proof fn measured_order(a: Self, b: Self) {
    }

    proof fn measured_units() {
    }

    proof fn measured_sum(a: Self, b: Self) {
        if -Self::limit() <= a.steps() + b.steps() <= Self::limit() {
            lemma_wrap_inside(a.steps() + b.steps());
        }
        if -Self::limit() <= a.steps() - b.steps() <= Self::limit() {
            lemma_wrap_inside(a.steps() - b.steps());
        }
        if -Self::limit() <= a.steps() {
            lemma_wrap_inside(-a.steps());
        }
    }

    proof fn measured_product(a: Self, b: Self) {
        let product = (a.steps() * b.steps()) / Self::unit();
        if -Self::limit() <= product <= Self::limit() {
            lemma_wrap_inside(product);
        }
    }

    proof fn measured_quotient(a: Self, b: Self) {
        if b.steps() > 0 {
            let quotient = (a.steps() * Self::unit()) / b.steps();
            if -Self::limit() <= quotient <= Self::limit() {
                lemma_wrap_inside(quotient);
            }
        }
    }

    proof fn measured_counts(value: u32, count: usize) {
        if count * Self::unit() <= Self::limit() {
            lemma_wrap_inside(count * Self::unit());
        }
    }

    proof fn measured_rounding(a: Self) {
        let raw = a.raw as int;
        let doubled = 2 * raw + 65536;
        assert(2 * Self::unit() == 131072);
        assert(doubled / (2 * Self::unit()) == doubled / 131072);
        assert(doubled / 131072 == (raw + 32768) / 65536);
    }

    proof fn measured_ceiling(a: Self) {
        let raw = a.raw as int;
        assert(Self::unit() == 65536);
        assert((raw + Self::unit() - 1) / Self::unit() == (raw + 65535) / 65536);
    }

    proof fn measured_first_root(a: Self) {
    }
}

/// Whether so many steps are counted.
pub open spec fn counted<S: MeasuredScalar>(steps: int) -> bool {
    -S::limit() <= steps <= S::limit()
}

/// What two numbers make, in steps.
pub proof fn pair_in_steps<S: MeasuredScalar>(a: S, b: S)
    ensures
        a.at_least_spec(b) == (a.steps() >= b.steps()),
        a.exceeds_spec(b) == (a.steps() > b.steps()),
        a.steps() == b.steps() ==> a == b,
        a.max_spec(b) == (if a.steps() >= b.steps() {
            a
        } else {
            b
        }),
        counted::<S>(a.steps() + b.steps()) ==> a.plus_spec(b).steps() == a.steps() + b.steps(),
        counted::<S>(a.steps() - b.steps()) ==> a.minus_spec(b).steps() == a.steps() - b.steps(),
        counted::<S>(a.steps()) ==> a.negate_spec().steps() == -a.steps(),
        counted::<S>((a.steps() * b.steps()) / S::unit()) ==> a.times_spec(b).steps() == (a.steps()
            * b.steps()) / S::unit(),
        b.steps() > 0 && counted::<S>((a.steps() * S::unit()) / b.steps()) ==> a.over_spec(b).steps()
            == (a.steps() * S::unit()) / b.steps(),
        S::zero_spec().steps() == 0,
        S::one_spec().steps() == S::unit(),
        2 <= S::unit(),
        S::unit() * 0x1_0000_0000 <= S::limit(),
{
    S::measured_order(a, b);
    S::measured_units();
    S::measured_sum(a, b);
    S::measured_product(a, b);
    S::measured_quotient(a, b);
}

/// A product with a number from zero to one keeps its sign and is no larger than the other factor.
pub proof fn share_in_steps<S: MeasuredScalar>(share: S, value: S)
    requires
        0 <= share.steps() <= S::unit(),
        counted::<S>(value.steps()),
    ensures
        share.times_spec(value).steps() == (share.steps() * value.steps()) / S::unit(),
        value.times_spec(share) == share.times_spec(value),
        value.steps() >= 0 ==> 0 <= share.times_spec(value).steps() <= value.steps(),
        value.steps() <= 0 ==> value.steps() <= share.times_spec(value).steps() <= 0,
        share.steps() == 0 ==> share.times_spec(value).steps() == 0,
        share.steps() == S::unit() ==> share.times_spec(value).steps() == value.steps(),
{
    S::measured_units();
    let p = share.steps();
    let v = value.steps();
    let u = S::unit();
    let q = (p * v) / u;
    vstd::arithmetic::div_mod::lemma_fundamental_div_mod(p * v, u);
    let rest = (p * v) % u;
    assert(v >= 0 ==> 0 <= q <= v) by (nonlinear_arith)
        requires
            0 <= p <= u,
            u >= 2,
            p * v == u * q + rest,
            0 <= rest < u,
    ;
    assert(v <= 0 ==> v <= q <= 0) by (nonlinear_arith)
        requires
            0 <= p <= u,
            u >= 2,
            p * v == u * q + rest,
            0 <= rest < u,
    ;
    assert(p == u ==> q == v) by (nonlinear_arith)
        requires
            u >= 2,
            p * v == u * q + rest,
            0 <= rest < u,
    ;
    assert(p == 0 ==> q == 0) by (nonlinear_arith)
        requires
            u >= 2,
            p * v == u * q + rest,
            0 <= rest < u,
    ;
    assert(v * p == p * v) by (nonlinear_arith);
    S::measured_product(share, value);
    S::measured_product(value, share);
    S::measured_order(value.times_spec(share), share.times_spec(value));
}

/// A product with a number that is not below zero keeps the order of the other factor.
pub proof fn products_keep_order<S: MeasuredScalar>(factor: S, a: S, b: S)
    requires
        factor.steps() >= 0,
        a.steps() <= b.steps(),
        counted::<S>((factor.steps() * a.steps()) / S::unit()),
        counted::<S>((factor.steps() * b.steps()) / S::unit()),
    ensures
        factor.times_spec(a).steps() <= factor.times_spec(b).steps(),
        factor.times_spec(a).steps() == (factor.steps() * a.steps()) / S::unit(),
        factor.times_spec(b).steps() == (factor.steps() * b.steps()) / S::unit(),
        a.steps() >= 0 ==> factor.times_spec(a).steps() >= 0,
        b.steps() <= 0 ==> factor.times_spec(b).steps() <= 0,
{
    S::measured_units();
    S::measured_product(factor, a);
    S::measured_product(factor, b);
    let f = factor.steps();
    let u = S::unit();
    assert(f * a.steps() <= f * b.steps()) by (nonlinear_arith)
        requires
            f >= 0,
            a.steps() <= b.steps(),
    ;
    vstd::arithmetic::div_mod::lemma_div_is_ordered(f * a.steps(), f * b.steps(), u);
    assert(a.steps() >= 0 ==> f * a.steps() >= 0) by (nonlinear_arith)
        requires
            f >= 0,
    ;
    assert(b.steps() <= 0 ==> f * b.steps() <= 0) by (nonlinear_arith)
        requires
            f >= 0,
    ;
    if a.steps() >= 0 {
        vstd::arithmetic::div_mod::lemma_div_is_ordered(0, f * a.steps(), u);
        assert(0int / u == 0) by {
            vstd::arithmetic::div_mod::lemma_div_basics(u);
        }
    }
    if b.steps() <= 0 {
        vstd::arithmetic::div_mod::lemma_div_is_ordered(f * b.steps(), 0, u);
        assert(0int / u == 0) by {
            vstd::arithmetic::div_mod::lemma_div_basics(u);
        }
    }
}

} // verus!
