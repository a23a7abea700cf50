//! Bounded integer arithmetic.
use vstd::prelude::*;

verus! {

/// The value, or the largest `u32` if it is larger.
pub open spec fn capped(value: int) -> int {
    if value > u32::MAX {
        u32::MAX as int
    } else {
        value
    }
}

/// The difference, or zero if it is negative.
pub open spec fn floored(value: int) -> int {
    if value < 0 {
        0
    } else {
        value
    }
}

/// The smaller of two integers.
pub open spec fn lesser(a: int, b: int) -> int {
    if a <= b {
        a
    } else {
        b
    }
}

/// The larger of two integers.
pub open spec fn greater(a: int, b: int) -> int {
    if a >= b {
        a
    } else {
        b
    }
}

/// The product, or the largest `u32` if it is larger.
pub fn capped_product(a: u32, b: u32) -> (r: u32)
    ensures
        r == capped(a * b),
{
    proof {
        assert(a * b <= 0xffff_ffff * 0xffff_ffff) by (nonlinear_arith)
            requires
                0 <= a <= 0xffff_ffff,
                0 <= b <= 0xffff_ffff,
        ;
    }
    let product: u64 = (a as u64) * (b as u64);
    if product > u32::MAX as u64 {
        u32::MAX
    } else {
        product as u32
    }
}

/// The smaller of two integers.
pub fn min_u32(a: u32, b: u32) -> (r: u32)
    ensures
        r == lesser(a as int, b as int),
{
    if a <= b {
        a
    } else {
        b
    }
}

/// The larger of two integers.
pub fn max_u32(a: u32, b: u32) -> (r: u32)
    ensures
        r == greater(a as int, b as int),
{
    if a >= b {
        a
    } else {
        b
    }
}

/// The smaller of two integers.
pub fn min_usize(a: usize, b: usize) -> (r: usize)
    ensures
        r == lesser(a as int, b as int),
{
    if a <= b {
        a
    } else {
        b
    }
}

/// The larger of two integers.
pub fn max_usize(a: usize, b: usize) -> (r: usize)
    ensures
        r == greater(a as int, b as int),
{
    if a >= b {
        a
    } else {
        b
    }
}

/// The quotient rounded up.
pub open spec fn ceil_quotient(value: int, divisor: int) -> int {
    if value == 0 {
        0
    } else {
        (value - 1) / divisor + 1
    }
}

/// The least count of parts of at most the given size that hold the value.
pub proof fn ceil_quotient_is_least(value: int, divisor: int)
    requires
        value >= 0,
        divisor > 0,
    ensures
        ceil_quotient(value, divisor) * divisor >= value,
        value > 0 ==> (ceil_quotient(value, divisor) - 1) * divisor < value,
        ceil_quotient(value, divisor) >= 0,
        ceil_quotient(value, divisor) <= value,
{
    if value > 0 {
        let q = (value - 1) / divisor;
        vstd::arithmetic::div_mod::lemma_fundamental_div_mod(value - 1, divisor);
        vstd::arithmetic::div_mod::lemma_div_pos_is_pos(value - 1, divisor);
        vstd::arithmetic::div_mod::lemma_div_is_ordered_by_denominator(value - 1, 1, divisor);
        assert((q + 1) * divisor == divisor * q + divisor) by (nonlinear_arith);
        assert(q * divisor == divisor * q) by (nonlinear_arith);
    }
}

/// The quotient rounded up.
pub fn ceil_quotient_usize(value: usize, divisor: usize) -> (r: usize)
    requires
        divisor > 0,
    ensures
        r == ceil_quotient(value as int, divisor as int),
        r <= value,
{
    proof {
        ceil_quotient_is_least(value as int, divisor as int);
    }
    if value == 0 {
        0
    } else {
        (value - 1) / divisor + 1
    }
}

/// A count, or the largest number if it is larger.
pub open spec fn bounded(value: int) -> int {
    if value > usize::MAX {
        usize::MAX as int
    } else {
        value
    }
}

/// The sum, or the largest number if it is larger.
pub fn bounded_sum(a: usize, b: usize) -> (r: usize)
    ensures
        r == bounded(a + b),
{
    a.saturating_add(b)
}

/// The product, or the largest number if it is larger.
pub fn bounded_product(a: usize, b: usize) -> (r: usize)
    ensures
        r == bounded(a * b),
{
    proof {
        assert(a * b <= 0xffff_ffff_ffff_ffff * 0xffff_ffff_ffff_ffff) by (nonlinear_arith)
            requires
                0 <= a <= 0xffff_ffff_ffff_ffff,
                0 <= b <= 0xffff_ffff_ffff_ffff,
        ;
    }
    let product: u128 = (a as u128) * (b as u128);
    if product > usize::MAX as u128 {
        usize::MAX
    } else {
        product as usize
    }
}

} // verus!
