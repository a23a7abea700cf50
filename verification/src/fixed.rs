//! Fixed-point numbers.
use vstd::prelude::*;
use crate::scalar::{ExactScalar, Scalar};

verus! {

/// A signed number with sixteen bits after the point. Sums and differences wrap around, so they do
/// not depend on the order in which they are taken. The two extreme bit patterns stand for an
/// undefined and an infinite number.
#[derive(Clone, Copy, Debug, PartialEq, Eq, PartialOrd, Ord, Hash, Structural)]
pub struct Fixed {
    pub raw: i64,
}

/// How many steps of a [`Fixed`] make one.
pub const ONE_RAW: i64 = 65536;

/// The 64-bit integer congruent to `value`.
pub open spec fn wrap(value: int) -> int {
    (value + 0x8000_0000_0000_0000) % 0x1_0000_0000_0000_0000 - 0x8000_0000_0000_0000
}

/// [`wrap`] on machine integers.
fn wrap_i128(value: i128) -> (r: i64)
    requires
        -0x1000_0000_0000_0000_0000_0000_0000_0000 <= value
            <= 0x1000_0000_0000_0000_0000_0000_0000_0000,
    ensures
        r == wrap(value as int),
{
    let modulus: i128 = 0x1_0000_0000_0000_0000;
    let half: i128 = 0x8000_0000_0000_0000;
    let shifted: i128 = value + half;
    let rest: i128 = if shifted >= 0 {
        shifted % modulus
    } else {
        let back: i128 = (-shifted) % modulus;
        if back == 0 {
            0
        } else {
            modulus - back
        }
    };
    proof {
        if shifted < 0 {
            let q: int = (-shifted as int) / (modulus as int);
            let back: int = (-shifted as int) % (modulus as int);
            if back == 0 {
                vstd::arithmetic::div_mod::lemma_fundamental_div_mod_converse(
                    shifted as int,
                    modulus as int,
                    -q,
                    0,
                );
            } else {
                vstd::arithmetic::div_mod::lemma_fundamental_div_mod_converse(
                    shifted as int,
                    modulus as int,
                    -q - 1,
                    modulus - back,
                );
            }
        }
    }
    (rest - half) as i64
}

/// Floor division of machine integers by a positive divisor.
fn floor_div(value: i128, divisor: i128) -> (r: i128)
    requires
        0 < divisor,
        -0x4000_0000_0000_0000_0000_0000_0000_0000 <= value
            <= 0x4000_0000_0000_0000_0000_0000_0000_0000,
        divisor <= 0x1_0000_0000_0000_0000,
    ensures
        r == value as int / divisor as int,
{
    if value >= 0 {
        value / divisor
    } else {
        let up: i128 = -value + (divisor - 1);
        let q: i128 = up / divisor;
        proof {
            let rest: int = up as int % divisor as int;
            assert(up == divisor * q + rest) by {
                vstd::arithmetic::div_mod::lemma_fundamental_div_mod(up as int, divisor as int);
            }
            assert(value == (-q) * divisor + (divisor - 1 - rest)) by (nonlinear_arith)
                requires
                    up == divisor * q + rest,
                    up == -value + (divisor - 1),
            ;
            vstd::arithmetic::div_mod::lemma_fundamental_div_mod_converse(
                value as int,
                divisor as int,
                -q as int,
                divisor - 1 - rest,
            );
            assert(q <= up) by (nonlinear_arith)
                requires
                    up == divisor * q + rest,
                    rest >= 0,
                    divisor >= 1,
                    q >= 0,
            ;
        }
        -q
    }
}

/// The number of binary digits of `value`.
pub open spec fn bit_length(value: nat) -> nat
    decreases value,
{
    if value == 0 {
        0
    } else {
        1 + bit_length(value / 2)
    }
}

fn bit_length_of(value: u64) -> (r: u32)
    ensures
        r == bit_length(value as nat),
        r <= 64,
{
    let mut rest: u64 = value;
    let mut digits: u32 = 0;
    let ghost mut top: int = 0x1_0000_0000_0000_0000;
    proof {
        vstd::arithmetic::power2::lemma2_to64();
    }
    while rest > 0
        invariant
            digits + bit_length(rest as nat) == bit_length(value as nat),
            rest < top,
            digits <= 64,
            top == vstd::arithmetic::power2::pow2((64 - digits) as nat),
        decreases rest,
    {
        proof {
            if digits == 64 {
                vstd::arithmetic::power2::lemma2_to64();
                assert(false);
            }
            vstd::arithmetic::power2::lemma_pow2_unfold((64 - digits) as nat);
            top = top / 2;
        }
        rest = rest / 2;
        digits = digits + 1;
    }
    digits
}

/// The largest whole number up to `bound` whose power of the given degree is at most `value`.
pub open spec fn root_below(value: nat, degree: nat, bound: nat) -> nat
    decreases bound,
{
    if bound == 0 || vstd::arithmetic::power::pow(bound as int, degree) <= value {
        bound
    } else {
        root_below(value, degree, (bound - 1) as nat)
    }
}

/// The largest bound the search for a whole root starts from.
pub const ROOT_BOUND: u64 = 16777216;

fn power_is_at_most(base: u64, degree: u8, value: u64) -> (r: bool)
    requires
        1 <= base <= ROOT_BOUND,
        value >= 1,
    ensures
        r == (vstd::arithmetic::power::pow(base as int, degree as nat) <= value),
{
    let mut product: u128 = 1;
    let mut i: u8 = 0;
    proof {
        vstd::arithmetic::power::lemma_pow0(base as int);
    }
    while i < degree
        invariant
            i <= degree,
            product == vstd::arithmetic::power::pow(base as int, i as nat),
            product <= value,
            1 <= base <= ROOT_BOUND,
        decreases degree - i,
    {
        proof {
            vstd::arithmetic::power::lemma_pow_adds(base as int, i as nat, 1);
            vstd::arithmetic::power::lemma_pow1(base as int);
            assert(product * base <= 0xffff_ffff_ffff_ffff * 16777216) by (nonlinear_arith)
                requires
                    0 <= product <= 0xffff_ffff_ffff_ffff,
                    0 <= base <= 16777216,
            ;
        }
        product = product * (base as u128);
        i = i + 1;
        if product > value as u128 {
            proof {
                vstd::arithmetic::power::lemma_pow_increases(base as nat, i as nat, degree as nat);
            }
            return false;
        }
    }
    true
}

fn whole_root(value: u64, degree: u8) -> (r: u64)
    requires
        value >= 1,
    ensures
        r == root_below(value as nat, degree as nat, ROOT_BOUND as nat),
        r <= ROOT_BOUND,
{
    let mut bound: u64 = ROOT_BOUND;
    while bound > 0
        invariant
            bound <= ROOT_BOUND,
            value >= 1,
            root_below(value as nat, degree as nat, ROOT_BOUND as nat) == root_below(
                value as nat,
                degree as nat,
                bound as nat,
            ),
        decreases bound,
    {
        if power_is_at_most(bound, degree, value) {
            return bound;
        }
        bound = bound - 1;
    }
    bound
}

impl Fixed {
    /// The product of so many factors.
    pub open spec fn whole_power(self, n: nat) -> Self
        decreases n,
    {
        if n == 0 {
            Fixed { raw: ONE_RAW }
        } else {
            self.whole_power((n - 1) as nat).times_spec(self)
        }
    }
}

impl Scalar for Fixed {
    open spec fn zero_spec() -> Self {
        Fixed { raw: 0 }
    }

    open spec fn one_spec() -> Self {
        Fixed { raw: ONE_RAW }
    }

    open spec fn from_u32_spec(value: u32) -> Self {
        Fixed { raw: (value * ONE_RAW) as i64 }
    }

    open spec fn from_u64_spec(value: u64) -> Self {
        Fixed { raw: wrap(value * ONE_RAW) as i64 }
    }

    open spec fn from_count_spec(value: usize) -> Self {
        Fixed { raw: wrap(value * ONE_RAW) as i64 }
    }

    open spec fn infinity_spec() -> Self {
        Fixed { raw: i64::MAX }
    }

    open spec fn plus_spec(self, other: Self) -> Self {
        Fixed { raw: wrap(self.raw + other.raw) as i64 }
    }

    open spec fn minus_spec(self, other: Self) -> Self {
        Fixed { raw: wrap(self.raw - other.raw) as i64 }
    }

    open spec fn times_spec(self, other: Self) -> Self {
        Fixed { raw: wrap((self.raw * other.raw) / (ONE_RAW as int)) as i64 }
    }

    open spec fn over_spec(self, other: Self) -> Self {
        if other.raw == 0 {
            Fixed { raw: i64::MIN }
        } else if other.raw > 0 {
            Fixed { raw: wrap((self.raw * ONE_RAW) / (other.raw as int)) as i64 }
        } else {
            Fixed { raw: wrap((-self.raw * ONE_RAW) / (-other.raw)) as i64 }
        }
    }

    open spec fn negate_spec(self) -> Self {
        Fixed { raw: wrap(-self.raw) as i64 }
    }

    open spec fn max_spec(self, other: Self) -> Self {
        if self.raw >= other.raw {
            self
        } else {
            other
        }
    }

    open spec fn min_spec(self, other: Self) -> Self {
        if self.raw <= other.raw {
            self
        } else {
            other
        }
    }

    open spec fn exceeds_spec(self, other: Self) -> bool {
        self.raw > other.raw
    }

    open spec fn at_least_spec(self, other: Self) -> bool {
        self.raw >= other.raw
    }

    open spec fn same_spec(self, other: Self) -> bool {
        self.raw == other.raw
    }

    open spec fn is_finite_spec(self) -> bool {
        self.raw != i64::MIN && self.raw != i64::MAX
    }

    open spec fn is_infinite_spec(self) -> bool {
        self.raw == i64::MAX
    }

    open spec fn round_u32_spec(self) -> u32 {
        if self.raw < 0 {
            0
        } else if (self.raw + 32768) / 65536 > u32::MAX {
            u32::MAX
        } else {
            ((self.raw + 32768) / 65536) as u32
        }
    }

    open spec fn ceil_u32_spec(self) -> u32 {
        if self.raw <= 0 {
            0
        } else if (self.raw + 65535) / 65536 > u32::MAX {
            u32::MAX
        } else {
            ((self.raw + 65535) / 65536) as u32
        }
    }

    open spec fn root_spec(self, degree: u8) -> Self {
        if degree <= 1 || self.raw < ONE_RAW {
            self
        } else {
            Fixed {
                raw: (root_below(
                    (self.raw as int / ONE_RAW as int) as nat,
                    degree as nat,
                    ROOT_BOUND as nat,
                ) * ONE_RAW) as i64,
            }
        }
    }

    /// The product of as many factors as the exponent has whole ones, at most sixty-four.
    open spec fn power_spec(self, exponent: Self) -> Self {
        self.whole_power(
            (if exponent.raw <= 0 {
                0int
            } else if exponent.raw as int / ONE_RAW as int > 64 {
                64
            } else {
                exponent.raw as int / ONE_RAW as int
            }) as nat,
        )
    }

    /// The logarithm by binary digits: that of the largest power of two up to the number.
    open spec fn ln_spec(self) -> Self {
        if self.raw <= 0 {
            Fixed { raw: i64::MIN }
        } else {
            Fixed { raw: ((bit_length(self.raw as nat) - 17) * 45426) as i64 }
        }
    }

    open spec fn log_ratio_spec(left: u32, right: u32) -> Self {
        let l = bit_length(left as nat);
        let r = bit_length(right as nat);
        Fixed { raw: (if l >= r { (l - r) * 45426 } else { (r - l) * 45426 }) as i64 }
    }

    open spec fn bits_spec(self) -> u64 {
        (if self.raw >= 0 { self.raw as int } else { self.raw + 0x1_0000_0000_0000_0000 }) as u64
    }

    open spec fn place_spec(self) -> u64 {
        (self.raw + 0x8000_0000_0000_0000) as u64
    }

    fn zero() -> (r: Self) {
        Fixed { raw: 0 }
    }

    fn one() -> (r: Self) {
        Fixed { raw: ONE_RAW }
    }

    fn from_u32(value: u32) -> (r: Self) {
        Fixed { raw: (value as i64) * ONE_RAW }
    }

    fn from_u64(value: u64) -> (r: Self) {
        Fixed { raw: wrap_i128((value as i128) * 65536) }
    }

    fn from_count(value: usize) -> (r: Self) {
        Fixed { raw: wrap_i128((value as i128) * 65536) }
    }

    fn infinity() -> (r: Self) {
        Fixed { raw: i64::MAX }
    }

    fn plus(self, other: Self) -> (r: Self) {
        Fixed { raw: wrap_i128(self.raw as i128 + other.raw as i128) }
    }

    fn minus(self, other: Self) -> (r: Self) {
        Fixed { raw: wrap_i128(self.raw as i128 - other.raw as i128) }
    }

    fn times(self, other: Self) -> (r: Self) {
        proof {
            lemma_product_bound(self.raw as int, other.raw as int);
        }
        let product: i128 = (self.raw as i128) * (other.raw as i128);
        Fixed { raw: wrap_i128(floor_div(product, 65536)) }
    }

    fn over(self, other: Self) -> (r: Self) {
        if other.raw == 0 {
            return Fixed { raw: i64::MIN };
        }
        let divisor: i128 = if other.raw > 0 { other.raw as i128 } else { -(other.raw as i128) };
        let scaled: i128 = if other.raw > 0 {
            (self.raw as i128) * 65536
        } else {
            (-(self.raw as i128)) * 65536
        };
        let quotient: i128 = floor_div(scaled, divisor);
        proof {
            let q: int = scaled as int / divisor as int;
            vstd::arithmetic::div_mod::lemma_fundamental_div_mod(scaled as int, divisor as int);
            assert(-0x1_0000_0000_0000_0000_0000 <= q <= 0x1_0000_0000_0000_0000_0000)
                by (nonlinear_arith)
                requires
                    scaled == divisor * q + (scaled as int % divisor as int),
                    0 <= (scaled as int % divisor as int) < divisor,
                    divisor >= 1,
                    -0x8000_0000_0000_0000_0000 <= scaled <= 0x8000_0000_0000_0000_0000,
            ;
        }
        Fixed { raw: wrap_i128(quotient) }
    }

    fn negate(self) -> (r: Self) {
        Fixed { raw: wrap_i128(-(self.raw as i128)) }
    }

    fn max_of(self, other: Self) -> (r: Self) {
        if self.raw >= other.raw {
            self
        } else {
            other
        }
    }

    fn min_of(self, other: Self) -> (r: Self) {
        if self.raw <= other.raw {
            self
        } else {
            other
        }
    }

    fn exceeds(self, other: Self) -> (r: bool) {
        self.raw > other.raw
    }

    fn at_least(self, other: Self) -> (r: bool) {
        self.raw >= other.raw
    }

    fn same(self, other: Self) -> (r: bool) {
        self.raw == other.raw
    }

    fn is_finite(self) -> (r: bool) {
        self.raw != i64::MIN && self.raw != i64::MAX
    }

    fn is_infinite(self) -> (r: bool) {
        self.raw == i64::MAX
    }

    fn round_u32(self) -> (r: u32) {
        if self.raw < 0 {
            return 0;
        }
        let whole: u64 = (self.raw as u64 + 32768) / 65536;
        if whole > u32::MAX as u64 {
            u32::MAX
        } else {
            whole as u32
        }
    }

    fn ceil_u32(self) -> (r: u32) {
        if self.raw <= 0 {
            return 0;
        }
        let whole: u64 = (self.raw as u64 + 65535) / 65536;
        if whole > u32::MAX as u64 {
            u32::MAX
        } else {
            whole as u32
        }
    }

    fn root(self, degree: u8) -> (r: Self) {
        if degree <= 1 || self.raw < ONE_RAW {
            return self;
        }
        Fixed { raw: (whole_root((self.raw as u64) / 65536, degree) as i64) * ONE_RAW }
    }

    fn power(self, exponent: Self) -> (r: Self) {
        let whole: i64 = if exponent.raw <= 0 {
            0
        } else if exponent.raw / ONE_RAW > 64 {
            64
        } else {
            exponent.raw / ONE_RAW
        };
        let mut product: Fixed = Fixed { raw: ONE_RAW };
        for i in 0..whole
            invariant
                product == self.whole_power(i as nat),
        {
            product = product.times(self);
        }
        product
    }

    fn ln(self) -> (r: Self) {
        if self.raw <= 0 {
            Fixed { raw: i64::MIN }
        } else {
            let digits: u32 = bit_length_of(self.raw as u64);
            Fixed { raw: (digits as i64 - 17) * 45426 }
        }
    }

    fn log_ratio(left: u32, right: u32) -> (r: Self) {
        let l: u32 = bit_length_of(left as u64);
        let r: u32 = bit_length_of(right as u64);
        if l >= r {
            Fixed { raw: (l - r) as i64 * 45426 }
        } else {
            Fixed { raw: (r - l) as i64 * 45426 }
        }
    }

    fn bits(self) -> (r: u64) {
        if self.raw >= 0 {
            self.raw as u64
        } else {
            (self.raw as i128 + 0x1_0000_0000_0000_0000) as u64
        }
    }

    fn place(self) -> (r: u64) {
        (self.raw as i128 + 0x8000_0000_0000_0000) as u64
    }

    proof fn one_is_positive() {
    }

    proof fn bits_tell_apart(a: Self, b: Self) {
    }
}

proof fn lemma_product_bound(a: int, b: int)
    requires
        -0x8000_0000_0000_0000 <= a <= 0x8000_0000_0000_0000,
        -0x8000_0000_0000_0000 <= b <= 0x8000_0000_0000_0000,
    ensures
        -0x4000_0000_0000_0000_0000_0000_0000_0000 <= a * b
            <= 0x4000_0000_0000_0000_0000_0000_0000_0000,
{
    assert(-0x8000_0000_0000_0000 * 0x8000_0000_0000_0000 <= a * b <= 0x8000_0000_0000_0000
        * 0x8000_0000_0000_0000) by (nonlinear_arith)
        requires
            -0x8000_0000_0000_0000 <= a <= 0x8000_0000_0000_0000,
            -0x8000_0000_0000_0000 <= b <= 0x8000_0000_0000_0000,
    ;
}

/// Wrapping keeps the residue class, and a residue class wraps to one value.
proof fn lemma_wrap(x: int, k: int)
    ensures
        wrap(x + k * 0x1_0000_0000_0000_0000) == wrap(x),
        exists|j: int| wrap(x) == x + #[trigger] (j * 0x1_0000_0000_0000_0000),
        -0x8000_0000_0000_0000 <= wrap(x) < 0x8000_0000_0000_0000,
        -0x8000_0000_0000_0000 <= x < 0x8000_0000_0000_0000 ==> wrap(x) == x,
{
    let m: int = 0x1_0000_0000_0000_0000;
    vstd::arithmetic::div_mod::lemma_mod_multiples_vanish(k, x + 0x8000_0000_0000_0000, m);
    assert(m * k + (x + 0x8000_0000_0000_0000) == x + k * m + 0x8000_0000_0000_0000);
    vstd::arithmetic::div_mod::lemma_fundamental_div_mod(x + 0x8000_0000_0000_0000, m);
    let q: int = (x + 0x8000_0000_0000_0000) / m;
    assert(wrap(x) == x + (-q) * m) by (nonlinear_arith)
        requires
            x + 0x8000_0000_0000_0000 == m * q + (x + 0x8000_0000_0000_0000) % m,
            wrap(x) == (x + 0x8000_0000_0000_0000) % m - 0x8000_0000_0000_0000,
    ;
}

/// Wrapping a summand first does not change a wrapped sum.
proof fn lemma_wrap_sum(x: int, y: int)
    ensures
        wrap(wrap(x) + y) == wrap(x + y),
{
    lemma_wrap(x, 0);
    let j = choose|j: int| wrap(x) == x + #[trigger] (j * 0x1_0000_0000_0000_0000);
    lemma_wrap(x + y, j);
}

impl ExactScalar for Fixed {
    proof fn plus_commutes(a: Self, b: Self) {
    }

    proof fn plus_associates(a: Self, b: Self, c: Self) {
        lemma_wrap(a.raw + b.raw, 0);
        lemma_wrap(b.raw + c.raw, 0);
        lemma_wrap_sum(a.raw + b.raw, c.raw as int);
        lemma_wrap_sum(b.raw + c.raw, a.raw as int);
    }

    proof fn plus_zero(a: Self) {
        lemma_wrap(a.raw as int, 0);
    }

    proof fn plus_negation(a: Self) {
        lemma_wrap(-a.raw, 0);
        lemma_wrap_sum(-a.raw, a.raw as int);
        lemma_wrap(0, 0);
    }

    proof fn minus_is_plus_negation(a: Self, b: Self) {
        lemma_wrap(-b.raw, 0);
        lemma_wrap_sum(-b.raw, a.raw as int);
    }

    proof fn times_unit(a: Self) {
        lemma_wrap(a.raw as int, 0);
        lemma_wrap(0, 0);
        lemma_wrap(-ONE_RAW, 0);
        assert(a.raw * ONE_RAW / (ONE_RAW as int) == a.raw);
        assert(a.raw * (-ONE_RAW) / (ONE_RAW as int) == -a.raw);
    }

    proof fn same_is_equality(a: Self, b: Self) {
    }
}

} // verus!
