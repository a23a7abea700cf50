//! How much of what was learned an iteration keeps, in whole numbers of steps.
use vstd::prelude::*;
use crate::cfr_math::{exponent_discount, sum_discount, RealCfrUpdateFactors, RealCfrVariant};
use crate::measure::{share_in_steps, MeasuredScalar};
use crate::real_cfr::UpdateRule;
use crate::update_laws::is_share;

verus! {

/// The discount for an exponent is what one more than the power is of the power: a half where the power is one, and the
/// closer to one the larger the power, but for the rounding to a step.
pub proof fn powers_discount_less<S: MeasuredScalar>(iteration: S, exponent: S)
    requires
        0 <= iteration.power_spec(exponent.max_spec(S::zero_spec())).steps(),
        iteration.power_spec(exponent.max_spec(S::zero_spec())).steps() + S::unit() <= S::limit(),
    ensures
        ({
            let power = iteration.power_spec(exponent.max_spec(S::zero_spec())).steps();
            let kept = exponent_discount(iteration, exponent).steps();
            &&& kept * (power + S::unit()) <= power * S::unit() < (kept + 1) * (power + S::unit())
            &&& power == S::unit() ==> 2 * kept == S::unit()
            &&& power == 0 ==> kept == 0
        }),
{
    S::measured_units();
    let powered = iteration.power_spec(exponent.max_spec(S::zero_spec()));
    let (p, u) = (powered.steps(), S::unit());
    S::measured_sum(powered, S::one_spec());
    let d = p + u;
    let (q, rest) = ((p * u) / d, (p * u) % d);
    vstd::arithmetic::div_mod::lemma_fundamental_div_mod(p * u, d);
    assert(d * q == q * d && (q + 1) * d == q * d + d) by (nonlinear_arith);
    assert(0 <= q <= u) by (nonlinear_arith)
        requires
            p * u == d * q + rest,
            0 <= rest < d,
            d == p + u,
            p >= 0,
            u >= 2,
    ;
    assert(u <= S::limit()) by (nonlinear_arith)
        requires
            u * 0x1_0000_0000 <= S::limit(),
            u >= 2,
    ;
    S::measured_quotient(powered, powered.plus_spec(S::one_spec()));
    let h = u / 2;
    assert(p == u ==> q == h) by (nonlinear_arith)
        requires
            p * u == d * q + rest,
            0 <= rest < d,
            d == p + u,
            u == 2 * h,
            u >= 2,
    ;
    assert(p == 0 ==> q == 0) by (nonlinear_arith)
        requires
            p * u == d * q + rest,
            0 <= rest < d,
            d == p + u,
            u >= 2,
    ;
}

/// Sums of strategies are discounted by the power of what the number of the iteration is of the next number.
pub proof fn sums_are_discounted_by_iterations<S: MeasuredScalar>(iteration: u32, gamma: S)
    requires
        iteration < u32::MAX,
    ensures
        exists|base: S|
            {
                &&& #[trigger] base.power_spec(gamma.max_spec(S::zero_spec())) == sum_discount(
                    S::from_u32_spec(iteration),
                    gamma,
                )
                &&& base.steps() * (iteration + 1) <= iteration * S::unit()
                &&& iteration * S::unit() < base.steps() * (iteration + 1) + (iteration + 1)
            },
{
    S::measured_units();
    let (n, u) = (iteration as int, S::unit());
    S::measured_counts(iteration, 0);
    let t = S::from_u32_spec(iteration);
    assert(n * u + u <= S::limit() && n * u >= 0) by (nonlinear_arith)
        requires
            0 <= n < 0xffff_ffff,
            u * 0x1_0000_0000 <= S::limit(),
            u >= 2,
    ;
    S::measured_sum(t, S::one_spec());
    let (a, d) = (n * u, n * u + u);
    let (q, rest) = ((a * u) / d, (a * u) % d);
    vstd::arithmetic::div_mod::lemma_fundamental_div_mod(a * u, d);
    assert((n + 1) * u == n * u + u) by (nonlinear_arith);
    assert((n + 1) * q <= a < (n + 1) * q + (n + 1)) by (nonlinear_arith)
        requires
            a * u == d * q + rest,
            0 <= rest < d,
            d == (n + 1) * u,
            u > 0,
    ;
    assert(0 <= q <= a) by (nonlinear_arith)
        requires
            (n + 1) * q <= a,
            a < (n + 1) * q + (n + 1),
            n >= 0,
            a >= 0,
    ;
    S::measured_quotient(t, t.plus_spec(S::one_spec()));
    let base = t.over_spec(t.plus_spec(S::one_spec()));
    assert(base.steps() == q);
    assert(q * (n + 1) == (n + 1) * q) by (nonlinear_arith);
    assert(base.power_spec(gamma.max_spec(S::zero_spec())) == sum_discount(t, gamma));
}

/// Without anything new, regrets from zero up keep the share that the first exponent gives, those below zero the share that
/// the second gives, and sums the share that the third gives; whether the shares are worked out before or on the way.
pub proof fn regrets_are_discounted_by_sign<S: MeasuredScalar>(
    weight: S,
    alpha: S,
    beta: S,
    gamma: S,
    regret: S,
    sum: S,
    before: bool,
)
    requires
        is_share(exponent_discount(weight, alpha)),
        is_share(exponent_discount(weight, beta)),
        is_share(sum_discount(weight, gamma)),
        -S::limit() <= regret.steps() <= S::limit(),
        -S::limit() <= sum.steps() <= S::limit(),
    ensures
        ({
            let variant = RealCfrVariant::Dcfr { alpha, beta, gamma };
            let rule = if before {
                UpdateRule::Factors(RealCfrUpdateFactors::of(variant, weight))
            } else {
                UpdateRule::Direct { weight, variant }
            };
            let after = rule.update(regret, sum, S::zero_spec(), S::zero_spec());
            &&& regret.steps() >= 0 ==> after.0.steps() == (exponent_discount(weight, alpha).steps()
                * regret.steps()) / S::unit()
            &&& regret.steps() < 0 ==> after.0.steps() == (exponent_discount(weight, beta).steps()
                * regret.steps()) / S::unit()
            &&& after.1.steps() == (sum_discount(weight, gamma).steps() * sum.steps()) / S::unit()
        }),
{
    S::measured_units();
    let zero = S::zero_spec();
    S::measured_order(regret, zero);
    let kept = if regret.steps() >= 0 {
        exponent_discount(weight, alpha)
    } else {
        exponent_discount(weight, beta)
    };
    share_in_steps(kept, regret);
    share_in_steps(sum_discount(weight, gamma), sum);
    S::measured_sum(regret.times_spec(kept), zero);
    S::measured_sum(sum.times_spec(sum_discount(weight, gamma)), zero);
}

} // verus!
