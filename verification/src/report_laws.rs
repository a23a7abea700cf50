//! What a report of how far strategies are from being unbeatable says, in whole numbers of steps.
use vstd::prelude::*;
use crate::matching_laws::above;
use crate::measure::{pair_in_steps, MeasuredScalar};
use crate::real_run::exploitability_of;
use crate::scalar::ratio_spec;
use crate::update_laws::comparable;

verus! {

/// The quotient of one by two is half of one.
pub proof fn half_in_steps<S: MeasuredScalar>(value: S)
    requires
        -S::limit() <= value.steps() <= S::limit(),
    ensures
        2 * ratio_spec::<S>(1, 2).steps() == S::unit(),
        value.times_spec(ratio_spec::<S>(1, 2)).steps() == value.steps() / 2,
{
    S::measured_units();
    S::measured_counts(1, 0);
    S::measured_counts(2, 0);
    let unit = S::unit();
    let half = ratio_spec::<S>(1, 2);
    let h = unit / 2;
    assert((unit * unit) / (2 * unit) == h) by {
        assert(unit * unit == h * (2 * unit)) by (nonlinear_arith)
            requires
                unit == 2 * h,
        ;
        vstd::arithmetic::div_mod::lemma_fundamental_div_mod_converse(unit * unit, 2 * unit, h, 0);
    }
    assert(h <= S::limit()) by (nonlinear_arith)
        requires
            unit * 0x1_0000_0000 <= S::limit(),
            unit == 2 * h,
            unit >= 2,
    ;
    S::measured_quotient(S::from_u32_spec(1), S::from_u32_spec(2));
    assert(half.steps() == h);
    let v = value.steps();
    assert((v * h) / unit == v / 2) by {
        let q = v / 2;
        let rest = v % 2;
        assert(v * h == unit * q + rest * h) by (nonlinear_arith)
            requires
                v == 2 * q + rest,
                unit == 2 * h,
        ;
        assert(0 <= rest * h < unit) by (nonlinear_arith)
            requires
                0 <= rest < 2,
                unit == 2 * h,
                unit >= 2,
        ;
        vstd::arithmetic::div_mod::lemma_fundamental_div_mod_converse(v * h, unit, q, rest * h);
    }
    S::measured_product(value, half);
}

/// What strategies could gain: a player's gain is what a best response is worth more to that player than
/// the profile, not below zero. The gains together are at least each of them and are zero only if neither
/// player can gain; the exploitability is half of them.
pub proof fn gains_add_up<S: MeasuredScalar>(
    profile_oop: S,
    profile_ip: S,
    oop_best: S,
    ip_best: S,
)
    requires
        comparable::<S>(profile_oop.steps()),
        comparable::<S>(profile_ip.steps()),
        comparable::<S>(oop_best.steps()),
        comparable::<S>(ip_best.steps()),
    ensures
        ({
            let report = exploitability_of(profile_oop, profile_ip, oop_best, ip_best);
            let nash_conv = report.nash_conv_chips.steps();
            &&& report.oop_gain.steps() == above(oop_best.steps() - profile_oop.steps())
            &&& report.ip_gain.steps() == above(ip_best.steps() - profile_ip.steps())
            &&& nash_conv == report.oop_gain.steps() + report.ip_gain.steps()
            &&& nash_conv >= report.oop_gain.steps() >= 0
            &&& nash_conv >= report.ip_gain.steps() >= 0
            &&& nash_conv == 0 <==> oop_best.steps() <= profile_oop.steps() && ip_best.steps()
                <= profile_ip.steps()
            &&& report.exploitability_chips.steps() == nash_conv / 2
            &&& report.exploitability_bb_per_100 == report.exploitability_chips
            &&& report.profile_oop_value == profile_oop
            &&& report.profile_ip_value == profile_ip
            &&& report.oop_best_response_value == oop_best
            &&& report.ip_best_response_value == ip_best
        }),
{
    S::measured_units();
    let zero = S::zero_spec();
    let report = exploitability_of(profile_oop, profile_ip, oop_best, ip_best);
    pair_in_steps(oop_best, profile_oop);
    pair_in_steps(ip_best, profile_ip);
    pair_in_steps(oop_best.minus_spec(profile_oop), zero);
    pair_in_steps(ip_best.minus_spec(profile_ip), zero);
    pair_in_steps(report.oop_gain, report.ip_gain);
    half_in_steps(report.nash_conv_chips);
}

} // verus!
