//! What a seat with a short stack posts, holds and needs, in whole numbers of steps.
use vstd::prelude::*;
use crate::arith::capped;
use crate::blinds::BlindLevel;
use crate::hand_class::HandClass;
use crate::measure::MeasuredScalar;
use crate::scalar::ratio_spec;
use crate::seat_analysis::{
    seat_facts, single_call_spec, single_overcall_spec, stack_in_blinds_spec, SeatStep, SeatView,
};
use crate::short_stack::{
    by_heuristic, call_results, combo_fraction_spec, combo_total, dead_pot_spec, falling_key,
    fold_probability, hands_of, heuristic_spec, picked, posted_amount_spec, required_equity_spec,
    sampled_range, survival_value_spec, top_fraction_spec, ShortStackConfig,
};
use crate::shove_laws::{
    calling_ranges_hold_what_pays, chips_fit, holds_hand, is_call, is_result_of, is_shove, shove_steps,
    shoving_ranges_hold_what_pays,
};
use crate::sorting::{sorting, sorting_exists};
use crate::structure::{blind_pressure_spec, orbit_cost_spec};
use crate::update_laws::{comparable, is_share};

verus! {

/// What the first `n` seats have posted.
pub open spec fn all_posted(level: BlindLevel, alive_players: u8, n: nat) -> int
    decreases n,
{
    if n == 0 {
        0
    } else {
        all_posted(level, alive_players, (n - 1) as nat) + posted_amount_spec(
            level,
            alive_players,
            (n - 1) as u8,
        )
    }
}

/// What all seats have posted is the dead pot, and an orbit costs as much.
pub proof fn posts_make_the_dead_pot(level: BlindLevel, alive_players: u8)
    requires
        alive_players >= 2,
        level.per_player_ante * alive_players + level.big_blind + level.small_blind <= u32::MAX,
    ensures
        all_posted(level, alive_players, alive_players as nat) == dead_pot_spec(level, alive_players),
        orbit_cost_spec(level, alive_players) == dead_pot_spec(level, alive_players),
{
    let n = alive_players as int;
    let ante = level.per_player_ante as int;
    lemma_antes(level, alive_players, (n - 2) as nat);
    assert((n - 2) * ante + ante + ante == ante * n) by (nonlinear_arith);
    assert(ante <= ante * n) by (nonlinear_arith)
        requires
            ante >= 0,
            n >= 1,
    ;
    assert(((n - 1) as nat - 1) as nat == (n - 2) as nat);
    assert(all_posted(level, alive_players, (n - 1) as nat) == all_posted(
        level,
        alive_players,
        (n - 2) as nat,
    ) + posted_amount_spec(level, alive_players, (n - 2) as u8));
}

proof fn lemma_antes(level: BlindLevel, alive_players: u8, n: nat)
    requires
        alive_players >= 2,
        n <= alive_players - 2,
    ensures
        all_posted(level, alive_players, n) == n * level.per_player_ante,
    decreases n,
{
    let ante = level.per_player_ante as int;
    if n > 0 {
        lemma_antes(level, alive_players, (n - 1) as nat);
        assert(n * ante == (n - 1) * ante + ante) by (nonlinear_arith);
    } else {
        assert(0 * ante == 0);
    }
}

/// The blinds are posted by the last two seats: the last posts the big blind more than its ante, the one
/// before it the small blind; nobody sits behind the last.
pub proof fn last_seats_post_the_blinds<S: MeasuredScalar>(config: ShortStackConfig, seat_index: u8)
    requires
        config.fits(),
        config.alive_players >= 2,
        seat_index < config.alive_players,
        config.level.per_player_ante + config.level.big_blind <= u32::MAX,
        config.level.per_player_ante + config.level.small_blind <= u32::MAX,
    ensures
        ({
            let facts = seat_facts::<S>(config, seat_index);
            &&& facts.seat_index == seat_index
            &&& facts.seat_index + facts.players_behind + 1 == config.alive_players
            &&& facts.posted_amount == config.level.per_player_ante + (if facts.players_behind == 0 {
                config.level.big_blind as int
            } else if facts.players_behind == 1 {
                config.level.small_blind as int
            } else {
                0
            })
            &&& facts.posted_amount <= config.stack ==> facts.posted_amount + facts.all_in_cost
                == config.stack
            &&& facts.posted_amount > config.stack ==> facts.all_in_cost == 0
            &&& facts.dead_pot == dead_pot_spec(config.level, config.alive_players)
        }),
{
}

proof fn lemma_over<S: MeasuredScalar>(part: u32, whole: u32)
    requires
        whole > 0,
    ensures
        ({
            let share = S::from_u32_spec(part).over_spec(S::from_u32_spec(whole)).steps();
            &&& share == (part * S::unit()) / whole as int
            &&& share * whole <= part * S::unit() < share * whole + whole
            &&& 0 <= share <= part * S::unit() <= S::limit()
        }),
{
    S::measured_units();
    S::measured_counts(part, 0);
    S::measured_counts(whole, 0);
    let (p, w, u) = (part as int, whole as int, S::unit());
    let d = w * u;
    let a = p * u;
    assert(0 <= a <= S::limit() && d > 0) by (nonlinear_arith)
        requires
            a == p * u,
            d == w * u,
            u * 0x1_0000_0000 <= S::limit(),
            0 <= p < 0x1_0000_0000,
            w > 0,
            u >= 2,
    ;
    let q = (a * u) / d;
    let rest = (a * u) % d;
    vstd::arithmetic::div_mod::lemma_fundamental_div_mod(a * u, d);
    assert(w * q <= a < w * q + w) by (nonlinear_arith)
        requires
            a * u == d * q + rest,
            0 <= rest < d,
            d == w * u,
            u > 0,
    ;
    assert(0 <= q <= a) by (nonlinear_arith)
        requires
            w * q <= a < w * q + w,
            w >= 1,
            a >= 0,
    ;
    S::measured_quotient(S::from_u32_spec(part), S::from_u32_spec(whole));
    assert(q * w == w * q) by (nonlinear_arith);
    vstd::arithmetic::div_mod::lemma_fundamental_div_mod_converse(a, w, q, a - w * q);
}

/// With the share that a call needs by the pot alone, what is won of the pot with both stacks in it is the stack;
/// an overcall, for a pot with three stacks in it, needs no more. A stack is as many big blinds as it is worth.
pub proof fn calls_break_even<S: MeasuredScalar>(config: ShortStackConfig)
    requires
        config.fits(),
        config.level.big_blind > 0,
        3 * config.stack <= u32::MAX,
    ensures
        ({
            let dead = dead_pot_spec(config.level, config.alive_players);
            let call = single_call_spec::<S>(config).steps();
            let overcall = single_overcall_spec::<S>(config).steps();
            let blinds = stack_in_blinds_spec::<S>(config).steps();
            let chips = config.stack * S::unit();
            let pot = dead + config.stack + config.stack;
            &&& call * pot <= chips < (call + 1) * pot
            &&& overcall * (pot + config.stack) <= chips < (overcall + 1) * (pot + config.stack)
            &&& overcall <= call <= S::unit()
            &&& blinds * config.level.big_blind <= chips < (blinds + 1) * config.level.big_blind
        }),
{
    S::measured_units();
    let dead = dead_pot_spec(config.level, config.alive_players);
    let pot = dead + 2 * config.stack;
    let more = dead + 3 * config.stack;
    lemma_over::<S>(config.stack, pot as u32);
    lemma_over::<S>(config.stack, more as u32);
    lemma_over::<S>(config.stack, config.level.big_blind);
    let call = single_call_spec::<S>(config).steps();
    let overcall = single_overcall_spec::<S>(config).steps();
    let blinds = stack_in_blinds_spec::<S>(config).steps();
    let chips = config.stack * S::unit();
    let (s, u) = (config.stack as int, S::unit());
    assert((call + 1) * pot == call * pot + pot) by (nonlinear_arith);
    assert((overcall + 1) * more == overcall * more + more) by (nonlinear_arith);
    assert((blinds + 1) * config.level.big_blind == blinds * config.level.big_blind
        + config.level.big_blind) by (nonlinear_arith);
    assert(overcall <= call) by (nonlinear_arith)
        requires
            overcall * more <= chips,
            chips < call * pot + pot,
            overcall >= 0,
            more >= pot,
            pot > 0,
    ;
    assert(call <= u) by (nonlinear_arith)
        requires
            call * pot <= chips,
            chips == s * u,
            pot >= s,
            pot > 0,
            u > 0,
            s >= 0,
    ;
}

/// What a stack is worth for staying in: nothing if there is none, else the logarithm of one more than the number
/// of orbits that it lasts.
pub proof fn stacks_last_for_orbits<S: MeasuredScalar>(stack: u32, orbit_cost: u32)
    requires
        orbit_cost > 0,
    ensures
        survival_value_spec::<S>(0, orbit_cost).steps() == 0,
        stack > 0 ==> exists|orbits: S|
            {
                &&& #[trigger] orbits.ln_spec() == survival_value_spec::<S>(stack, orbit_cost)
                &&& (orbits.steps() - S::unit()) * orbit_cost <= stack * S::unit()
                &&& stack * S::unit() < (orbits.steps() - S::unit()) * orbit_cost + orbit_cost
            },
{
    S::measured_units();
    if stack > 0 {
        lemma_over::<S>(stack, orbit_cost);
        let ratio = S::from_u32_spec(stack).over_spec(S::from_u32_spec(orbit_cost));
        let (p, u) = (stack as int, S::unit());
        assert(p * u + u <= S::limit()) by (nonlinear_arith)
            requires
                u * 0x1_0000_0000 <= S::limit(),
                0 <= p < 0x1_0000_0000,
                u >= 2,
        ;
        S::measured_sum(S::one_spec(), ratio);
        let orbits = S::one_spec().plus_spec(ratio);
        assert(orbits.steps() - S::unit() == ratio.steps());
        assert(orbits.ln_spec() == survival_value_spec::<S>(stack, orbit_cost));
    }
}

/// With the share that is needed, winning is worth as much as folding is; a share is needed in full if winning is
/// worth nothing or no more than folding.
pub proof fn needed_shares_break_even<S: MeasuredScalar>(fold_stack: u32, win_stack: u32, orbit_cost: u32)
    requires
        0 <= survival_value_spec::<S>(fold_stack, orbit_cost).steps() <= S::limit(),
    ensures
        ({
            let fold = survival_value_spec::<S>(fold_stack, orbit_cost).steps();
            let win = survival_value_spec::<S>(win_stack, orbit_cost).steps();
            let need = required_equity_spec::<S>(fold_stack, win_stack, orbit_cost).steps();
            &&& 0 <= need <= S::unit()
            &&& win <= 0 ==> need == S::unit()
            &&& 0 < win <= fold && (fold * S::unit()) / win <= S::limit() ==> need == S::unit()
            &&& 0 <= fold <= win && win > 0 ==> need * win <= fold * S::unit() < need * win + win
        }),
{
    S::measured_units();
    let u = S::unit();
    let fold = survival_value_spec::<S>(fold_stack, orbit_cost);
    let win = survival_value_spec::<S>(win_stack, orbit_cost);
    let (f, w) = (fold.steps(), win.steps());
    S::measured_order(S::zero_spec(), win);
    if w > 0 {
        let ratio = fold.over_spec(win);
        S::measured_order(ratio, S::zero_spec());
        S::measured_order(ratio.max_spec(S::zero_spec()), S::one_spec());
        let q = (f * u) / w;
        let rest = (f * u) % w;
        vstd::arithmetic::div_mod::lemma_fundamental_div_mod(f * u, w);
        assert(w * q == q * w) by (nonlinear_arith);
        assert(q >= 0) by (nonlinear_arith)
            requires
                f * u == w * q + rest,
                0 <= rest < w,
                f >= 0,
                u >= 0,
        ;
        assert(f <= w ==> q <= u) by (nonlinear_arith)
            requires
                f * u == w * q + rest,
                0 <= rest < w,
                u >= 0,
        ;
        assert(w <= f ==> q >= u) by (nonlinear_arith)
            requires
                f * u == w * q + rest,
                0 <= rest < w,
                u >= 0,
        ;
        S::measured_quotient(fold, win);
    }
}

/// What a seat needs for a call and for an overcall: with that share, the pot with two or three of its stacks in it
/// is worth as much for staying in as the stack is.
pub proof fn seats_need_what_folding_is_worth<S: MeasuredScalar>(config: ShortStackConfig, seat_index: u8)
    requires
        config.fits(),
        3 * config.stack <= u32::MAX,
    ensures
        ({
            let facts = seat_facts::<S>(config, seat_index);
            let orbit = orbit_cost_spec(config.level, config.alive_players) as u32;
            let fold = survival_value_spec::<S>(facts.all_in_cost, orbit).steps();
            let pot = facts.dead_pot + facts.all_in_cost + facts.all_in_cost;
            let called = survival_value_spec::<S>(pot as u32, orbit).steps();
            let overcalled = survival_value_spec::<S>((pot + facts.all_in_cost) as u32, orbit).steps();
            let call = facts.call_required_equity.steps();
            let overcall = facts.overcall_required_equity.steps();
            0 <= fold <= S::limit() ==> {
                &&& fold <= called && called > 0 ==> call * called <= fold * S::unit() < call * called
                    + called
                &&& fold <= overcalled && overcalled > 0 ==> overcall * overcalled <= fold * S::unit()
                    < overcall * overcalled + overcalled
                &&& 0 <= call <= S::unit()
                &&& 0 <= overcall <= S::unit()
            }
        }),
{
    let facts = seat_facts::<S>(config, seat_index);
    let orbit = orbit_cost_spec(config.level, config.alive_players) as u32;
    let fold = survival_value_spec::<S>(facts.all_in_cost, orbit).steps();
    let two = (facts.dead_pot + capped(2 * facts.all_in_cost)) as u32;
    let three = (facts.dead_pot + capped(3 * facts.all_in_cost)) as u32;
    assert(facts.all_in_cost <= config.stack);
    if 0 <= fold <= S::limit() {
        needed_shares_break_even::<S>(facts.all_in_cost, two, orbit);
        needed_shares_break_even::<S>(facts.all_in_cost, three, orbit);
    }
}

/// The pressure of a level on a stack: what an orbit costs and what is left after one make the stack, if it
/// lasts for one; the fraction of the stack that an orbit costs, and stacks in big blinds, are what they are of.
pub proof fn pressure_adds_up<S: MeasuredScalar>(level: BlindLevel, alive_players: u8, stack: u32)
    requires
        level.big_blind > 0,
        stack > 0,
    ensures
        ({
            let pressure = blind_pressure_spec::<S>(level, alive_players, stack);
            let cost = pressure.orbit_cost;
            let after = pressure.stack_after_one_folded_orbit;
            let part = pressure.orbit_cost_as_stack_fraction.steps();
            let blinds = pressure.stack_in_big_blinds.steps();
            let later = pressure.stack_after_one_folded_orbit_in_big_blinds.steps();
            &&& cost <= stack ==> after + cost == stack
            &&& cost > stack ==> after == 0
            &&& cost == orbit_cost_spec(level, alive_players)
            &&& part * stack <= cost * S::unit() < part * stack + stack
            &&& blinds * level.big_blind <= stack * S::unit() < blinds * level.big_blind + level.big_blind
            &&& later * level.big_blind <= after * S::unit() < later * level.big_blind + level.big_blind
        }),
{
    let pressure = blind_pressure_spec::<S>(level, alive_players, stack);
    assert(level.per_player_ante * alive_players >= 0) by (nonlinear_arith);
    lemma_over::<S>(pressure.orbit_cost, stack);
    lemma_over::<S>(stack, level.big_blind);
    lemma_over::<S>(pressure.stack_after_one_folded_orbit, level.big_blind);
}

/// The share of all hands that a range holds, of all hands, is as many as it holds.
pub proof fn ranges_hold_their_share<S: MeasuredScalar>(range: Seq<HandClass>)
    requires
        combo_total(range) <= 1326,
    ensures
        ({
            let share = combo_fraction_spec::<S>(range).steps();
            &&& share * 1326 <= combo_total(range) * S::unit() < share * 1326 + 1326
            &&& combo_total(range) == 1326 ==> share == S::unit()
        }),
{
    S::measured_units();
    let count = combo_total(range);
    S::measured_counts(count as u32, count as usize);
    let u = S::unit();
    assert(count * u <= S::limit()) by (nonlinear_arith)
        requires
            count <= 1326,
            u * 0x1_0000_0000 <= S::limit(),
            u >= 0,
    ;
    S::measured_order(S::from_count_spec(count as usize), S::from_u32_spec(count as u32));
    lemma_over::<S>(count as u32, 1326);
    assert(count == 1326 ==> count * u == 1326 * u) by (nonlinear_arith);
}

/// How strong a class of two ranks looks, in steps.
pub open spec fn looks<S: MeasuredScalar>(high: int, low: int, suited: bool) -> int {
    heuristic_spec::<S>(HandClass { high: high as u8, low: low as u8, suited }).steps()
}

/// A class looks stronger if suited, and with a higher card or closer cards; a pair looks stronger than any
/// class without one, and the higher of two pairs stronger.
pub proof fn looks_are_ordered<S: MeasuredScalar>(high: int, low: int, suited: bool)
    requires
        2 <= low < high <= 14,
    ensures
        looks::<S>(high, low, true) == looks::<S>(high, low, false) + 3 * S::unit(),
        high < 14 ==> looks::<S>(high + 1, low, suited) == looks::<S>(high, low, suited) + 2 * S::unit(),
        low + 1 < high ==> 2 * looks::<S>(high, low + 1, suited) == 2 * looks::<S>(high, low, suited) + 7
            * S::unit(),
        looks::<S>(high, low, suited) < looks::<S>(2, 2, false),
        looks::<S>(high, high, false) == looks::<S>(low, low, false) + 4 * (high - low) * S::unit(),
{
    S::measured_units();
    let u = S::unit();
    let (h, l) = (high, low);
    let plain = 8 * h + 3 * l - 4 * (h - l - 1);
    let some = plain + (if suited {
        6int
    } else {
        0
    });
    lemma_looks::<S>(HandClass { high: h as u8, low: l as u8, suited });
    lemma_looks::<S>(HandClass { high: h as u8, low: l as u8, suited: true });
    lemma_looks::<S>(HandClass { high: h as u8, low: l as u8, suited: false });
    assert(2 * looks::<S>(h, l, suited) == some * u);
    assert(2 * looks::<S>(h, l, true) == (plain + 6) * u);
    assert(2 * looks::<S>(h, l, false) == plain * u);
    assert((plain + 6) * u == plain * u + 6 * u && (some + 4) * u == some * u + 4 * u && (some + 7) * u
        == some * u + 7 * u) by (nonlinear_arith);
    if h < 14 {
        lemma_looks::<S>(HandClass { high: (h + 1) as u8, low: l as u8, suited });
        assert(2 * looks::<S>(h + 1, l, suited) == (some + 4) * u);
    }
    if l + 1 < h {
        lemma_looks::<S>(HandClass { high: h as u8, low: (l + 1) as u8, suited });
        assert(2 * looks::<S>(h, l + 1, suited) == (some + 7) * u);
    }
    lemma_pair_looks::<S>(2);
    lemma_pair_looks::<S>(h as u8);
    lemma_pair_looks::<S>(l as u8);
    assert(4 * (h - l) * u == (4 * h) * u - (4 * l) * u) by (nonlinear_arith);
    assert((100 + 4 * h) * u == 100 * u + (4 * h) * u && (100 + 4 * l) * u == 100 * u + (4 * l) * u)
        by (nonlinear_arith);
    let least: u8 = 2;
    assert((100 + 4 * least) * u == 108 * u) by (nonlinear_arith)
        requires
            least == 2,
    ;
    assert(looks::<S>(2, 2, false) == 108 * u);
    assert(some * u < 216 * u) by (nonlinear_arith)
        requires
            some < 216,
            u > 0,
    ;
}

proof fn lemma_pair_looks<S: MeasuredScalar>(rank: u8)
    requires
        2 <= rank <= 14,
    ensures
        heuristic_spec::<S>(HandClass { high: rank, low: rank, suited: false }).steps() == (100 + 4
            * rank) * S::unit(),
{
    S::measured_units();
    let u = S::unit();
    let (four, high) = (S::from_u32_spec(4), S::from_u32_spec(rank as u32));
    S::measured_counts(4, 0);
    S::measured_counts(100, 0);
    S::measured_counts(rank as u32, 0);
    let r = rank as int;
    assert((r * u) * (4 * u) == u * ((4 * r) * u)) by (nonlinear_arith);
    vstd::arithmetic::div_mod::lemma_div_multiples_vanish((4 * r) * u, u);
    assert(0 <= (4 * r) * u && 100 * u + (4 * r) * u <= S::limit()) by (nonlinear_arith)
        requires
            u * 0x1_0000_0000 <= S::limit(),
            2 <= r <= 14,
            u >= 2,
    ;
    S::measured_product(high, four);
    S::measured_sum(S::from_u32_spec(100), high.times_spec(four));
    assert((100 + 4 * r) * u == 100 * u + (4 * r) * u) by (nonlinear_arith);
}

proof fn lemma_looks<S: MeasuredScalar>(hand: HandClass)
    requires
        hand.valid(),
        hand.low < hand.high,
    ensures
        2 * heuristic_spec::<S>(hand).steps() == (8 * hand.high + 3 * hand.low + (if hand.suited {
            6int
        } else {
            0
        }) - 4 * (hand.high - hand.low - 1)) * S::unit(),
{
    S::measured_units();
    let u = S::unit();
    let (h, l) = (hand.high as int, hand.low as int);
    let g = h - l - 1;
    let four = S::from_u32_spec(4);
    let high = S::from_u32_spec(hand.high as u32);
    let low = S::from_u32_spec(hand.low as u32);
    let gap = S::from_u32_spec((hand.high - hand.low - 1) as u32);
    let two = S::from_u32_spec(2);
    let extra = if hand.suited {
        S::from_u32_spec(3)
    } else {
        S::zero_spec()
    };
    S::measured_counts(4, 0);
    S::measured_counts(3, 0);
    S::measured_counts(2, 0);
    S::measured_counts(hand.high as u32, 0);
    S::measured_counts(hand.low as u32, 0);
    S::measured_counts((hand.high - hand.low - 1) as u32, 0);
    let k = u / 2;
    let half = ratio_spec::<S>(3, 2);
    assert((3 * u) * u == (3 * k) * (2 * u)) by (nonlinear_arith)
        requires
            u == 2 * k,
    ;
    assert(((3 * u) * u) / (2 * u) == 3 * k) by {
        vstd::arithmetic::div_mod::lemma_fundamental_div_mod_converse((3 * u) * u, 2 * u, 3 * k, 0);
    }
    assert(1000 * u <= S::limit()) by (nonlinear_arith)
        requires
            u * 0x1_0000_0000 <= S::limit(),
            u >= 2,
    ;
    S::measured_quotient(S::from_u32_spec(3), two);
    assert(half.steps() == 3 * k);
    assert((h * u) * (4 * u) == u * ((4 * h) * u)) by (nonlinear_arith);
    vstd::arithmetic::div_mod::lemma_div_multiples_vanish((4 * h) * u, u);
    assert((l * u) * (3 * k) == u * ((3 * l) * k)) by (nonlinear_arith);
    vstd::arithmetic::div_mod::lemma_div_multiples_vanish((3 * l) * k, u);
    assert((g * u) * (2 * u) == u * ((2 * g) * u)) by (nonlinear_arith);
    vstd::arithmetic::div_mod::lemma_div_multiples_vanish((2 * g) * u, u);
    assert(0 <= (4 * h) * u <= 56 * u && 0 <= (3 * l) * k <= 42 * u && 0 <= (2 * g) * u <= 28 * u)
        by (nonlinear_arith)
        requires
            2 <= l < h <= 14,
            0 <= g <= 14,
            u == 2 * k,
            k >= 1,
    ;
    S::measured_product(high, four);
    S::measured_product(low, half);
    S::measured_product(gap, two);
    let a = high.times_spec(four);
    let b = low.times_spec(half);
    S::measured_sum(a, b);
    S::measured_sum(a.plus_spec(b), extra);
    S::measured_sum(a.plus_spec(b).plus_spec(extra), gap.times_spec(two));
    let e: int = if hand.suited {
        6
    } else {
        0
    };
    assert(2 * ((4 * h) * u + (3 * l) * k - (2 * g) * u) + e * u == (8 * h + 3 * l + e - 4 * g) * u)
        by (nonlinear_arith)
        requires
            u == 2 * k,
    ;
}

/// The strongest looking classes that make up a share of all hands: no class that is left out looks stronger
/// than one that is not, and there are as many hands as asked for but not without the last class, or there are all
/// classes.
pub proof fn top_classes_look_strongest<S: MeasuredScalar>(classes: Seq<HandClass>, fraction: S)
    requires
        classes.len() <= usize::MAX,
    ensures
        ({
            let top = top_fraction_spec(classes, fraction);
            let target = S::from_u32_spec(1326).times_spec(fraction).round_u32_spec();
            let list = by_heuristic::<S>(classes);
            &&& list.len() == classes.len()
            &&& forall|k: int| 0 <= k < classes.len() ==> list.contains(#[trigger] classes[k])
            &&& forall|i: int, j: int|
                0 <= i < j < list.len() ==> heuristic_spec::<S>(#[trigger] list[i]).steps()
                    >= heuristic_spec::<S>(#[trigger] list[j]).steps()
            &&& top.len() <= list.len()
            &&& top == list.take(top.len() as int)
            &&& top.len() < list.len() ==> combo_total(top) >= target
            &&& top.len() > 0 ==> combo_total(top.drop_last()) < target
        }),
{
    let keys = Seq::new(
        classes.len(),
        |i: int| falling_key(heuristic_spec::<S>(classes[i]), None::<S>),
    );
    sorting_exists(keys);
    let order = sorting(keys);
    let list = by_heuristic::<S>(classes);
    assert forall|k: int| 0 <= k < classes.len() implies list.contains(#[trigger] classes[k]) by {
        assert(order.contains(k as usize));
        let i = choose|i: int| 0 <= i < order.len() && order[i] == k as usize;
        assert(list[i] == classes[k]);
    }
    assert forall|i: int, j: int| 0 <= i < j < list.len() implies heuristic_spec::<S>(
        #[trigger] list[i],
    ).steps() >= heuristic_spec::<S>(#[trigger] list[j]).steps() by {
        let (a, b) = (order[i] as int, order[j] as int);
        assert(0 <= a < classes.len() && 0 <= b < classes.len());
        S::measured_order(heuristic_spec::<S>(classes[b]), heuristic_spec::<S>(classes[a]));
        assert(!keys[b].less(keys[a]));
    }
    let target = S::from_u32_spec(1326).times_spec(fraction).round_u32_spec() as nat;
    lemma_picked(list, target, classes.len());
}

proof fn lemma_picked(list: Seq<HandClass>, target: nat, n: nat)
    requires
        n <= list.len(),
    ensures
        ({
            let top = picked(list, target, n);
            &&& top.len() <= n
            &&& top == list.take(top.len() as int)
            &&& top.len() < n ==> combo_total(top) >= target
            &&& top.len() > 0 ==> combo_total(top.drop_last()) < target
        }),
    decreases n,
{
    if n > 0 {
        lemma_picked(list, target, (n - 1) as nat);
        let front = picked(list, target, (n - 1) as nat);
        if combo_total(front) < target {
            assert(front.push(list[n - 1]).drop_last() =~= front);
            assert(front.push(list[n - 1]) =~= list.take(n as int));
        }
    } else {
        assert(picked(list, target, n) =~= list.take(0));
    }
}

/// A sample of a range is its first hands, all of them if there is no limit or it is not reached.
pub proof fn samples_are_first_hands(range: Seq<HandClass>, limit: nat)
    ensures
        ({
            let sample = sampled_range(range, limit);
            &&& limit == 0 ==> sample == range
            &&& limit > 0 ==> sample.len() <= limit
            &&& sample.len() <= range.len()
            &&& sample.len() < range.len() ==> sample.len() == limit
            &&& forall|i: int| 0 <= i < sample.len() ==> #[trigger] sample[i] == range[i]
        }),
{
}

/// What becomes of answers: shoves hold the hands that pay against the callers so far; the next callers are the hands that win
/// the share that a call needs against the shovers; in the end calls hold those hands, and overcalls those that win the
/// share that an overcall needs.
pub proof fn answers_become_ranges<S: MeasuredScalar>(seat: SeatView<S>, shares: Seq<S>, n: int)
    requires
        seat.asked().len() <= usize::MAX,
        shares.len() == seat.asked().len(),
        0 <= n < shares.len(),
        forall|m: int| 0 <= m < shares.len() ==> is_share(#[trigger] shares[m]),
        combo_total(seat.call_range) <= 1326,
        chips_fit(seat.facts.dead_pot, seat.facts.all_in_cost),
        is_share(seat.facts.call_required_equity),
        is_share(seat.facts.overcall_required_equity),
    ensures
        ({
            let after = seat.answered(shares);
            let asked = seat.asked();
            let facts = seat.facts;
            let folded = fold_probability::<S>(seat.call_range, facts.players_behind).steps();
            match seat.step {
                SeatStep::Shove | SeatStep::LastShove => {
                    &&& forall|i: int|
                        0 <= i < after.shove_results.len() ==> is_shove(
                            #[trigger] after.shove_results[i],
                            asked,
                            shares,
                            asked.len(),
                            folded,
                            facts.dead_pot,
                            facts.all_in_cost,
                        )
                    &&& shove_steps(folded, facts.dead_pot, facts.all_in_cost, shares[n]) >= 0
                        ==> holds_hand(after.shove_results, asked, shares, n)
                    &&& after.call_range == seat.call_range
                },
                SeatStep::Call => {
                    &&& shares[n].steps() >= facts.call_required_equity.steps()
                        ==> after.call_range.contains(asked[n])
                    &&& after.shove_results == seat.shove_results
                    &&& after.rounds_left == seat.rounds_left - 1 || seat.rounds_left == 0
                },
                SeatStep::LastCall => {
                    &&& forall|i: int|
                        0 <= i < after.call_results.len() ==> is_call(
                            #[trigger] after.call_results[i],
                            asked,
                            shares,
                            asked.len(),
                            facts.call_required_equity,
                        )
                    &&& shares[n].steps() >= facts.call_required_equity.steps() ==> holds_hand(
                        after.call_results,
                        asked,
                        shares,
                        n,
                    )
                },
                SeatStep::Overcall => {
                    &&& forall|i: int|
                        0 <= i < after.overcall_results.len() ==> is_call(
                            #[trigger] after.overcall_results[i],
                            asked,
                            shares,
                            asked.len(),
                            facts.overcall_required_equity,
                        )
                    &&& shares[n].steps() >= facts.overcall_required_equity.steps() ==> holds_hand(
                        after.overcall_results,
                        asked,
                        shares,
                        n,
                    )
                },
                SeatStep::Done => true,
            }
        }),
{
    S::measured_units();
    let u = S::unit();
    assert(u <= S::limit() / 8) by (nonlinear_arith)
        requires
            u * 0x1_0000_0000 <= S::limit(),
            u >= 2,
    ;
    assert forall|m: int| 0 <= m < shares.len() implies comparable::<S>((#[trigger] shares[m]).steps()) by {
        assert(is_share(shares[m]));
    }
    let asked = seat.asked();
    let facts = seat.facts;
    match seat.step {
        SeatStep::Shove | SeatStep::LastShove => {
            shoving_ranges_hold_what_pays(
                asked,
                shares,
                seat.call_range,
                facts.players_behind,
                facts.dead_pot,
                facts.all_in_cost,
            );
        },
        SeatStep::Call => {
            calling_ranges_hold_what_pays(asked, shares, facts.call_required_equity);
            let results = call_results(asked, shares, facts.call_required_equity);
            if shares[n].steps() >= facts.call_required_equity.steps() {
                assert(holds_hand(results, asked, shares, n));
                reveal(holds_hand);
                let i = choose|i: int|
                    0 <= i < results.len() && is_result_of(#[trigger] results[i], asked, shares, n);
                assert(hands_of(results)[i] == asked[n]);
            }
        },
        SeatStep::LastCall => {
            calling_ranges_hold_what_pays(asked, shares, facts.call_required_equity);
        },
        SeatStep::Overcall => {
            calling_ranges_hold_what_pays(asked, shares, facts.overcall_required_equity);
        },
        SeatStep::Done => {},
    }
}

} // verus!
