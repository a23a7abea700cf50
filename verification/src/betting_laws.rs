//! What bets and raises come to, and what they leave the other player to answer.
use vstd::prelude::*;
use crate::actions::{suits, transition, Transition};
use crate::arith::floored;
use crate::betting::{
    clearly_smaller, geometric, geometric_share, geometric_streets, inserted, key_less, merged,
    merged_below, raise_streets, size_of_action, sized, sorted_actions, sorted_and_deduped,
    stack_to_pot, without_runs,
};
use crate::measure::MeasuredScalar;
use crate::tree::{
    ActionAbstraction, ActionKind, Player, PublicState, RaiseSizeSpec, Street, TerminalReason,
};

verus! {

/// Whether an amount is the nearest to a share of a pot.
pub open spec fn is_nearest<S: MeasuredScalar>(amount: int, pot: u32, share: S) -> bool {
    -S::unit() <= 2 * pot * share.steps() - 2 * amount * S::unit() <= S::unit()
}

pub(crate) proof fn lemma_share<S: MeasuredScalar>(pot: u32, share: S)
    requires
        0 <= share.steps(),
        pot * share.steps() <= S::unit() * u32::MAX,
    ensures
        is_nearest(S::from_u32_spec(pot).times_spec(share).round_u32_spec() as int, pot, share),
        S::from_u32_spec(pot).times_spec(share).steps() == pot * share.steps(),
        share.steps() == S::unit() ==> S::from_u32_spec(pot).times_spec(share).round_u32_spec() == pot,
        share.steps() == 0 ==> S::from_u32_spec(pot).times_spec(share).round_u32_spec() == 0,
{
    S::measured_units();
    S::measured_counts(pot, 0);
    let (p, f, u) = (pot as int, share.steps(), S::unit());
    assert((p * u) * f == u * (p * f)) by (nonlinear_arith);
    vstd::arithmetic::div_mod::lemma_div_multiples_vanish(p * f, u);
    assert(0 <= p * f <= S::limit()) by (nonlinear_arith)
        requires
            p >= 0,
            f >= 0,
            p * f <= u * u32::MAX,
            u * 0x1_0000_0000 <= S::limit(),
            u >= 2,
    ;
    S::measured_product(S::from_u32_spec(pot), share);
    let part = S::from_u32_spec(pot).times_spec(share);
    assert(part.steps() == p * f);
    S::measured_rounding(part);
    let (n, d) = (2 * (p * f) + u, 2 * u);
    let (q, rest) = (n / d, n % d);
    vstd::arithmetic::div_mod::lemma_fundamental_div_mod(n, d);
    assert(q <= u32::MAX) by (nonlinear_arith)
        requires
            n == d * q + rest,
            0 <= rest < d,
            n == 2 * (p * f) + u,
            d == 2 * u,
            p * f <= u * u32::MAX,
            u >= 2,
    ;
    assert(d * q == 2 * q * u) by (nonlinear_arith)
        requires
            d == 2 * u,
    ;
    assert(2 * p * f == 2 * (p * f)) by (nonlinear_arith);
    assert(f == u ==> q == p) by (nonlinear_arith)
        requires
            n == d * q + rest,
            0 <= rest < d,
            n == 2 * (p * f) + u,
            d == 2 * u,
            u >= 2,
    ;
    assert(f == 0 ==> q == 0) by (nonlinear_arith)
        requires
            n == d * q + rest,
            0 <= rest < d,
            n == 2 * (p * f) + u,
            d == 2 * u,
            u >= 2,
    ;
}

/// A bet is the share of the pot that it is of, to the nearest chip, at least the minimum bet and at most the
/// stack; a whole share is the pot.
pub proof fn bets_are_shares_of_the_pot<S: MeasuredScalar>(
    pot: u32,
    fraction: S,
    min_bet: u32,
    stack: u32,
)
    requires
        0 <= fraction.steps(),
        pot * fraction.steps() <= S::unit() * u32::MAX,
    ensures
        ({
            let amount = sized(pot, fraction, min_bet, stack);
            &&& amount <= stack
            &&& min_bet <= stack ==> amount >= min_bet
            &&& min_bet < amount < stack ==> is_nearest(amount as int, pot, fraction)
            &&& amount == stack > min_bet ==> 2 * stack * S::unit() <= 2 * pot * fraction.steps()
                + S::unit()
            &&& amount == min_bet < stack ==> 2 * pot * fraction.steps() <= 2 * min_bet * S::unit()
                + S::unit()
            &&& fraction.steps() == S::unit() && min_bet <= pot <= stack ==> amount == pot
        }),
{
    lemma_share(pot, fraction);
    let nearest = S::from_u32_spec(pot).times_spec(fraction).round_u32_spec() as int;
    let u = S::unit();
    S::measured_units();
    let (m, s) = (min_bet as int, stack as int);
    assert(nearest >= s ==> 2 * s * u <= 2 * nearest * u) by (nonlinear_arith)
        requires
            u > 0,
    ;
    assert(nearest <= m ==> 2 * nearest * u <= 2 * m * u) by (nonlinear_arith)
        requires
            u > 0,
    ;
}

/// A bet that is spread over the streets left is at most the share of the pot that it may be. On the last street
/// it puts the whole stack in, if it may be that large and the pot is less than half of the steps of one.
pub proof fn geometric_bets_put_the_stack_in<S: MeasuredScalar>(
    pot: u32,
    stack: u32,
    streets: u8,
    max_pot_fraction: S,
    min_bet: u32,
)
    requires
        0 < pot,
        2 * pot < S::unit(),
        stack <= 0x7fff_ffff,
        0 <= max_pot_fraction.steps(),
        pot * max_pot_fraction.steps() <= S::unit() * u32::MAX,
        geometric_share::<S>(pot, stack, streets).steps() >= 0,
    ensures
        ({
            let amount = geometric(pot, stack, streets, max_pot_fraction, min_bet);
            &&& amount <= stack
            &&& amount <= sized(pot, max_pot_fraction, min_bet, stack)
            &&& streets <= 1 && stack * S::unit() <= pot * max_pot_fraction.steps() ==> amount == stack
        }),
{
    S::measured_units();
    let u = S::unit();
    let share = geometric_share::<S>(pot, stack, streets);
    S::measured_order(share, max_pot_fraction);
    let least = share.min_spec(max_pot_fraction);
    let (p, f, m) = (pot as int, least.steps(), max_pot_fraction.steps());
    assert(p * f <= p * m) by (nonlinear_arith)
        requires
            f <= m,
            p >= 0,
    ;
    lemma_share(pot, least);
    lemma_share(pot, max_pot_fraction);
    let a = S::from_u32_spec(pot).times_spec(least).round_u32_spec() as int;
    let b = S::from_u32_spec(pot).times_spec(max_pot_fraction).round_u32_spec() as int;
    S::measured_rounding(S::from_u32_spec(pot).times_spec(least));
    S::measured_rounding(S::from_u32_spec(pot).times_spec(max_pot_fraction));
    vstd::arithmetic::div_mod::lemma_div_is_ordered(2 * (p * f) + u, 2 * (p * m) + u, 2 * u);
    assert(a <= b);
    if streets <= 1 && stack * u <= p * m {
        let s = stack as int;
        S::measured_counts(pot, 0);
        S::measured_counts(stack, 0);
        S::measured_counts(2, 0);
        let two = S::from_u32_spec(2);
        let ratio = stack_to_pot::<S>(stack, pot);
        let d = p * u;
        let q = ((s * u) * u) / d;
        let rest = ((s * u) * u) % d;
        assert(d > 0 && 0 <= s * u <= S::limit() && 4 * (s * u) + u <= S::limit() * 4) by (nonlinear_arith)
            requires
                d == p * u,
                p > 0,
                u >= 2,
                0 <= s < 0x1_0000_0000,
                u * 0x1_0000_0000 <= S::limit(),
        ;
        vstd::arithmetic::div_mod::lemma_fundamental_div_mod((s * u) * u, d);
        assert(p * q <= s * u < p * q + p) by (nonlinear_arith)
            requires
                (s * u) * u == d * q + rest,
                0 <= rest < d,
                d == p * u,
                u > 0,
        ;
        assert(0 <= q <= s * u) by (nonlinear_arith)
            requires
                p * q <= s * u,
                s * u < p * q + p,
                p >= 1,
                s * u >= 0,
        ;
        S::measured_quotient(S::from_u32_spec(stack), S::from_u32_spec(pot));
        assert(ratio.steps() == q);
        lemma_one_street::<S>(stack, pot, streets);
        assert(2 * q + u <= S::limit()) by (nonlinear_arith)
            requires
                q <= s * u,
                0 <= s <= 0x7fff_ffff,
                u * 0x1_0000_0000 <= S::limit(),
                u >= 2,
        ;
        assert(share.steps() == q);
        assert(f == q) by (nonlinear_arith)
            requires
                p * q <= s * u,
                s * u <= p * m,
                f == (if q <= m {
                    q
                } else {
                    m
                }),
                p >= 1,
        ;
        assert((2 * u) * s == 2 * (s * u)) by (nonlinear_arith);
        let n = 2 * (p * f) + u;
        assert(n == (2 * u) * s + (n - 2 * (s * u)));
        vstd::arithmetic::div_mod::lemma_fundamental_div_mod_converse(n, 2 * u, s, n - 2 * (s * u));
        assert(a == s);
    }
}

proof fn lemma_one_street<S: MeasuredScalar>(stack: u32, pot: u32, streets: u8)
    requires
        streets <= 1,
        0 <= stack_to_pot::<S>(stack, pot).steps(),
    ensures
        2 * stack_to_pot::<S>(stack, pot).steps() + S::unit() <= S::limit() ==> geometric_share::<S>(
            pot,
            stack,
            streets,
        ).steps() == stack_to_pot::<S>(stack, pot).steps(),
{
    S::measured_units();
    S::measured_counts(2, 0);
    let u = S::unit();
    let two = S::from_u32_spec(2);
    let ratio = stack_to_pot::<S>(stack, pot);
    let q = ratio.steps();
    if 2 * q + u <= S::limit() {
        assert((2 * u) * q == u * (2 * q)) by (nonlinear_arith);
        vstd::arithmetic::div_mod::lemma_div_multiples_vanish(2 * q, u);
        S::measured_product(two, ratio);
        S::measured_sum(two.times_spec(ratio), S::one_spec());
        let growth = two.times_spec(ratio).plus_spec(S::one_spec());
        S::measured_first_root(growth);
        S::measured_sum(growth, S::one_spec());
        assert((2 * q) * u == (2 * u) * q) by (nonlinear_arith);
        vstd::arithmetic::div_mod::lemma_div_multiples_vanish(q, 2 * u);
        S::measured_quotient(growth.minus_spec(S::one_spec()), two);
    }
}

/// A bet is spread over as many streets as it is set to, or over those that are left: one on the river, one more
/// on the turn and on the flop. A raise is spread over one fewer for each raise before, but at least one.
pub proof fn bets_are_spread_over_streets(configured: u8, raises: u8, street: Street)
    ensures
        configured > 0 ==> geometric_streets(street, configured) == configured,
        geometric_streets(Street::River, 0) == 1,
        geometric_streets(Street::Turn, 0) == geometric_streets(Street::River, 0) + 1,
        geometric_streets(Street::Flop, 0) == geometric_streets(Street::Turn, 0) + 1,
        raise_streets(street, configured, raises) >= 1,
        raise_streets(street, configured, 0) == geometric_streets(street, configured),
        raises < geometric_streets(street, configured) ==> raise_streets(street, configured, raises)
            + raises == geometric_streets(street, configured),
{
}

impl<S: MeasuredScalar> ActionAbstraction<S> {
    /// A raise is to the bet that it answers and its share of the pot after a call, or to a multiple of the bet,
    /// or all in; at least to the bet and the last raise and the minimum bet on top of it.
    pub proof fn raises_top_the_bet(self, state: PublicState, size: RaiseSizeSpec<S>)
        requires
            state.counts(),
            state.owed() <= state.stack(state.player),
        ensures
            ({
                let target = self.raise_target(state, size);
                let bet = state.commit(state.player.other_spec());
                let called = state.pot + state.owed();
                let least = bet + (if state.last_raise_size >= self.min_bet {
                    state.last_raise_size
                } else {
                    self.min_bet
                });
                &&& least <= u32::MAX ==> target >= least
                &&& least <= u32::MAX && target > least ==> match size {
                    RaiseSizeSpec::PotFraction(fraction) => 0 <= fraction.steps() && called
                        * fraction.steps() <= S::unit() * u32::MAX && target < u32::MAX
                        ==> is_nearest(target - bet, called as u32, fraction),
                    RaiseSizeSpec::PreviousBetMultiplier(multiplier) => 0 <= multiplier.steps() && bet
                        * multiplier.steps() <= S::unit() * u32::MAX ==> is_nearest(
                        target,
                        bet,
                        multiplier,
                    ),
                    RaiseSizeSpec::Geometric { .. } => target - bet <= floored(
                        state.stack(state.player) - state.owed(),
                    ),
                    RaiseSizeSpec::AllIn => target == state.commit(state.player) + state.stack(
                        state.player,
                    ),
                }
            }),
    {
        let bet = state.commit(state.player.other_spec());
        let called = (state.pot + state.owed()) as u32;
        match size {
            RaiseSizeSpec::PotFraction(fraction) => {
                if 0 <= fraction.steps() && called * fraction.steps() <= S::unit() * u32::MAX {
                    lemma_share(called, fraction);
                }
            },
            RaiseSizeSpec::PreviousBetMultiplier(multiplier) => {
                if 0 <= multiplier.steps() && bet * multiplier.steps() <= S::unit() * u32::MAX {
                    lemma_share(bet, multiplier);
                }
            },
            _ => {},
        }
    }

    /// A bet or raise becomes all in just if it leaves no more than a set share of the pot that a call of it
    /// makes, and never if that share is not above zero.
    pub proof fn close_bets_go_all_in(self, state: PublicState, amount: u32)
        requires
            state.counts(),
            amount < state.stack(state.player),
            state.pot + 2 * amount <= u32::MAX,
        ensures
            ({
                let after = self.forced(state, ActionKind::Bet { amount });
                let left = state.stack(state.player) - amount;
                let pot = state.pot + amount + amount;
                let threshold = self.raise.force_all_in_threshold.steps();
                &&& after == (ActionKind::Bet { amount }) || after == (ActionKind::AllIn {
                    to: (state.commit(state.player) + state.stack(state.player)) as u32,
                })
                &&& threshold <= 0 ==> after == (ActionKind::Bet { amount })
                &&& threshold > 0 && pot * threshold <= S::unit() * u32::MAX ==> {
                    &&& 2 * left * S::unit() + S::unit() < 2 * pot * threshold ==> after is AllIn
                    &&& 2 * left * S::unit() > 2 * pot * threshold + S::unit() ==> after is Bet
                }
            }),
    {
        S::measured_units();
        let threshold = self.raise.force_all_in_threshold;
        S::measured_order(S::zero_spec(), threshold);
        let pot = (state.pot + 2 * amount) as u32;
        let u = S::unit();
        if threshold.steps() > 0 && pot * threshold.steps() <= u * u32::MAX {
            lemma_share(pot, threshold);
            let nearest = S::from_u32_spec(pot).times_spec(threshold).round_u32_spec() as int;
            let left = state.stack(state.player) - amount;
            assert(left <= nearest ==> 2 * left * u <= 2 * nearest * u) by (nonlinear_arith)
                requires
                    u > 0,
            ;
            assert(left > nearest ==> 2 * left * u >= 2 * nearest * u) by (nonlinear_arith)
                requires
                    u > 0,
            ;
        }
    }
}

/// What an action leaves: after a bet or raise the other player owes what it tops the own bet by; after a call
/// both have as much in, or one is all in; a check passes the turn or ends the street.
pub proof fn actions_leave_what_is_owed(state: PublicState, action: ActionKind)
    requires
        state.is_sound(),
        suits(state, action),
    ensures
        ({
            let player = state.player;
            let other = player.other_spec();
            match (action, transition(state, action)) {
                (ActionKind::Bet { amount }, Transition::State(next)) => {
                    &&& next.owed() == amount
                    &&& next.pot == state.pot + amount
                    &&& next.stack(player) == state.stack(player) - amount
                    &&& next.stack(other) == state.stack(other)
                    &&& next.last_raise_size == amount
                    &&& next.raises_this_street == state.raises_this_street
                },
                (ActionKind::Raise { to }, Transition::State(next)) => {
                    &&& next.commit(player) == to
                    &&& next.owed() == to - state.commit(other)
                    &&& next.pot - state.pot == to - state.commit(player)
                    &&& next.stack(other) == state.stack(other)
                    &&& next.last_raise_size == to - state.commit(other)
                    &&& next.raises_this_street == state.raises_this_street + 1
                },
                (ActionKind::AllIn { to }, Transition::State(next)) => {
                    &&& next.stack(player) == 0
                    &&& next.commit(player) == to
                    &&& next.owed() == to - state.commit(other)
                    &&& next.pot == state.pot + state.stack(player)
                    &&& next.raises_this_street == state.raises_this_street + 1
                },
                (ActionKind::Call { amount }, Transition::Chance(next)) => {
                    &&& next.pot == state.pot + state.owed()
                    &&& next.stack(player) == state.stack(player) - state.owed()
                    &&& next.stack(other) == state.stack(other)
                    &&& next.owed() == 0
                    &&& next.can_donk == (player == Player::Oop)
                    &&& state.street != Street::River
                },
                (ActionKind::Call { amount }, Transition::Terminal(end, reason)) => {
                    &&& end.pot == state.pot + state.owed()
                    &&& end.commit(player) == state.commit(other)
                    &&& reason == TerminalReason::AllIn <==> end.oop_stack == 0 || end.ip_stack == 0
                    &&& reason == TerminalReason::Showdown ==> state.street == Street::River
                },
                (ActionKind::Check, Transition::State(next)) => {
                    &&& state.checks_this_street == 0
                    &&& next.player == other
                    &&& next.pot == state.pot
                    &&& next.owed() == 0
                },
                (ActionKind::Check, Transition::Chance(next)) => {
                    &&& state.checks_this_street > 0
                    &&& next.pot == state.pot
                    &&& !next.can_donk
                },
                (ActionKind::Check, Transition::Terminal(end, reason)) => {
                    &&& state.checks_this_street > 0
                    &&& end == state
                },
                (ActionKind::Fold, Transition::Terminal(end, reason)) => end == state && reason
                    == TerminalReason::Fold,
                _ => false,
            }
        }),
{
}

/// Before a bet a check comes first, before larger bets smaller ones; against a bet folding comes first, a call next,
/// then raises, the smaller ones first.
pub proof fn smaller_bets_come_first(a: ActionKind, b: ActionKind, amount: u32)
    requires
        size_of_action(a) is Some,
        size_of_action(b) is Some,
        (a is Bet) == (b is Bet),
    ensures
        key_less(false, ActionKind::Check, a),
        !(a is Bet) ==> key_less(true, (ActionKind::Call { amount }), a),
        key_less(true, ActionKind::Fold, (ActionKind::Call { amount })),
        key_less(false, a, b) == (size_of_action(a)->0 < size_of_action(b)->0),
        key_less(true, a, b) == (size_of_action(a)->0 < size_of_action(b)->0),
{
}

/// Whether no action of a list comes before one that stands earlier.
pub open spec fn are_in_order(response: bool, actions: Seq<ActionKind>) -> bool {
    forall|i: int, j: int|
        0 <= i < j < actions.len() ==> !key_less(response, #[trigger] actions[j], #[trigger] actions[i])
}

proof fn lemma_inserted(response: bool, list: Seq<ActionKind>, action: ActionKind)
    requires
        are_in_order(response, list),
    ensures
        ({
            let after = inserted(response, list, action);
            &&& after.len() == list.len() + 1
            &&& are_in_order(response, after)
            &&& after.contains(action)
            &&& forall|a: ActionKind| list.contains(a) ==> #[trigger] after.contains(a)
            &&& forall|i: int|
                0 <= i < after.len() ==> #[trigger] after[i] == action || list.contains(after[i])
        }),
    decreases list.len(),
{
    let after = inserted(response, list, action);
    if list.len() == 0 {
        assert(after[0] == action);
    } else if key_less(response, action, list.last()) {
        let front = list.drop_last();
        assert(are_in_order(response, front));
        lemma_inserted(response, front, action);
        let head = inserted(response, front, action);
        assert(after == head.push(list.last()));
        assert forall|i: int, j: int| 0 <= i < j < after.len() implies !key_less(
            response,
            #[trigger] after[j],
            #[trigger] after[i],
        ) by {
            if j == after.len() - 1 {
                assert(after[i] == head[i]);
                if head[i] != action {
                    let k = choose|k: int| 0 <= k < front.len() && front[k] == head[i];
                    assert(list[k] == head[i]);
                    assert(!key_less(response, list[list.len() - 1], list[k]));
                }
            } else {
                assert(after[i] == head[i] && after[j] == head[j]);
            }
        }
        let at = choose|k: int| 0 <= k < head.len() && head[k] == action;
        assert(after[at] == action);
        assert forall|a: ActionKind| list.contains(a) implies #[trigger] after.contains(a) by {
            let k = choose|k: int| 0 <= k < list.len() && list[k] == a;
            if k < front.len() {
                assert(front[k] == a);
                assert(front.contains(a));
                assert(head.contains(a));
                let m = choose|m: int| 0 <= m < head.len() && head[m] == a;
                assert(after[m] == a);
            } else {
                assert(after[after.len() - 1] == a);
            }
        }
        assert forall|i: int| 0 <= i < after.len() implies #[trigger] after[i] == action
            || list.contains(after[i]) by {
            if i < head.len() {
                assert(after[i] == head[i]);
                if head[i] != action {
                    let k = choose|k: int| 0 <= k < front.len() && front[k] == head[i];
                    assert(list[k] == head[i]);
                }
            } else {
                assert(after[i] == list[list.len() - 1]);
            }
        }
    } else {
        assert(after == list.push(action));
        assert forall|i: int, j: int| 0 <= i < j < after.len() implies !key_less(
            response,
            #[trigger] after[j],
            #[trigger] after[i],
        ) by {
            if j == list.len() {
                if i < list.len() - 1 {
                    assert(!key_less(response, list[list.len() - 1], list[i]));
                }
            } else {
                assert(after[i] == list[i] && after[j] == list[j]);
            }
        }
        assert(after[list.len() as int] == action);
        assert forall|a: ActionKind| list.contains(a) implies #[trigger] after.contains(a) by {
            let k = choose|k: int| 0 <= k < list.len() && list[k] == a;
            assert(after[k] == a);
        }
    }
}

proof fn lemma_sorted(response: bool, actions: Seq<ActionKind>, n: nat)
    requires
        n <= actions.len(),
    ensures
        ({
            let sorted = sorted_actions(response, actions, n);
            &&& sorted.len() == n
            &&& are_in_order(response, sorted)
            &&& forall|k: int| 0 <= k < n ==> sorted.contains(#[trigger] actions[k])
            &&& forall|i: int| 0 <= i < n ==> actions.contains(#[trigger] sorted[i])
        }),
    decreases n,
{
    if n > 0 {
        lemma_sorted(response, actions, (n - 1) as nat);
        let front = sorted_actions(response, actions, (n - 1) as nat);
        lemma_inserted(response, front, actions[n - 1]);
        let sorted = sorted_actions(response, actions, n);
        assert forall|k: int| 0 <= k < n implies sorted.contains(#[trigger] actions[k]) by {
            if k < n - 1 {
                assert(front.contains(actions[k]));
            }
        }
        assert forall|i: int| 0 <= i < n implies actions.contains(#[trigger] sorted[i]) by {
            if sorted[i] != actions[n - 1] {
                let j = choose|j: int| 0 <= j < front.len() && front[j] == sorted[i];
                assert(actions.contains(front[j]));
            }
        }
    }
}

proof fn lemma_runs(response: bool, actions: Seq<ActionKind>, n: nat)
    requires
        n <= actions.len(),
        are_in_order(response, actions),
    ensures
        ({
            let after = without_runs(actions, n);
            &&& n > 0 ==> after.len() > 0 && after.last() == actions[n - 1]
            &&& are_in_order(response, after)
            &&& forall|k: int| 0 <= k < n ==> after.contains(#[trigger] actions[k])
            &&& forall|i: int|
                0 <= i < after.len() ==> exists|k: int|
                    0 <= k < n && #[trigger] actions[k] == #[trigger] after[i]
            &&& forall|i: int| 0 < i < after.len() ==> #[trigger] after[i] != after[i - 1]
        }),
    decreases n,
{
    if n > 0 {
        let m = (n - 1) as nat;
        lemma_runs(response, actions, m);
        let front = without_runs(actions, m);
        let after = without_runs(actions, n);
        if n >= 2 && actions[n - 2] == actions[n - 1] {
            assert forall|k: int| 0 <= k < n implies after.contains(#[trigger] actions[k]) by {
                if k == n - 1 {
                    assert(after.contains(actions[n - 2]));
                }
            }
        } else {
            assert(after == front.push(actions[n - 1]));
            assert(after[front.len() as int] == actions[n - 1]);
            assert forall|k: int| 0 <= k < n implies after.contains(#[trigger] actions[k]) by {
                if k < m {
                    assert(front.contains(actions[k]));
                    let j = choose|j: int| 0 <= j < front.len() && front[j] == actions[k];
                    assert(after[j] == actions[k]);
                }
            }
            assert forall|i: int| 0 <= i < after.len() implies exists|k: int|
                0 <= k < n && #[trigger] actions[k] == #[trigger] after[i] by {
                if i < front.len() {
                    let k = choose|k: int|
                        0 <= k < m && #[trigger] actions[k] == #[trigger] front[i];
                    assert(actions[k] == after[i]);
                } else {
                    assert(actions[n - 1] == after[i]);
                }
            }
            assert forall|i: int, j: int| 0 <= i < j < after.len() implies !key_less(
                response,
                #[trigger] after[j],
                #[trigger] after[i],
            ) by {
                if j == front.len() {
                    let k = choose|k: int|
                        0 <= k < m && #[trigger] actions[k] == #[trigger] front[i];
                    assert(after[i] == front[i]);
                    assert(!key_less(response, actions[n - 1], actions[k]));
                } else {
                    assert(after[i] == front[i] && after[j] == front[j]);
                }
            }
        }
    }
}

/// Actions in order: the same actions, from the smallest to the largest; none follows itself.
pub proof fn actions_are_put_in_order(response: bool, actions: Seq<ActionKind>)
    ensures
        ({
            let after = sorted_and_deduped(response, actions);
            &&& are_in_order(response, after)
            &&& forall|k: int| 0 <= k < actions.len() ==> after.contains(#[trigger] actions[k])
            &&& forall|i: int| 0 <= i < after.len() ==> actions.contains(#[trigger] after[i])
            &&& forall|i: int| 0 < i < after.len() ==> #[trigger] after[i] != after[i - 1]
        }),
{
    lemma_sorted(response, actions, actions.len());
    let sorted = sorted_actions(response, actions, actions.len());
    lemma_runs(response, sorted, sorted.len());
    let after = sorted_and_deduped(response, actions);
    assert forall|k: int| 0 <= k < actions.len() implies after.contains(#[trigger] actions[k]) by {
        assert(sorted.contains(actions[k]));
        let j = choose|j: int| 0 <= j < sorted.len() && sorted[j] == actions[k];
        assert(after.contains(sorted[j]));
    }
    assert forall|i: int| 0 <= i < after.len() implies actions.contains(#[trigger] after[i]) by {
        let k = choose|k: int| 0 <= k < sorted.len() && #[trigger] sorted[k] == #[trigger] after[i];
        assert(actions.contains(sorted[k]));
    }
}

/// Of two bets that are both above what they answer, one is merged into a larger one just if the larger one's share
/// of the pot is not above the own by the threshold, of the pot and of the own share.
pub proof fn close_bets_are_merged<S: MeasuredScalar>(
    amount: u32,
    current: u32,
    pot: u32,
    offset: u32,
    threshold: S,
)
    requires
        pot > 0,
        0 < threshold.steps() <= S::limit() / 4,
        current * S::unit() <= S::limit() / 4,
    ensures
        ({
            let (small, large) = (floored(amount - offset), floored(current - offset));
            let (t, u) = (threshold.steps(), S::unit());
            clearly_smaller(amount, current, pot, offset, threshold) ==> {
                &&& amount < current
                &&& large * u * u >= small * u * (u + t) + t * u * pot
            }
        }),
{
    S::measured_units();
    let (small, large) = (floored(amount - offset), floored(current - offset));
    let (t, u, p) = (threshold.steps(), S::unit(), pot as int);
    lemma_of_pot::<S>(small as u32, pot);
    lemma_of_pot::<S>(large as u32, pot);
    let x = S::from_u32_spec(large as u32).over_spec(S::from_u32_spec(pot));
    let y = S::from_u32_spec(small as u32).over_spec(S::from_u32_spec(pot));
    assert(large * u <= current * u) by (nonlinear_arith)
        requires
            large <= current,
            u > 0,
    ;
    S::measured_sum(x, threshold);
    S::measured_sum(S::one_spec(), threshold);
    let over = x.minus_spec(threshold);
    let by = S::one_spec().plus_spec(threshold);
    assert(u <= S::limit() / 4) by (nonlinear_arith)
        requires
            u * 0x1_0000_0000 <= S::limit(),
            u >= 2,
    ;
    let (n, d) = ((x.steps() - t) * u, u + t);
    let (q, rest) = (n / d, n % d);
    vstd::arithmetic::div_mod::lemma_fundamental_div_mod(n, d);
    assert(-S::limit() <= q <= S::limit()) by (nonlinear_arith)
        requires
            n == d * q + rest,
            0 <= rest < d,
            n == (x.steps() - t) * u,
            d == u + t,
            t > 0,
            u >= 2,
            -S::limit() / 2 <= x.steps() - t <= S::limit() / 2,
            S::limit() >= 8,
    ;
    S::measured_quotient(over, by);
    S::measured_order(over.over_spec(by), y);
    if clearly_smaller(amount, current, pot, offset, threshold) {
        let (a, b) = (x.steps(), y.steps());
        assert(q >= b + 1);
        assert((a - t) * u >= (b + 1) * (u + t)) by (nonlinear_arith)
            requires
                n == d * q + rest,
                0 <= rest < d,
                n == (a - t) * u,
                d == u + t,
                q >= b + 1,
        ;
        assert(large * u * u >= small * u * (u + t) + t * u * p) by (nonlinear_arith)
            requires
                (a - t) * u >= (b + 1) * (u + t),
                a * p <= large * u,
                small * u < b * p + p,
                p > 0,
                u > 0,
                t > 0,
        ;
        assert(large > small) by (nonlinear_arith)
            requires
                large * u * u >= small * u * (u + t) + t * u * p,
                small >= 0,
                p > 0,
                u > 0,
                t > 0,
        ;
    }
}

proof fn lemma_of_pot<S: MeasuredScalar>(part: u32, whole: u32)
    requires
        whole > 0,
    ensures
        ({
            let share = S::from_u32_spec(part).over_spec(S::from_u32_spec(whole)).steps();
            &&& share * whole <= part * S::unit() < share * whole + whole
            &&& 0 <= share <= part * S::unit()
        }),
{
    S::measured_units();
    S::measured_counts(part, 0);
    S::measured_counts(whole, 0);
    let (p, w, u) = (part as int, whole as int, S::unit());
    let (d, a) = (w * u, p * u);
    assert(0 <= a <= S::limit() && d > 0) by (nonlinear_arith)
        requires
            a == p * u,
            d == w * u,
            u * 0x1_0000_0000 <= S::limit(),
            0 <= p < 0x1_0000_0000,
            w > 0,
            u >= 2,
    ;
    let (q, rest) = ((a * u) / d, (a * u) % d);
    vstd::arithmetic::div_mod::lemma_fundamental_div_mod(a * u, d);
    assert(w * q <= a < w * q + w) by (nonlinear_arith)
        requires
            a * u == d * q + rest,
            0 <= rest < d,
            d == w * u,
            u > 0,
    ;
    assert(0 <= q <= a) by (nonlinear_arith)
        requires
            w * q <= a < w * q + w,
            w >= 1,
            a >= 0,
    ;
    S::measured_quotient(S::from_u32_spec(part), S::from_u32_spec(whole));
    assert(q * w == w * q) by (nonlinear_arith);
}

/// Merging keeps every action without a size and adds none.
pub proof fn merging_drops_bets_only<S: MeasuredScalar>(
    actions: Seq<ActionKind>,
    pot: u32,
    offset: u32,
    threshold: S,
)
    ensures
        ({
            let after = merged(actions, pot, offset, threshold);
            &&& threshold.steps() <= 0 ==> after == actions
            &&& forall|i: int| 0 <= i < after.len() ==> actions.contains(#[trigger] after[i])
            &&& forall|k: int|
                0 <= k < actions.len() && size_of_action(#[trigger] actions[k]) is None
                    ==> after.contains(actions[k])
        }),
{
    S::measured_units();
    S::measured_order(S::zero_spec(), threshold);
    lemma_merged(actions, pot, offset, threshold, u32::MAX, actions.len());
}

proof fn lemma_merged<S: MeasuredScalar>(
    actions: Seq<ActionKind>,
    pot: u32,
    offset: u32,
    threshold: S,
    current: u32,
    n: nat,
)
    requires
        n <= actions.len(),
    ensures
        ({
            let after = merged_below(actions, pot, offset, threshold, current, n);
            &&& forall|i: int| 0 <= i < after.len() ==> actions.contains(#[trigger] after[i])
            &&& forall|k: int|
                0 <= k < n && size_of_action(#[trigger] actions[k]) is None ==> after.contains(
                    actions[k],
                )
        }),
    decreases n,
{
    if n > 0 {
        let m = (n - 1) as nat;
        let last = actions[n - 1];
        let next = match size_of_action(last) {
            Some(amount) => if clearly_smaller(amount, current, pot, offset, threshold) {
                amount
            } else {
                current
            },
            None => current,
        };
        lemma_merged(actions, pot, offset, threshold, next, m);
        let front = merged_below(actions, pot, offset, threshold, next, m);
        let after = merged_below(actions, pot, offset, threshold, current, n);
        assert forall|k: int| 0 <= k < n && size_of_action(#[trigger] actions[k]) is None implies after.contains(
            actions[k],
        ) by {
            if k < m {
                let j = choose|j: int| 0 <= j < front.len() && front[j] == actions[k];
                assert(after[j] == actions[k]);
            } else {
                assert(after[front.len() as int] == last);
            }
        }
        assert forall|i: int| 0 <= i < after.len() implies actions.contains(#[trigger] after[i]) by {
            if i < front.len() {
                assert(after[i] == front[i]);
            } else {
                assert(after[i] == actions[n - 1]);
            }
        }
    }
}

} // verus!
