//! What the solver of a river learns, in whole numbers of steps: hands that win learn to stay in, hands that
//! lose learn to give up.
use vstd::prelude::*;
use crate::matching_laws::{above, are_shares, lemma_part, shares_make_one, total_above, total_of};
use crate::measure::{share_in_steps, MeasuredScalar};
use crate::report_laws::half_in_steps;
use crate::river::RiverCombo;
use crate::river_cfr::{
    after_check, facing_bet, node_or_fresh, showdown_value, weighed, RiverCfrNode, RiverTables,
};
use crate::scalar::ratio_spec;
use crate::update_laws::{comparable, is_share};

verus! {

/// At a showdown the stronger hand wins what the weaker hand loses, and equal hands win nothing.
pub proof fn showdowns_are_fair<S: MeasuredScalar>(oop: u64, ip: u64, amount: S)
    requires
        amount.steps() >= 0,
        amount.steps() <= S::limit(),
    ensures
        showdown_value(oop, ip, amount).steps() == -showdown_value(ip, oop, amount).steps(),
        oop > ip ==> showdown_value(oop, ip, amount).steps() == amount.steps(),
        oop == ip ==> showdown_value(oop, ip, amount).steps() == 0,
{
    S::measured_units();
    S::measured_sum(amount, amount);
}

impl<S: MeasuredScalar> RiverCfrNode<S> {
    /// Whether what was learned can be shared out and added to.
    pub open spec fn in_bounds(self) -> bool {
        &&& comparable::<S>(self.regret_sum.first.steps())
        &&& comparable::<S>(self.regret_sum.second.steps())
        &&& 0 <= self.strategy_sum.first.steps()
        &&& comparable::<S>(self.strategy_sum.first.steps())
        &&& 0 <= self.strategy_sum.second.steps()
        &&& comparable::<S>(self.strategy_sum.second.steps())
    }

    /// How a hand acts by its regrets: each way by what its regret is above zero, both ways alike where
    /// neither is. How it acted on average: by its sums.
    pub proof fn two_ways_share_out_one(self)
        requires
            self.in_bounds(),
        ensures
            are_shares(
                seq![self.regret_sum.first.steps(), self.regret_sum.second.steps()],
                seq![self.strategy_spec().0.steps(), self.strategy_spec().1.steps()],
                S::unit(),
            ),
            are_shares(
                seq![self.strategy_sum.first.steps(), self.strategy_sum.second.steps()],
                seq![self.average_spec().0.steps(), self.average_spec().1.steps()],
                S::unit(),
            ),
            is_share(self.strategy_spec().0),
            is_share(self.strategy_spec().1),
            self.strategy_spec().0.steps() + self.strategy_spec().1.steps() <= S::unit(),
            is_share(self.average_spec().0),
            is_share(self.average_spec().1),
    {
        S::measured_units();
        let zero = S::zero_spec();
        half_in_steps(zero);
        let regrets = seq![self.regret_sum.first.steps(), self.regret_sum.second.steps()];
        let sums = seq![self.strategy_sum.first.steps(), self.strategy_sum.second.steps()];
        let acts = seq![self.strategy_spec().0.steps(), self.strategy_spec().1.steps()];
        let acted = seq![self.average_spec().0.steps(), self.average_spec().1.steps()];
        reveal_with_fuel(total_above, 3);
        reveal_with_fuel(total_of, 3);
        let first = self.regret_sum.first.max_spec(zero);
        let second = self.regret_sum.second.max_spec(zero);
        S::measured_order(self.regret_sum.first, zero);
        S::measured_order(self.regret_sum.second, zero);
        S::measured_sum(first, second);
        let total = first.plus_spec(second);
        S::measured_order(total, zero);
        if total.steps() > 0 {
            lemma_part(first, total);
            lemma_part(second, total);
        }
        let sum = self.strategy_sum.first.plus_spec(self.strategy_sum.second);
        S::measured_sum(self.strategy_sum.first, self.strategy_sum.second);
        S::measured_order(sum, zero);
        if sum.steps() > 0 {
            lemma_part(self.strategy_sum.first, sum);
            lemma_part(self.strategy_sum.second, sum);
        }
        assert(total_above(regrets, 2) == above(regrets[0]) + above(regrets[1]));
        assert(total_above(sums, 2) == above(sums[0]) + above(sums[1]));
        shares_make_one(regrets, acts, S::unit());
        shares_make_one(sums, acted, S::unit());
        assert(acts[0] == self.strategy_spec().0.steps() && acts[1] == self.strategy_spec().1.steps());
        assert(acted[0] == self.average_spec().0.steps() && acted[1] == self.average_spec().1.steps());
        assert(total_of(acts, 2) == acts[0] + acts[1]);
    }
}

/// The value of a decision lies between the values of its actions if these are on either side of zero, and
/// is the value of an action that is surely taken.
pub proof fn decisions_are_worth_their_actions<S: MeasuredScalar>(strategy: (S, S), values: (S, S))
    requires
        is_share(strategy.0),
        is_share(strategy.1),
        comparable::<S>(values.0.steps()),
        comparable::<S>(values.1.steps()),
    ensures
        weighed(strategy, values).steps() == (strategy.0.steps() * values.0.steps()) / S::unit() + (
        strategy.1.steps() * values.1.steps()) / S::unit(),
        values.0.steps() <= 0 <= values.1.steps() ==> values.0.steps() <= weighed(
            strategy,
            values,
        ).steps() <= values.1.steps(),
        strategy.0.steps() == S::unit() && strategy.1.steps() == 0 ==> weighed(strategy, values).steps()
            == values.0.steps(),
        strategy.1.steps() == S::unit() && strategy.0.steps() == 0 ==> weighed(strategy, values).steps()
            == values.1.steps(),
        -S::limit() / 3 <= weighed(strategy, values).steps() <= S::limit() / 3,
{
    S::measured_units();
    share_in_steps(strategy.0, values.0);
    share_in_steps(strategy.1, values.1);
    let first = strategy.0.times_spec(values.0);
    let second = strategy.1.times_spec(values.1);
    S::measured_sum(S::zero_spec(), first);
    S::measured_sum(S::zero_spec().plus_spec(first), second);
}

pub(crate) proof fn lemma_mix(p: int, q: int, a: int, b: int, unit: int)
    requires
        p >= 0,
        q >= 0,
        p + q == unit,
        unit > 0,
        a <= b,
    ensures
        a - 1 <= (q * a) / unit + (p * b) / unit <= b,
{
    let x = (q * a) / unit;
    let y = (p * b) / unit;
    vstd::arithmetic::div_mod::lemma_fundamental_div_mod(q * a, unit);
    vstd::arithmetic::div_mod::lemma_fundamental_div_mod(p * b, unit);
    let r = (q * a) % unit;
    let s = (p * b) % unit;
    assert(unit * (x + y) + r + s == q * a + p * b) by (nonlinear_arith)
        requires
            q * a == unit * x + r,
            p * b == unit * y + s,
    ;
    assert(q * a + p * b >= unit * a && q * a + p * b <= unit * b) by (nonlinear_arith)
        requires
            p >= 0,
            q >= 0,
            p + q == unit,
            a <= b,
    ;
    assert(a - 1 <= x + y <= b) by (nonlinear_arith)
        requires
            unit * (x + y) + r + s >= unit * a,
            unit * (x + y) + r + s <= unit * b,
            0 <= r < unit,
            0 <= s < unit,
            unit > 0,
    ;
}

/// Whether chips and reaches can be computed with.
pub open spec fn can_be_played<S: MeasuredScalar>(pot: S, bet: S, reach: (S, S)) -> bool {
    &&& 0 <= pot.steps() <= S::limit() / 16
    &&& 0 <= bet.steps() <= S::limit() / 16
    &&& is_share(reach.0)
    &&& is_share(reach.1)
}

/// What folding and calling are worth to the player out of position, in steps: half the pot lost, or half the
/// pot and the bet won, lost or neither.
pub open spec fn stakes<S: MeasuredScalar>(pot: S, bet: S, oop: u64, ip: u64) -> (int, int) {
    let called = pot.steps() / 2 + bet.steps();
    (
        (-pot.steps()) / 2,
        if oop > ip {
            called
        } else if oop < ip {
            -called
        } else {
            0
        },
    )
}

proof fn lemma_stakes<S: MeasuredScalar>(pot: S, bet: S, oop: u64, ip: u64)
    requires
        0 <= pot.steps() <= S::limit() / 16,
        0 <= bet.steps() <= S::limit() / 16,
    ensures
        pot.negate_spec().times_spec(ratio_spec(1, 2)).steps() == stakes(pot, bet, oop, ip).0,
        showdown_value(
            oop,
            ip,
            pot.times_spec(ratio_spec(1, 2)).plus_spec(bet),
        ).steps() == stakes(pot, bet, oop, ip).1,
        comparable::<S>(stakes(pot, bet, oop, ip).0),
        comparable::<S>(stakes(pot, bet, oop, ip).1),
{
    S::measured_units();
    S::measured_sum(pot, pot);
    half_in_steps(pot);
    half_in_steps(pot.negate_spec());
    let half = pot.times_spec(ratio_spec(1, 2));
    S::measured_sum(half, bet);
    showdowns_are_fair(oop, ip, half.plus_spec(bet));
    showdowns_are_fair(ip, oop, half.plus_spec(bet));
}

/// Facing a bet: the regret of folding and of calling moves by what the action was worth more than the
/// decision, as far as the player in position comes there. A hand that wins gains no regret for folding and
/// loses none for calling. A hand that loses loses none for folding, and gains none for calling but for a
/// step of rounding.
pub proof fn winners_learn_to_call<S: MeasuredScalar>(
    combos: Seq<RiverCombo>,
    pot: S,
    bet: S,
    tables: RiverTables<S>,
    oop: int,
    ip: int,
    reach: (S, S),
)
    requires
        0 <= oop < tables.oop.len(),
        can_be_played(pot, bet, reach),
        node_or_fresh(tables.oop[oop]).in_bounds(),
    ensures
        ({
            let hero = combos[oop].value.packed;
            let villain = combos[ip].value.packed;
            let step = facing_bet(combos, pot, bet, tables, oop, ip, reach);
            let before = node_or_fresh(tables.oop[oop]);
            let after = node_or_fresh(step.tables.oop[oop]);
            let (fold, call) = stakes(pot, bet, hero, villain);
            let certain = before.strategy_spec().0.steps() + before.strategy_spec().1.steps()
                == S::unit();
            &&& after.regret_sum.first.steps() == before.regret_sum.first.steps() + (
            reach.1.steps() * (fold - step.value.steps())) / S::unit()
            &&& after.regret_sum.second.steps() == before.regret_sum.second.steps() + (
            reach.1.steps() * (call - step.value.steps())) / S::unit()
            &&& step.value.steps() == (before.strategy_spec().0.steps() * fold) / S::unit() + (
            before.strategy_spec().1.steps() * call) / S::unit()
            &&& hero >= villain ==> after.regret_sum.first.steps() <= before.regret_sum.first.steps()
                && after.regret_sum.second.steps() >= before.regret_sum.second.steps()
            &&& hero < villain && bet.steps() > 0 && certain ==> after.regret_sum.first.steps()
                >= before.regret_sum.first.steps() && after.regret_sum.second.steps()
                <= before.regret_sum.second.steps() + 1
            &&& after.strategy_sum.first.steps() == before.strategy_sum.first.steps() + (
            reach.0.steps() * before.strategy_spec().0.steps()) / S::unit()
            &&& after.strategy_sum.second.steps() == before.strategy_sum.second.steps() + (
            reach.0.steps() * before.strategy_spec().1.steps()) / S::unit()
            &&& step.tables.ip == tables.ip
            &&& forall|i: int|
                0 <= i < tables.oop.len() && i != oop ==> #[trigger] step.tables.oop[i]
                    == tables.oop[i]
        }),
{
    S::measured_units();
    let hero = combos[oop].value.packed;
    let villain = combos[ip].value.packed;
    let before = node_or_fresh(tables.oop[oop]);
    before.two_ways_share_out_one();
    lemma_stakes(pot, bet, hero, villain);
    let strategy = before.strategy_spec();
    let half = pot.times_spec(ratio_spec(1, 2));
    let fold = pot.negate_spec().times_spec(ratio_spec(1, 2));
    let call = showdown_value(hero, villain, half.plus_spec(bet));
    decisions_are_worth_their_actions(strategy, (fold, call));
    let value = weighed(strategy, (fold, call));
    lemma_learned(before, reach.1, fold, call, value, reach.0);
    let (u, r) = (S::unit(), reach.1.steps());
    if hero >= villain {
        assert(r * (fold.steps() - value.steps()) <= 0) by (nonlinear_arith)
            requires
                r >= 0,
                fold.steps() <= value.steps(),
        ;
        assert(r * (call.steps() - value.steps()) >= 0) by (nonlinear_arith)
            requires
                r >= 0,
                call.steps() >= value.steps(),
        ;
        lemma_signs(r * (fold.steps() - value.steps()), u);
        lemma_signs(r * (call.steps() - value.steps()), u);
    } else if bet.steps() > 0 && strategy.0.steps() + strategy.1.steps() == u {
        lemma_mix(strategy.0.steps(), strategy.1.steps(), call.steps(), fold.steps(), u);
        assert(r * (fold.steps() - value.steps()) >= 0) by (nonlinear_arith)
            requires
                r >= 0,
                fold.steps() >= value.steps(),
        ;
        assert(r * (call.steps() - value.steps()) <= u) by (nonlinear_arith)
            requires
                0 <= r <= u,
                call.steps() - value.steps() <= 1,
        ;
        lemma_signs(r * (fold.steps() - value.steps()), u);
        vstd::arithmetic::div_mod::lemma_div_is_ordered(r * (call.steps() - value.steps()), u, u);
        assert(u / u == 1) by {
            vstd::arithmetic::div_mod::lemma_div_basics(u);
        }
    }
}

proof fn lemma_signs(value: int, unit: int)
    requires
        unit > 0,
    ensures
        value >= 0 ==> value / unit >= 0,
        value <= 0 ==> value / unit <= 0,
{
    vstd::arithmetic::div_mod::lemma_div_basics(unit);
    if value >= 0 {
        vstd::arithmetic::div_mod::lemma_div_is_ordered(0, value, unit);
    } else {
        vstd::arithmetic::div_mod::lemma_div_is_ordered(value, 0, unit);
    }
}

/// What is learned of two actions from their values to the player out of position.
proof fn lemma_learned<S: MeasuredScalar>(
    node: RiverCfrNode<S>,
    against: S,
    first: S,
    second: S,
    value: S,
    own: S,
)
    requires
        node.in_bounds(),
        is_share(against),
        is_share(own),
        comparable::<S>(first.steps()),
        comparable::<S>(second.steps()),
        -S::limit() / 3 <= value.steps() <= S::limit() / 3,
    ensures
        ({
            let strategy = node.strategy_spec();
            let oop = node.learned(
                against,
                (first.minus_spec(value), second.minus_spec(value)),
                own,
                strategy,
            );
            let ip = node.learned(
                against,
                (value.minus_spec(first), value.minus_spec(second)),
                own,
                strategy,
            );
            let a = against.steps();
            let u = S::unit();
            &&& oop.regret_sum.first.steps() == node.regret_sum.first.steps() + (a * (first.steps()
                - value.steps())) / u
            &&& oop.regret_sum.second.steps() == node.regret_sum.second.steps() + (a * (
            second.steps() - value.steps())) / u
            &&& ip.regret_sum.first.steps() == node.regret_sum.first.steps() + (a * (value.steps()
                - first.steps())) / u
            &&& ip.regret_sum.second.steps() == node.regret_sum.second.steps() + (a * (value.steps()
                - second.steps())) / u
            &&& oop.strategy_sum == ip.strategy_sum
            &&& oop.strategy_sum.first.steps() == node.strategy_sum.first.steps() + (own.steps()
                * strategy.0.steps()) / u
            &&& oop.strategy_sum.second.steps() == node.strategy_sum.second.steps() + (own.steps()
                * strategy.1.steps()) / u
        }),
{
    S::measured_units();
    node.two_ways_share_out_one();
    lemma_one_counts::<S>();
    let strategy = node.strategy_spec();
    S::measured_sum(first, value);
    S::measured_sum(second, value);
    S::measured_sum(value, first);
    S::measured_sum(value, second);
    share_in_steps(against, first.minus_spec(value));
    share_in_steps(against, second.minus_spec(value));
    share_in_steps(against, value.minus_spec(first));
    share_in_steps(against, value.minus_spec(second));
    S::measured_sum(node.regret_sum.first, against.times_spec(first.minus_spec(value)));
    S::measured_sum(node.regret_sum.second, against.times_spec(second.minus_spec(value)));
    S::measured_sum(node.regret_sum.first, against.times_spec(value.minus_spec(first)));
    S::measured_sum(node.regret_sum.second, against.times_spec(value.minus_spec(second)));
    share_in_steps(own, strategy.0);
    share_in_steps(own, strategy.1);
    S::measured_sum(node.strategy_sum.first, own.times_spec(strategy.0));
    S::measured_sum(node.strategy_sum.second, own.times_spec(strategy.1));
}

proof fn lemma_one_counts<S: MeasuredScalar>()
    ensures
        16 * S::unit() <= S::limit(),
{
    S::measured_units();
}

/// After a check: checking shows down for half the pot, betting is worth what it is to face the bet. The
/// regret of either moves by how much less it was worth to the player out of position than the decision, as
/// far as that player comes there; of two with one regret, the one worth less to that player ends with at
/// least as much.
pub proof fn betting_pays_if_the_other_loses<S: MeasuredScalar>(
    combos: Seq<RiverCombo>,
    pot: S,
    bet: S,
    tables: RiverTables<S>,
    oop: int,
    ip: int,
    reach: (S, S),
)
    requires
        0 <= oop < tables.oop.len(),
        0 <= ip < tables.ip.len(),
        can_be_played(pot, bet, reach),
        node_or_fresh(tables.oop[oop]).in_bounds(),
        node_or_fresh(tables.ip[ip]).in_bounds(),
    ensures
        ({
            let hero = combos[oop].value.packed;
            let villain = combos[ip].value.packed;
            let step = after_check(combos, pot, bet, tables, oop, ip, reach);
            let before = node_or_fresh(tables.ip[ip]);
            let after = node_or_fresh(step.tables.ip[ip]);
            let faced = facing_bet(
                combos,
                pot,
                bet,
                RiverTables { ip: tables.ip.update(ip, Some(before)), ..tables },
                oop,
                ip,
                (reach.0, reach.1.times_spec(before.strategy_spec().1)),
            );
            let half = pot.steps() / 2;
            let check = if hero > villain {
                half
            } else if hero < villain {
                -half
            } else {
                0
            };
            let wager = faced.value.steps();
            &&& after.regret_sum.first.steps() == before.regret_sum.first.steps() + (
            reach.0.steps() * (step.value.steps() - check)) / S::unit()
            &&& after.regret_sum.second.steps() == before.regret_sum.second.steps() + (
            reach.0.steps() * (step.value.steps() - wager)) / S::unit()
            &&& step.value.steps() == (before.strategy_spec().0.steps() * check) / S::unit() + (
            before.strategy_spec().1.steps() * wager) / S::unit()
            &&& before.regret_sum.first == before.regret_sum.second && check <= wager
                ==> after.regret_sum.first.steps() >= after.regret_sum.second.steps()
            &&& before.regret_sum.first == before.regret_sum.second && wager <= check
                ==> after.regret_sum.second.steps() >= after.regret_sum.first.steps()
            &&& after.strategy_sum.first.steps() == before.strategy_sum.first.steps() + (
            reach.1.steps() * before.strategy_spec().0.steps()) / S::unit()
            &&& after.strategy_sum.second.steps() == before.strategy_sum.second.steps() + (
            reach.1.steps() * before.strategy_spec().1.steps()) / S::unit()
            &&& step.tables.oop == faced.tables.oop
        }),
{
    S::measured_units();
    lemma_one_counts::<S>();
    let hero = combos[oop].value.packed;
    let villain = combos[ip].value.packed;
    let before = node_or_fresh(tables.ip[ip]);
    before.two_ways_share_out_one();
    let strategy = before.strategy_spec();
    share_in_steps(reach.1, strategy.1);
    let inner = RiverTables { ip: tables.ip.update(ip, Some(before)), ..tables };
    let inner_reach = (reach.0, reach.1.times_spec(strategy.1));
    winners_learn_to_call(combos, pot, bet, inner, oop, ip, inner_reach);
    let faced = facing_bet(combos, pot, bet, inner, oop, ip, inner_reach);
    half_in_steps(pot);
    let half = pot.times_spec(ratio_spec(1, 2));
    showdowns_are_fair(hero, villain, half);
    showdowns_are_fair(villain, hero, half);
    let check = showdown_value(hero, villain, half);
    lemma_faced(combos, pot, bet, inner, oop, ip, inner_reach);
    decisions_are_worth_their_actions(strategy, (check, faced.value));
    let value = weighed(strategy, (check, faced.value));
    lemma_learned(before, reach.0, check, faced.value, value, reach.1);
    let r = reach.0.steps();
    let (x, y) = (value.steps() - check.steps(), value.steps() - faced.value.steps());
    if x <= y {
        assert(r * x <= r * y) by (nonlinear_arith)
            requires
                r >= 0,
                x <= y,
        ;
        vstd::arithmetic::div_mod::lemma_div_is_ordered(r * x, r * y, S::unit());
    }
    if y <= x {
        assert(r * y <= r * x) by (nonlinear_arith)
            requires
                r >= 0,
                y <= x,
        ;
        vstd::arithmetic::div_mod::lemma_div_is_ordered(r * y, r * x, S::unit());
    }
}

proof fn lemma_faced<S: MeasuredScalar>(
    combos: Seq<RiverCombo>,
    pot: S,
    bet: S,
    tables: RiverTables<S>,
    oop: int,
    ip: int,
    reach: (S, S),
)
    requires
        0 <= oop < tables.oop.len(),
        can_be_played(pot, bet, reach),
        node_or_fresh(tables.oop[oop]).in_bounds(),
    ensures
        comparable::<S>(facing_bet(combos, pot, bet, tables, oop, ip, reach).value.steps()),
{
    S::measured_units();
    lemma_one_counts::<S>();
    let before = node_or_fresh(tables.oop[oop]);
    let hero = combos[oop].value.packed;
    let villain = combos[ip].value.packed;
    before.two_ways_share_out_one();
    lemma_stakes(pot, bet, hero, villain);
    let strategy = before.strategy_spec();
    let half = pot.times_spec(ratio_spec(1, 2));
    let fold = pot.negate_spec().times_spec(ratio_spec(1, 2));
    let call = showdown_value(hero, villain, half.plus_spec(bet));
    decisions_are_worth_their_actions(strategy, (fold, call));
    share_in_steps(strategy.0, fold);
    share_in_steps(strategy.1, call);
    let (p, q) = (strategy.0.steps(), strategy.1.steps());
    let (f, c, u) = (fold.steps(), call.steps(), S::unit());
    if c < 0 {
        vstd::arithmetic::div_mod::lemma_fundamental_div_mod(p * f, u);
        vstd::arithmetic::div_mod::lemma_fundamental_div_mod(q * c, u);
        let (x, y) = ((p * f) / u, (q * c) / u);
        let low = if f < c {
            f
        } else {
            c
        };
        assert(p * f + q * c >= u * low) by (nonlinear_arith)
            requires
                p >= 0,
                q >= 0,
                p + q <= u,
                low <= f,
                low <= c,
                low <= 0,
        ;
        let (r, s) = ((p * f) % u, (q * c) % u);
        assert(x + y >= low - 2) by (nonlinear_arith)
            requires
                p * f == u * x + r,
                q * c == u * y + s,
                p * f + q * c >= u * low,
                0 <= r < u,
                0 <= s < u,
                u >= 2,
        ;
    }
}

} // verus!
