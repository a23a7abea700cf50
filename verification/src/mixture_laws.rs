//! What a decision is worth: to the player who acts, its actions by how often each is taken; to the other,
//! all that comes of them. In whole numbers of steps.
use vstd::prelude::*;
use crate::cfr_math::{acting_value, best_value, nonacting_value, permuted_added, reach_after};
use crate::matching_laws::total_of;
use crate::measure::{share_in_steps, MeasuredScalar};
use crate::node_math::{acting_value_major, reach_major};
use crate::subgame::{Player, Sides};
use crate::subgame_cfr::{actions_visited, visited, Walk};
use crate::subgame_nodes::Entry;
use crate::subgame_tree::EdgeView;
use crate::update_laws::is_share;

verus! {

/// The first `n` values, each by its share, rounded down and added up.
pub open spec fn mixed_steps(shares: Seq<int>, values: Seq<int>, unit: int, n: nat) -> int
    decreases n,
{
    if n == 0 {
        0
    } else {
        mixed_steps(shares, values, unit, (n - 1) as nat) + (shares[n - 1] * values[n - 1]) / unit
    }
}

/// Whether shares are from zero to one, and values within a bound.
pub open spec fn can_be_mixed(shares: Seq<int>, values: Seq<int>, unit: int, bound: int, n: nat) -> bool {
    &&& forall|i: int| 0 <= i < n ==> 0 <= #[trigger] shares[i] <= unit
    &&& forall|i: int| 0 <= i < n ==> -bound <= #[trigger] values[i] <= bound
}

proof fn lemma_one_share(share: int, value: int, unit: int, bound: int)
    requires
        0 <= share <= unit,
        unit > 0,
        -bound <= value <= bound,
        bound >= 0,
    ensures
        -bound <= (share * value) / unit <= bound,
        share == unit ==> (share * value) / unit == value,
        share == 0 ==> (share * value) / unit == 0,
{
    let q = (share * value) / unit;
    vstd::arithmetic::div_mod::lemma_fundamental_div_mod(share * value, unit);
    let rest = (share * value) % unit;
    assert(-bound <= q <= bound) by (nonlinear_arith)
        requires
            share * value == unit * q + rest,
            0 <= rest < unit,
            0 <= share <= unit,
            -bound <= value <= bound,
            bound >= 0,
    ;
    assert(share == unit ==> q == value) by (nonlinear_arith)
        requires
            share * value == unit * q + rest,
            0 <= rest < unit,
    ;
    assert(share == 0 ==> q == 0) by (nonlinear_arith)
        requires
            share * value == unit * q + rest,
            0 <= rest < unit,
    ;
}

proof fn lemma_mixed(shares: Seq<int>, values: Seq<int>, unit: int, bound: int, n: nat)
    requires
        can_be_mixed(shares, values, unit, bound, n),
        unit > 0,
        bound >= 0,
    ensures
        -bound * n <= mixed_steps(shares, values, unit, n) <= bound * n,
    decreases n,
{
    if n > 0 {
        lemma_mixed(shares, values, unit, bound, (n - 1) as nat);
        lemma_one_share(shares[n - 1], values[n - 1], unit, bound);
        assert(bound * n == bound * (n - 1) + bound) by (nonlinear_arith);
        assert(-bound * n == -bound * (n - 1) - bound) by (nonlinear_arith);
    } else {
        assert(bound * 0 == 0 && -bound * 0 == 0);
    }
}

/// A decision is worth what an action is worth that is surely taken, is worth no less if its actions are
/// worth no less, and lies between what its actions are worth, but for a step of rounding for each of them, if
/// it is shared out in full.
pub proof fn mixtures_lie_between(
    shares: Seq<int>,
    values: Seq<int>,
    more: Seq<int>,
    unit: int,
    low: int,
    high: int,
    n: nat,
)
    requires
        unit > 0,
        n <= shares.len(),
        forall|i: int| 0 <= i < n ==> 0 <= #[trigger] shares[i] <= unit,
        forall|i: int| 0 <= i < n ==> low <= #[trigger] values[i] <= high,
        forall|i: int| 0 <= i < n ==> #[trigger] values[i] <= more[i],
    ensures
        mixed_steps(shares, values, unit, n) <= mixed_steps(shares, more, unit, n),
        total_of(shares, n) * low - n * unit <= mixed_steps(shares, values, unit, n) * unit
            <= total_of(shares, n) * high,
        forall|k: int|
            0 <= k < n && #[trigger] shares[k] == unit && (forall|i: int|
                0 <= i < n && i != k ==> #[trigger] shares[i] == 0) ==> mixed_steps(
                shares,
                values,
                unit,
                n,
            ) == values[k],
    decreases n,
{
    if n > 0 {
        let m = (n - 1) as nat;
        mixtures_lie_between(shares, values, more, unit, low, high, m);
        let (s, v, w) = (shares[n - 1], values[n - 1], more[n - 1]);
        assert(s * v <= s * w) by (nonlinear_arith)
            requires
                s >= 0,
                v <= w,
        ;
        vstd::arithmetic::div_mod::lemma_div_is_ordered(s * v, s * w, unit);
        let q = (s * v) / unit;
        let rest = (s * v) % unit;
        vstd::arithmetic::div_mod::lemma_fundamental_div_mod(s * v, unit);
        let front = mixed_steps(shares, values, unit, m);
        let part = total_of(shares, m);
        assert((front + q) * unit == front * unit + q * unit) by (nonlinear_arith);
        assert(s * low - unit <= q * unit <= s * high) by (nonlinear_arith)
            requires
                s * v == unit * q + rest,
                0 <= rest < unit,
                s >= 0,
                low <= v <= high,
        ;
        assert((part + s) * low == part * low + s * low) by (nonlinear_arith);
        assert((part + s) * high == part * high + s * high) by (nonlinear_arith);
        assert(n * unit == m * unit + unit) by (nonlinear_arith)
            requires
                n == m + 1,
        ;
        let bound = (if v < 0 {
            -v
        } else {
            v
        });
        lemma_one_share(s, v, unit, bound);
        assert forall|k: int|
            0 <= k < n && #[trigger] shares[k] == unit && (forall|i: int|
                0 <= i < n && i != k ==> #[trigger] shares[i] == 0) implies mixed_steps(
            shares,
            values,
            unit,
            n,
        ) == values[k] by {
            if k == n - 1 {
                lemma_all_zero(shares, values, unit, m);
            } else {
                assert(shares[n - 1] == 0);
            }
        }
    } else {
        assert(0 * low == 0 && 0 * high == 0 && 0 * unit == 0);
    }
}

proof fn lemma_all_zero(shares: Seq<int>, values: Seq<int>, unit: int, n: nat)
    requires
        unit > 0,
        forall|i: int| 0 <= i < n ==> #[trigger] shares[i] == 0,
    ensures
        mixed_steps(shares, values, unit, n) == 0,
    decreases n,
{
    if n > 0 {
        lemma_all_zero(shares, values, unit, (n - 1) as nat);
        let v = values[n - 1];
        lemma_one_share(
            0,
            v,
            unit,
            if v < 0 {
                -v
            } else {
                v
            },
        );
    }
}

/// The shares of a hand in a row of strategies, in steps.
pub open spec fn row_steps<S: MeasuredScalar>(strategies: Seq<S>, actions: int, combo: int) -> Seq<int> {
    Seq::new(actions as nat, |a: int| strategies[combo * actions + a].steps())
}

/// What the actions are worth to a hand, in steps.
pub open spec fn worth_steps<S: MeasuredScalar>(rows: Seq<Seq<S>>, combo: int) -> Seq<int> {
    Seq::new(rows.len(), |a: int| rows[a][combo].steps())
}

/// To the player who acts, a decision is worth its actions by how often each is taken.
pub proof fn acting_values_are_mixed<S: MeasuredScalar>(
    rows: Seq<Seq<S>>,
    strategies: Seq<S>,
    actions: int,
    combo: int,
    bound: int,
    n: nat,
)
    requires
        n <= actions <= rows.len(),
        can_be_mixed(
            row_steps(strategies, actions, combo),
            worth_steps(rows, combo),
            S::unit(),
            bound,
            n,
        ),
        bound >= 0,
        bound * (n + 1) <= S::limit(),
    ensures
        acting_value(rows, strategies, actions, combo, n).steps() == mixed_steps(
            row_steps(strategies, actions, combo),
            worth_steps(rows, combo),
            S::unit(),
            n,
        ),
    decreases n,
{
    S::measured_units();
    if n > 0 {
        let m = (n - 1) as nat;
        let shares = row_steps(strategies, actions, combo);
        let values = worth_steps(rows, combo);
        assert(bound * (m + 1) <= bound * (n + 1)) by (nonlinear_arith)
            requires
                bound >= 0,
                m < n,
        ;
        acting_values_are_mixed(rows, strategies, actions, combo, bound, m);
        lemma_mixed(shares, values, S::unit(), bound, m);
        let share = strategies[combo * actions + n - 1];
        let value = rows[n - 1][combo];
        assert(shares[n - 1] == share.steps());
        assert(values[n - 1] == value.steps());
        lemma_bounded(bound, n, S::limit());
        share_in_steps(share, value);
        lemma_one_share(share.steps(), value.steps(), S::unit(), bound);
        S::measured_sum(
            acting_value(rows, strategies, actions, combo, m),
            share.times_spec(value),
        );
    }
}

proof fn lemma_bounded(bound: int, n: nat, limit: int)
    requires
        bound >= 0,
        n > 0,
        bound * (n + 1) <= limit,
    ensures
        bound <= limit,
        bound * (n - 1) + bound <= limit,
        -limit <= -bound * (n - 1) - bound,
{
    assert(bound <= limit && bound * (n - 1) + bound <= limit && -limit <= -bound * (n - 1) - bound)
        by (nonlinear_arith)
        requires
            bound >= 0,
            n > 0,
            bound * (n + 1) <= limit,
    ;
}

/// With tables at every node, too, a decision is worth to the player who acts its actions by how often each
/// is taken.
pub proof fn node_acting_values_are_mixed<S: MeasuredScalar>(
    rows: Seq<Seq<S>>,
    strategies: Seq<Seq<S>>,
    combo: int,
    bound: int,
    n: nat,
)
    requires
        n <= rows.len(),
        n <= strategies.len(),
        can_be_mixed(
            worth_steps(strategies, combo),
            worth_steps(rows, combo),
            S::unit(),
            bound,
            n,
        ),
        bound >= 0,
        bound * (n + 1) <= S::limit(),
    ensures
        acting_value_major(rows, strategies, combo, n).steps() == mixed_steps(
            worth_steps(strategies, combo),
            worth_steps(rows, combo),
            S::unit(),
            n,
        ),
    decreases n,
{
    S::measured_units();
    if n > 0 {
        let m = (n - 1) as nat;
        let shares = worth_steps(strategies, combo);
        let values = worth_steps(rows, combo);
        assert(bound * (m + 1) <= bound * (n + 1)) by (nonlinear_arith)
            requires
                bound >= 0,
                m < n,
        ;
        node_acting_values_are_mixed(rows, strategies, combo, bound, m);
        lemma_mixed(shares, values, S::unit(), bound, m);
        let share = strategies[n - 1][combo];
        let value = rows[n - 1][combo];
        assert(shares[n - 1] == share.steps());
        assert(values[n - 1] == value.steps());
        lemma_bounded(bound, n, S::limit());
        share_in_steps(share, value);
        lemma_one_share(share.steps(), value.steps(), S::unit(), bound);
        S::measured_sum(acting_value_major(rows, strategies, combo, m), value.times_spec(share));
    }
}

/// To the other player, a decision is worth all that comes of its actions, added up.
pub proof fn nonacting_values_add_up<S: MeasuredScalar>(
    rows: Seq<Seq<S>>,
    combo: int,
    bound: int,
    n: nat,
)
    requires
        n <= rows.len(),
        forall|a: int| 0 <= a < n ==> -bound <= (#[trigger] rows[a])[combo].steps() <= bound,
        bound >= 0,
        bound * (n + 1) <= S::limit(),
    ensures
        nonacting_value(rows, combo, n).steps() == total_of(worth_steps(rows, combo), n),
        -bound * n <= total_of(worth_steps(rows, combo), n) <= bound * n,
    decreases n,
{
    S::measured_units();
    if n > 0 {
        let m = (n - 1) as nat;
        assert(bound * (m + 1) <= bound * (n + 1)) by (nonlinear_arith)
            requires
                bound >= 0,
                m < n,
        ;
        nonacting_values_add_up(rows, combo, bound, m);
        lemma_bounded(bound, n, S::limit());
        assert(-bound <= rows[n - 1][combo].steps() <= bound);
        assert(bound * n == bound * m + bound) by (nonlinear_arith)
            requires
                n == m + 1,
        ;
        assert(-bound * n == -bound * m - bound) by (nonlinear_arith)
            requires
                n == m + 1,
        ;
        S::measured_sum(nonacting_value(rows, combo, m), rows[n - 1][combo]);
    } else {
        assert(bound * 0 == 0 && -bound * 0 == 0);
    }
}

/// A best response is worth the most that an action is worth: at least what each is, and what one of them is.
pub proof fn best_responses_take_the_most<S: MeasuredScalar>(rows: Seq<Seq<S>>, combo: int, n: nat)
    requires
        0 < n <= rows.len(),
        forall|a: int|
            0 <= a < n ==> (#[trigger] rows[a])[combo].steps()
                >= S::infinity_spec().negate_spec().steps(),
    ensures
        forall|a: int|
            0 <= a < n ==> best_value(rows, combo, n).steps() >= (#[trigger] rows[a])[combo].steps(),
        exists|a: int| 0 <= a < n && best_value(rows, combo, n) == (#[trigger] rows[a])[combo],
    decreases n,
{
    let front = best_value(rows, combo, (n - 1) as nat);
    let last = rows[n - 1][combo];
    S::measured_order(front, last);
    if n > 1 {
        best_responses_take_the_most(rows, combo, (n - 1) as nat);
        let a = choose|a: int| 0 <= a < n - 1 && front == (#[trigger] rows[a])[combo];
        if front.steps() >= last.steps() {
            assert(best_value(rows, combo, n) == rows[a][combo]);
        } else {
            assert(best_value(rows, combo, n) == rows[n - 1][combo]);
        }
    } else {
        assert(best_value(rows, combo, n) == rows[n - 1][combo]);
    }
}

/// A hand comes to an action as often as it came to the decision and takes the action: never more often, always
/// if it surely takes it, never if it never does.
pub proof fn reach_is_shared_out<S: MeasuredScalar>(
    reach: Seq<S>,
    strategies: Seq<S>,
    actions: int,
    action: int,
    combo: int,
)
    requires
        0 <= combo < reach.len(),
        0 <= reach[combo].steps() <= S::limit(),
        is_share(strategies[combo * actions + action]),
    ensures
        ({
            let after = reach_after(reach, strategies, actions, action);
            let share = strategies[combo * actions + action].steps();
            &&& after.len() == reach.len()
            &&& after[combo].steps() == (reach[combo].steps() * share) / S::unit()
            &&& 0 <= after[combo].steps() <= reach[combo].steps()
            &&& share == S::unit() ==> after[combo] == reach[combo]
            &&& share == 0 ==> after[combo].steps() == 0
        }),
{
    let share = strategies[combo * actions + action];
    share_in_steps(share, reach[combo]);
    assert(share.steps() * reach[combo].steps() == reach[combo].steps() * share.steps())
        by (nonlinear_arith);
    S::measured_order(reach[combo].times_spec(share), reach[combo]);
}

/// With tables at every node, too, a hand comes to an action as often as it came to the decision and takes it.
pub proof fn node_reach_is_shared_out<S: MeasuredScalar>(reach: Seq<S>, strategy: Seq<S>, combo: int)
    requires
        0 <= combo < reach.len(),
        0 <= reach[combo].steps() <= S::limit(),
        is_share(strategy[combo]),
    ensures
        ({
            let after = reach_major(reach, strategy);
            let share = strategy[combo].steps();
            &&& after.len() == reach.len()
            &&& after[combo].steps() == (reach[combo].steps() * share) / S::unit()
            &&& 0 <= after[combo].steps() <= reach[combo].steps()
            &&& share == S::unit() ==> after[combo] == reach[combo]
            &&& share == 0 ==> after[combo].steps() == 0
        }),
{
    let share = strategy[combo];
    share_in_steps(share, reach[combo]);
    assert(share.steps() * reach[combo].steps() == reach[combo].steps() * share.steps())
        by (nonlinear_arith);
    S::measured_order(reach[combo].times_spec(share), reach[combo]);
}

/// In a subgame: what the actions of a decision are worth to the player out of position, and that the decision
/// is worth them by how often each is taken.
pub proof fn subgame_decisions_are_mixed<S: MeasuredScalar>(
    walk: Walk<S>,
    id: int,
    player: Player,
    actions: Seq<EdgeView<S>>,
    strategy: Seq<S>,
    reach: Sides<S>,
    entries: Seq<Entry<S>>,
    bound: int,
    k: nat,
)
    requires
        k <= actions.len(),
        k <= strategy.len(),
        forall|i: int| 0 <= i < k ==> id < (#[trigger] actions[i]).to < walk.tree.len(),
        ({
            let visits = actions_visited(walk, id, player, actions, strategy, reach, entries, k);
            can_be_mixed(
                Seq::new(strategy.len(), |i: int| strategy[i].steps()),
                Seq::new(visits.values.len(), |i: int| visits.values[i].steps()),
                S::unit(),
                bound,
                k,
            )
        }),
        bound >= 0,
        bound * (k + 1) <= S::limit(),
    ensures
        ({
            let visits = actions_visited(walk, id, player, actions, strategy, reach, entries, k);
            &&& visits.values.len() == k
            &&& visits.value.steps() == mixed_steps(
                Seq::new(strategy.len(), |i: int| strategy[i].steps()),
                Seq::new(visits.values.len(), |i: int| visits.values[i].steps()),
                S::unit(),
                k,
            )
            &&& k > 0 ==> {
                let front = actions_visited(
                    walk,
                    id,
                    player,
                    actions,
                    strategy,
                    reach,
                    entries,
                    (k - 1) as nat,
                );
                strategy[k - 1] == S::one_spec() ==> visits.values[k - 1] == visited(
                    walk,
                    actions[k - 1].to as int,
                    reach.with_spec(player, reach.of_spec(player).times_spec(S::one_spec())),
                    front.entries,
                ).value
            }
        }),
    decreases k,
{
    S::measured_units();
    let shares = Seq::new(strategy.len(), |i: int| strategy[i].steps());
    let visits = actions_visited(walk, id, player, actions, strategy, reach, entries, k);
    lemma_visit_count(walk, id, player, actions, strategy, reach, entries, k);
    if k > 0 {
        let m = (k - 1) as nat;
        let front = actions_visited(walk, id, player, actions, strategy, reach, entries, m);
        lemma_visit_count(walk, id, player, actions, strategy, reach, entries, m);
        assert(bound * (m + 1) <= bound * (k + 1)) by (nonlinear_arith)
            requires
                bound >= 0,
                m < k,
        ;
        let values = Seq::new(visits.values.len(), |i: int| visits.values[i].steps());
        let earlier = Seq::new(front.values.len(), |i: int| front.values[i].steps());
        assert forall|i: int| 0 <= i < m implies #[trigger] earlier[i] == values[i] by {
            assert(front.values[i] == visits.values[i]);
        }
        assert forall|i: int| 0 <= i < m implies -bound <= #[trigger] earlier[i] <= bound by {
            assert(earlier[i] == values[i]);
        }
        subgame_decisions_are_mixed(
            walk,
            id,
            player,
            actions,
            strategy,
            reach,
            entries,
            bound,
            m,
        );
        lemma_same_mix(shares, earlier, values, S::unit(), m);
        lemma_mixed(shares, earlier, S::unit(), bound, m);
        let share = strategy[k - 1];
        let value = visits.values[k - 1];
        assert(shares[k - 1] == share.steps());
        assert(values[k - 1] == value.steps());
        lemma_bounded(bound, k, S::limit());
        share_in_steps(share, value);
        lemma_one_share(share.steps(), value.steps(), S::unit(), bound);
        S::measured_sum(front.value, share.times_spec(value));
    }
}

proof fn lemma_same_mix(shares: Seq<int>, a: Seq<int>, b: Seq<int>, unit: int, n: nat)
    requires
        forall|i: int| 0 <= i < n ==> #[trigger] a[i] == b[i],
    ensures
        mixed_steps(shares, a, unit, n) == mixed_steps(shares, b, unit, n),
    decreases n,
{
    if n > 0 {
        lemma_same_mix(shares, a, b, unit, (n - 1) as nat);
        assert(a[n - 1] == b[n - 1]);
    }
}

proof fn lemma_visit_count<S: MeasuredScalar>(
    walk: Walk<S>,
    id: int,
    player: Player,
    actions: Seq<EdgeView<S>>,
    strategy: Seq<S>,
    reach: Sides<S>,
    entries: Seq<Entry<S>>,
    k: nat,
)
    requires
        k <= actions.len(),
        forall|i: int| 0 <= i < k ==> id < (#[trigger] actions[i]).to < walk.tree.len(),
    ensures
        actions_visited(walk, id, player, actions, strategy, reach, entries, k).values.len() == k,
    decreases k,
{
    if k > 0 {
        lemma_visit_count(walk, id, player, actions, strategy, reach, entries, (k - 1) as nat);
        assert(id < actions[k - 1].to < walk.tree.len());
    }
}

/// A card's values are added by the card's weight: none if it weighs nothing, in full if it weighs one.
pub proof fn cards_add_by_weight<S: MeasuredScalar>(
    out: Seq<S>,
    input: Seq<S>,
    map: Seq<usize>,
    scale: S,
    i: int,
)
    requires
        0 <= i < out.len(),
        is_share(scale),
        -S::limit() / 4 <= out[i].steps() <= S::limit() / 4,
        -S::limit() / 4 <= input[map[i] as int].steps() <= S::limit() / 4,
    ensures
        permuted_added(out, input, map, scale).len() == out.len(),
        permuted_added(out, input, map, scale)[i].steps() == out[i].steps() + (scale.steps()
            * input[map[i] as int].steps()) / S::unit(),
        scale.steps() == S::unit() ==> permuted_added(out, input, map, scale)[i].steps()
            == out[i].steps() + input[map[i] as int].steps(),
{
    S::measured_units();
    share_in_steps(scale, input[map[i] as int]);
    S::measured_sum(out[i], input[map[i] as int].times_spec(scale));
}

} // verus!
