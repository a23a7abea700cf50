//! What cards to come are worth, how reach is shared out and how values are averaged, in whole numbers of steps.
use vstd::prelude::*;
use crate::cfr_math::{
    average_of, average_spec, current_spec, permuted_added, positive_sum, row_sum, weighted,
};
use crate::measure::{share_in_steps, MeasuredScalar};
use crate::node_setup::NodeSetup;
use crate::phase_reach::{acted, share_of, StrategySource};
use crate::range::ComboWeight;
use crate::real_cfr::codes_added;
use crate::real_reports::{average_spec_of, mean_of};
use crate::river_cfr::river_value;
use crate::scalar::sum_spec;
use crate::terminal_cache::ComboPermutations;
use crate::tree::Player;
use crate::update_laws::is_share;

verus! {

/// A number over a count, as often as the count, is the number, but for the rounding to a step.
pub proof fn quotients_by_counts<S: MeasuredScalar>(value: S, count: usize)
    requires
        count > 0,
        count * S::unit() <= S::limit(),
        -S::limit() <= value.steps() <= S::limit(),
    ensures
        value.over_spec(S::from_count_spec(count)).steps() == value.steps() / count as int,
        value.over_spec(S::from_count_spec(count)).steps() * count <= value.steps() < value.over_spec(
            S::from_count_spec(count),
        ).steps() * count + count,
{
    S::measured_units();
    S::measured_counts(0, count);
    let (n, u, s) = (count as int, S::unit(), value.steps());
    let d = n * u;
    assert(d > 0) by (nonlinear_arith)
        requires
            d == n * u,
            n > 0,
            u > 0,
    ;
    let (q, rest) = ((s * u) / d, (s * u) % d);
    vstd::arithmetic::div_mod::lemma_fundamental_div_mod(s * u, d);
    assert(n * q <= s < n * q + n) by (nonlinear_arith)
        requires
            s * u == d * q + rest,
            0 <= rest < d,
            d == n * u,
            u > 0,
    ;
    assert(-S::limit() <= q <= S::limit()) by (nonlinear_arith)
        requires
            n * q <= s < n * q + n,
            n >= 1,
            -S::limit() <= s <= S::limit(),
    ;
    S::measured_quotient(value, S::from_count_spec(count));
    assert(q * n == n * q) by (nonlinear_arith);
    vstd::arithmetic::div_mod::lemma_fundamental_div_mod_converse(s, n, q, s - n * q);
}

/// Averages in reports, and the value of a river, are what they are of over how many there are, and zero if there
/// is none.
pub proof fn means_are_parts<S: MeasuredScalar>(sum: usize, total: S, count: usize)
    requires
        count * S::unit() <= S::limit(),
        sum * S::unit() <= S::limit(),
        -S::limit() <= total.steps() <= S::limit(),
    ensures
        count > 0 ==> average_spec_of::<S>(sum, count).steps() == (sum * S::unit()) / count as int,
        count > 0 ==> mean_of(total, count).steps() == total.steps() / count as int,
        count > 0 ==> river_value(total, count).steps() == total.steps() / count as int,
        count == 0 ==> average_spec_of::<S>(sum, count).steps() == 0,
        count == 0 ==> mean_of(total, count).steps() == 0,
        count == 0 ==> river_value(total, count).steps() == 0,
{
    S::measured_units();
    S::measured_counts(0, sum);
    let u = S::unit();
    assert(0 <= sum * u) by (nonlinear_arith)
        requires
            u > 0,
            sum >= 0,
    ;
    if count > 0 {
        quotients_by_counts(S::from_count_spec(sum), count);
        quotients_by_counts(total, count);
    }
}

impl<S: MeasuredScalar> NodeSetup<S> {
    /// Cards to come weigh the same, and together no more than one and less by no more than a step for each.
    pub proof fn cards_weigh_the_same(self, i: int)
        requires
            0 < self.states@[i].chance_concrete_events,
            self.states@[i].chance_concrete_events * S::unit() <= S::limit(),
        ensures
            ({
                let cards = self.states@[i].chance_concrete_events;
                let weight = self.card_weight(i).steps();
                weight * cards <= S::unit() < weight * cards + cards
            }),
    {
        S::measured_units();
        let cards = self.states@[i].chance_concrete_events;
        let u = S::unit();
        assert(u <= S::limit()) by (nonlinear_arith)
            requires
                u * 0x1_0000_0000 <= S::limit(),
                u >= 2,
        ;
        quotients_by_counts(S::one_spec(), cards);
    }
}

/// What a hand gets from the first `n` cards of a class, each by its weight and where the card takes the hand.
pub open spec fn class_steps<S: MeasuredScalar>(
    child: Seq<S>,
    permutations: ComboPermutations,
    player: Player,
    codes: Seq<u8>,
    weight: int,
    i: int,
    n: nat,
) -> int
    decreases n,
{
    if n == 0 {
        0
    } else {
        class_steps(child, permutations, player, codes, weight, i, (n - 1) as nat) + (weight
            * child[permutations.map_of(player, codes[n - 1])[i] as int].steps()) / S::unit()
    }
}

/// A class of cards adds to a hand, for each of its cards, what the child is worth to the hand that the card makes of
/// it, by the card's weight.
pub proof fn classes_add_each_card<S: MeasuredScalar>(
    out: Seq<S>,
    child: Seq<S>,
    permutations: ComboPermutations,
    player: Player,
    codes: Seq<u8>,
    weight: S,
    bound: int,
    i: int,
    n: nat,
)
    requires
        n <= codes.len(),
        0 <= i < out.len(),
        is_share(weight),
        bound >= 0,
        -bound <= out[i].steps() <= bound,
        forall|k: int|
            0 <= k < n ==> -bound <= child[permutations.map_of(player, #[trigger] codes[k])[i] as int].steps()
                <= bound,
        bound * (n + 2) <= S::limit(),
    ensures
        codes_added(out, child, permutations, player, codes, weight, n).len() == out.len(),
        codes_added(out, child, permutations, player, codes, weight, n)[i].steps() == out[i].steps()
            + class_steps(child, permutations, player, codes, weight.steps(), i, n),
        -bound * n <= class_steps(child, permutations, player, codes, weight.steps(), i, n) <= bound * n,
    decreases n,
{
    S::measured_units();
    if n > 0 {
        let m = (n - 1) as nat;
        assert(bound * (m + 2) <= bound * (n + 2) && bound * n == bound * m + bound && -bound * n == -bound * m
            - bound && bound * (n + 2) == bound * m + 3 * bound && -bound * m == -(bound * m) && bound * m >= 0)
            by (nonlinear_arith)
            requires
                bound >= 0,
                n == m + 1,
        ;
        classes_add_each_card(out, child, permutations, player, codes, weight, bound, i, m);
        let front = codes_added(out, child, permutations, player, codes, weight, m);
        let map = permutations.map_of(player, codes[n - 1]);
        let value = child[map[i] as int];
        assert(-bound <= value.steps() <= bound) by {
            assert(codes[n - 1] == codes[n - 1]);
        }
        share_in_steps(weight, value);
        S::measured_sum(front[i], value.times_spec(weight));
        let after = permuted_added(front, child, map, weight);
        assert(after[i].steps() == front[i].steps() + (weight.steps() * value.steps()) / S::unit());
    } else {
        assert(bound * 0 == 0 && -bound * 0 == 0);
    }
}

/// An action's part of a reach is to the reach as the action's number is to all numbers, rounded down by less than the
/// number's part of a step and a step; the same for each action if the numbers add up to nothing.
pub proof fn reach_is_shared_in_proportion<S: MeasuredScalar>(
    out: S,
    input: S,
    row: Seq<S>,
    start: int,
    actions: usize,
    action: int,
    source: StrategySource,
)
    requires
        0 <= out.steps() <= S::limit() / 4,
        0 <= input.steps() <= S::unit(),
        0 < actions,
        actions * S::unit() <= S::limit(),
        S::unit() * S::unit() <= S::limit(),
    ensures
        ({
            let total = match source {
                StrategySource::Current => positive_sum(row, start, actions as nat),
                StrategySource::Average => row_sum(row, start, actions as nat),
            }.steps();
            let own = row[start + action].steps();
            let number = match source {
                StrategySource::Current => if own > 0 {
                    own
                } else {
                    0
                },
                StrategySource::Average => own,
            };
            let part = share_of(out, input, row, start, actions as int, action, source).steps()
                - out.steps();
            &&& 0 <= number <= total <= S::limit() / S::unit() && total > 0 ==> {
                &&& 0 <= part <= input.steps()
                &&& part * total <= number * input.steps()
                &&& (number * input.steps() - part * total) * S::unit() < total * (S::unit() + number)
                    || input.steps() == 0
            }
            &&& total <= 0 ==> part == input.steps() / actions as int
            &&& input.steps() == 0 ==> part == 0
        }),
{
    S::measured_units();
    let zero = S::zero_spec();
    S::measured_order(input, zero);
    let sum = match source {
        StrategySource::Current => positive_sum(row, start, actions as nat),
        StrategySource::Average => row_sum(row, start, actions as nat),
    };
    S::measured_order(sum, zero);
    S::measured_order(row[start + action], zero);
    let number = match source {
        StrategySource::Current => row[start + action].max_spec(zero),
        StrategySource::Average => row[start + action],
    };
    let (u, x, t, k) = (S::unit(), input.steps(), sum.steps(), number.steps());
    assert(u <= S::limit() / 4) by (nonlinear_arith)
        requires
            u * 0x1_0000_0000 <= S::limit(),
            u >= 2,
    ;
    if x > 0 && t > 0 && 0 <= k <= t <= S::limit() / u {
        let (q, r) = ((x * u) / t, (x * u) % t);
        vstd::arithmetic::div_mod::lemma_fundamental_div_mod(x * u, t);
        assert(0 <= q <= S::limit()) by (nonlinear_arith)
            requires
                x * u == t * q + r,
                0 <= r < t,
                0 < x <= u,
                t >= 1,
                u * u <= S::limit(),
        ;
        S::measured_quotient(input, sum);
        let ratio = input.over_spec(sum);
        let (p, s) = ((k * q) / u, (k * q) % u);
        vstd::arithmetic::div_mod::lemma_fundamental_div_mod(k * q, u);
        assert(0 <= p <= x && p * t <= k * x && (k * x - p * t) * u < t * (u + k)) by (nonlinear_arith)
            requires
                x * u == t * q + r,
                0 <= r < t,
                k * q == u * p + s,
                0 <= s < u,
                0 <= k <= t,
                0 <= q,
                0 < x,
                u > 0,
        ;
        S::measured_product(number, ratio);
        S::measured_sum(out, number.times_spec(ratio));
    }
    if x > 0 && t <= 0 {
        quotients_by_counts(input, actions);
        let q = x / actions as int;
        assert(0 <= q <= x) by (nonlinear_arith)
            requires
                q * actions <= x,
                x < q * actions + actions,
                actions > 0,
                x >= 0,
        ;
        S::measured_sum(out, input.over_spec(S::from_count_spec(actions)));
    }
    if x == 0 {
        assert(0int / actions as int == 0) by (nonlinear_arith)
            requires
                actions > 0,
        ;
        assert(k * 0 == 0 && 0 * t == 0);
    }
}

/// Reach that is not shared out on the way grows by the parent's reach as often as the action is taken, now or on average.
pub proof fn reach_is_added_as_often_as_taken<S: MeasuredScalar>(
    out: Seq<S>,
    parent: Seq<S>,
    row: Seq<S>,
    actions: int,
    action: int,
    source: StrategySource,
    c: int,
)
    requires
        0 <= c < out.len(),
        0 <= out[c].steps() <= S::limit() / 4,
        0 <= parent[c].steps() <= S::limit() / 4,
        is_share(taken_share(parent, row, actions, action, source, c)),
    ensures
        ({
            let share = taken_share(parent, row, actions, action, source, c).steps();
            let after = acted(out, parent, row, actions, action, source, false);
            &&& after.len() == out.len()
            &&& after[c].steps() == out[c].steps() + (share * parent[c].steps()) / S::unit()
            &&& out[c].steps() <= after[c].steps() <= out[c].steps() + parent[c].steps()
            &&& share == S::unit() ==> after[c].steps() == out[c].steps() + parent[c].steps()
            &&& share == 0 ==> after[c] == out[c]
        }),
{
    S::measured_units();
    let share = taken_share(parent, row, actions, action, source, c);
    share_in_steps(share, parent[c]);
    S::measured_sum(out[c], parent[c].times_spec(share));
    S::measured_order(out[c].plus_spec(parent[c].times_spec(share)), out[c]);
}

/// How often a hand takes an action, now or on average.
pub open spec fn taken_share<S: MeasuredScalar>(
    parent: Seq<S>,
    row: Seq<S>,
    actions: int,
    action: int,
    source: StrategySource,
    c: int,
) -> S {
    let strategies = match source {
        StrategySource::Current => current_spec(row, parent.len() as int, actions),
        StrategySource::Average => average_spec(row, parent.len() as int, actions),
    };
    strategies[c * actions + action]
}

/// The first `n` values by the weights of their hands, each rounded down, added up.
pub open spec fn weighed_steps<S: MeasuredScalar>(values: Seq<S>, combos: Seq<ComboWeight<S>>, n: nat) -> int
    decreases n,
{
    if n == 0 {
        0
    } else {
        weighed_steps(values, combos, (n - 1) as nat) + (values[n - 1].steps()
            * combos[n - 1].weight.steps()) / S::unit()
    }
}

proof fn lemma_weighed<S: MeasuredScalar>(
    values: Seq<S>,
    combos: Seq<ComboWeight<S>>,
    bound: int,
    n: nat,
)
    requires
        n <= values.len() == combos.len(),
        bound >= 0,
        forall|i: int|
            0 <= i < n ==> -bound <= ((#[trigger] values[i]).steps() * combos[i].weight.steps()) / S::unit()
                <= bound,
        bound * (n + 1) <= S::limit(),
    ensures
        sum_spec(weighted(values, combos).take(n as int)).steps() == weighed_steps(values, combos, n),
        -bound * n <= weighed_steps(values, combos, n) <= bound * n,
    decreases n,
{
    S::measured_units();
    let list = weighted(values, combos);
    if n > 0 {
        let m = (n - 1) as nat;
        assert(bound * (m + 1) <= bound * (n + 1) && bound * n == bound * m + bound && -bound * n == -bound * m
            - bound && bound * (n + 1) == bound * m + 2 * bound && -bound * m == -(bound * m) && bound * m >= 0)
            by (nonlinear_arith)
            requires
                bound >= 0,
                n == m + 1,
        ;
        lemma_weighed(values, combos, bound, m);
        assert(list.take(n as int).drop_last() =~= list.take(m as int));
        let part = values[n - 1].times_spec(combos[n - 1].weight);
        assert(list.take(n as int).last() == part);
        assert(-bound <= (values[n - 1].steps() * combos[n - 1].weight.steps()) / S::unit() <= bound);
        S::measured_product(values[n - 1], combos[n - 1].weight);
        S::measured_sum(sum_spec(list.take(m as int)), part);
    } else {
        assert(list.take(0) =~= Seq::<S>::empty());
        assert(bound * 0 == 0 && -bound * 0 == 0);
    }
}

/// The average over both ranges, as often as their weights together, is what the values come to by the weights of
/// their hands, but for the rounding to a step; a range without weight is worth nothing.
pub proof fn averages_add_up<S: MeasuredScalar>(
    values: Seq<S>,
    combos: Seq<ComboWeight<S>>,
    own_total: S,
    opponent_total: S,
    bound: int,
)
    requires
        values.len() == combos.len(),
        bound >= 0,
        forall|i: int|
            0 <= i < values.len() ==> -bound <= ((#[trigger] values[i]).steps() * combos[i].weight.steps())
                / S::unit() <= bound,
        bound * (values.len() + 1) <= S::limit() / S::unit(),
        (own_total.steps() * opponent_total.steps()) / S::unit() <= S::limit(),
    ensures
        ({
            let average = average_of(values, combos, own_total, opponent_total).steps();
            let both = (own_total.steps() * opponent_total.steps()) / S::unit();
            let sum = weighed_steps(values, combos, values.len());
            &&& own_total.steps() <= 0 || opponent_total.steps() <= 0 ==> average == 0
            &&& own_total.steps() > 0 && opponent_total.steps() > 0 && both > 0 ==> average * both <= sum
                * S::unit() < average * both + both
        }),
{
    S::measured_units();
    let zero = S::zero_spec();
    S::measured_order(zero, own_total);
    S::measured_order(zero, opponent_total);
    let u = S::unit();
    let n = values.len();
    let most = bound * (n + 1);
    let cap = S::limit() / u;
    vstd::arithmetic::div_mod::lemma_fundamental_div_mod(S::limit(), u);
    assert(most * u <= S::limit() && most <= S::limit() && bound * n <= most && most >= 0 && bound * n >= 0
        && -bound * n == -(bound * n)) by (nonlinear_arith)
        requires
            most == bound * (n + 1),
            most <= cap,
            S::limit() == u * cap + S::limit() % u,
            S::limit() % u >= 0,
            bound >= 0,
            n >= 0,
            u >= 2,
    ;
    lemma_weighed(values, combos, bound, n);
    assert(weighted(values, combos).take(n as int) =~= weighted(values, combos));
    let sum = sum_spec(weighted(values, combos));
    let both = own_total.times_spec(opponent_total);
    let b = (own_total.steps() * opponent_total.steps()) / u;
    if own_total.steps() > 0 && opponent_total.steps() > 0 && b > 0 {
        S::measured_product(own_total, opponent_total);
        let s = sum.steps();
        let (q, rest) = ((s * u) / b, (s * u) % b);
        vstd::arithmetic::div_mod::lemma_fundamental_div_mod(s * u, b);
        assert(b * q == q * b) by (nonlinear_arith);
        assert(-S::limit() <= q <= S::limit()) by (nonlinear_arith)
            requires
                s * u == b * q + rest,
                0 <= rest < b,
                b >= 1,
                -most <= s <= most,
                most * u <= S::limit(),
                u >= 2,
        ;
        S::measured_quotient(sum, both);
    }
}

} // verus!
