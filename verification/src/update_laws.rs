//! What an iteration does to regrets and sums of strategies, in whole numbers of steps: an action that was
//! worth more than its node is favoured, one that was worth less is not.
use vstd::prelude::*;
use crate::cfr_math::{
    exponent_discount, matched, RealCfrAverageStrategy, RealCfrUpdateFactors, RealCfrVariant,
};
use crate::grid::cell_place;
use crate::matching_laws::{lemma_matched, positive_steps};
use crate::measure::{counted, pair_in_steps, share_in_steps, MeasuredScalar};
use crate::node_math::{NodeLocalUpdateFactors, NodeTablesView};
use crate::real_cfr::{row_updated, TablesView, UpdateRule};

verus! {

/// Whether so many steps are a share of one.
pub open spec fn is_share<S: MeasuredScalar>(share: S) -> bool {
    0 <= share.steps() <= S::unit()
}

/// Whether a variant cuts regrets off at zero.
pub open spec fn cuts_off<S>(variant: RealCfrVariant<S>) -> bool {
    !(variant is Dcfr)
}

/// Whether the discounts of an iteration are shares of one.
pub open spec fn factors_are_shares<S: MeasuredScalar>(factors: RealCfrUpdateFactors<S>) -> bool {
    &&& is_share(factors.positive_regret_discount)
    &&& is_share(factors.negative_regret_discount)
    &&& is_share(factors.strategy_discount)
}

impl<S: MeasuredScalar> UpdateRule<S> {
    /// How regrets and strategies are discounted.
    pub open spec fn variant_of(self) -> RealCfrVariant<S> {
        match self {
            UpdateRule::Direct { weight, variant } => variant,
            UpdateRule::Factors(factors) => factors.variant,
        }
    }

    /// How much an iteration counts.
    pub open spec fn weight_of(self) -> S {
        match self {
            UpdateRule::Direct { weight, variant } => weight,
            UpdateRule::Factors(factors) => factors.iteration_weight,
        }
    }

    /// Whether the discounts of an iteration are shares of one.
    pub open spec fn has_shares(self) -> bool {
        match self {
            UpdateRule::Direct { weight, variant } => factors_are_shares(
                RealCfrUpdateFactors::of(variant, weight),
            ),
            UpdateRule::Factors(factors) => factors_are_shares(factors),
        }
    }
}

/// Whether so many steps and as many again can be added.
pub open spec fn addable<S: MeasuredScalar>(steps: int) -> bool {
    -S::limit() / 3 <= steps <= S::limit() / 3
}

/// The larger of a whole number and zero where a variant cuts off at zero, or the number itself.
pub open spec fn cut<S>(variant: RealCfrVariant<S>, steps: int) -> int {
    if cuts_off(variant) && steps < 0 {
        0
    } else {
        steps
    }
}

/// Under CFR+ a regret after an iteration is the regret before and what the action was worth more than
/// the node, or zero if that is below zero. This holds of the walk and of the phases.
pub proof fn cfr_plus_regrets_add_up<S: MeasuredScalar>(
    rule: UpdateRule<S>,
    regret: S,
    sum: S,
    regret_delta: S,
    average_delta: S,
)
    requires
        rule.variant_of() is CfrPlus,
        counted::<S>(regret.steps() + regret_delta.steps()),
    ensures
        regret.steps() + regret_delta.steps() >= 0 ==> rule.update(
            regret,
            sum,
            regret_delta,
            average_delta,
        ).0.steps() == regret.steps() + regret_delta.steps(),
        regret.steps() + regret_delta.steps() < 0 ==> rule.update(
            regret,
            sum,
            regret_delta,
            average_delta,
        ).0.steps() == 0,
{
    pair_in_steps(regret, regret_delta);
    pair_in_steps(regret.plus_spec(regret_delta), S::zero_spec());
}

proof fn lemma_discounted<S: MeasuredScalar>(value: S, discount: S)
    requires
        is_share(discount),
        counted::<S>(value.steps()),
    ensures
        value.steps() >= 0 ==> 0 <= value.times_spec(discount).steps() <= value.steps(),
        value.steps() <= 0 ==> value.steps() <= value.times_spec(discount).steps() <= 0,
{
    share_in_steps(discount, value);
}

/// An iteration keeps of a regret no more than there was, and then moves it by as much as the action was
/// worth more than the node, down to zero where the variant cuts off there. A regret of zero becomes just
/// that difference.
pub proof fn regrets_move_by_the_difference<S: MeasuredScalar>(
    rule: UpdateRule<S>,
    regret: S,
    sum: S,
    regret_delta: S,
    average_delta: S,
)
    requires
        rule.has_shares(),
        cuts_off(rule.variant_of()) ==> regret.steps() >= 0,
        addable::<S>(regret.steps()),
        addable::<S>(regret_delta.steps()),
    ensures
        ({
            let kept = rule.update(regret, sum, S::zero_spec(), average_delta).0.steps();
            let moved = rule.update(regret, sum, regret_delta, average_delta).0.steps();
            &&& regret.steps() >= 0 ==> 0 <= kept <= regret.steps()
            &&& regret.steps() <= 0 ==> regret.steps() <= kept <= 0
            &&& rule.variant_of() is CfrPlus ==> kept == regret.steps()
            &&& moved == cut(rule.variant_of(), kept + regret_delta.steps())
            &&& regret.steps() == 0 ==> moved == cut(rule.variant_of(), regret_delta.steps())
        }),
{
    S::measured_units();
    let factors = match rule {
        UpdateRule::Direct { weight, variant } => RealCfrUpdateFactors::of(variant, weight),
        UpdateRule::Factors(factors) => factors,
    };
    let zero = S::zero_spec();
    S::measured_order(regret, zero);
    let discount = if regret.steps() >= 0 {
        factors.positive_regret_discount
    } else {
        factors.negative_regret_discount
    };
    lemma_discounted(regret, discount);
    let left = match rule.variant_of() {
        RealCfrVariant::CfrPlus => regret,
        _ => regret.times_spec(discount),
    };
    pair_in_steps(left, zero);
    pair_in_steps(left, regret_delta);
    pair_in_steps(left.plus_spec(zero), zero);
    pair_in_steps(left.plus_spec(regret_delta), zero);
}

/// An action's regret after an iteration grows with what the action was worth and falls with what the
/// node was worth: of two actions with one regret, the one that was worth more ends with at least as much.
pub proof fn better_actions_end_with_more_regret<S: MeasuredScalar>(
    rule: UpdateRule<S>,
    regret: S,
    worse: S,
    better: S,
    worse_sum: S,
    better_sum: S,
    worse_average: S,
    better_average: S,
)
    requires
        rule.has_shares(),
        cuts_off(rule.variant_of()) ==> regret.steps() >= 0,
        addable::<S>(regret.steps()),
        addable::<S>(worse.steps()),
        addable::<S>(better.steps()),
        worse.steps() <= better.steps(),
    ensures
        rule.update(regret, worse_sum, worse, worse_average).0.steps() <= rule.update(
            regret,
            better_sum,
            better,
            better_average,
        ).0.steps(),
        !cuts_off(rule.variant_of()) ==> rule.update(
            regret,
            better_sum,
            better,
            better_average,
        ).0.steps() - rule.update(regret, worse_sum, worse, worse_average).0.steps()
            == better.steps() - worse.steps(),
{
    regrets_move_by_the_difference(rule, regret, worse_sum, worse, worse_average);
    regrets_move_by_the_difference(rule, regret, better_sum, better, better_average);
}

/// A sum of strategies grows by how often the action was taken: under CFR+ as many times as the iteration
/// counts, under the others once, after no more of it was kept than there was.
pub proof fn sums_grow_by_how_often<S: MeasuredScalar>(
    rule: UpdateRule<S>,
    regret: S,
    sum: S,
    regret_delta: S,
    average_delta: S,
    weight: u32,
)
    requires
        rule.has_shares(),
        rule.weight_of() == S::from_u32_spec(weight),
        sum.steps() >= 0,
        average_delta.steps() >= 0,
        sum.steps() <= S::limit() / 2,
        average_delta.steps() <= S::limit() / 2,
        weight * average_delta.steps() <= S::limit() / 2,
    ensures
        ({
            let after = rule.update(regret, sum, regret_delta, average_delta).1.steps();
            let kept = rule.update(regret, sum, regret_delta, S::zero_spec()).1.steps();
            &&& 0 <= kept <= sum.steps()
            &&& rule.variant_of() is CfrPlus ==> kept == sum.steps()
            &&& after == kept + average_delta.steps() * (if rule.variant_of() is CfrPlus {
                weight as int
            } else {
                1
            })
        }),
{
    S::measured_units();
    S::measured_counts(weight, 0);
    let zero = S::zero_spec();
    let unit = S::unit();
    let factors = match rule {
        UpdateRule::Direct { weight, variant } => RealCfrUpdateFactors::of(variant, weight),
        UpdateRule::Factors(factors) => factors,
    };
    lemma_discounted(sum, factors.strategy_discount);
    let d = average_delta.steps();
    let count = rule.weight_of();
    assert((weight * unit) * d == (weight * d) * unit) by (nonlinear_arith);
    assert(((weight * d) * unit) / unit == weight * d) by {
        vstd::arithmetic::div_mod::lemma_div_multiples_vanish(weight * d, unit);
        assert(unit * (weight * d) == (weight * d) * unit) by (nonlinear_arith);
    }
    assert(weight * d >= 0) by (nonlinear_arith)
        requires
            d >= 0,
    ;
    S::measured_product(count, average_delta);
    assert(count.steps() * 0 == 0);
    assert(0int / unit == 0) by {
        vstd::arithmetic::div_mod::lemma_div_basics(unit);
    }
    S::measured_product(count, zero);
    pair_in_steps(sum, count.times_spec(average_delta));
    pair_in_steps(sum, count.times_spec(zero));
    pair_in_steps(sum.times_spec(factors.strategy_discount), average_delta);
    pair_in_steps(sum.times_spec(factors.strategy_discount), zero);
    assert(d * (weight as int) == weight * d) by (nonlinear_arith);
}

/// The discounts by an exponent are shares of one, and grow with the power.
pub proof fn discounts_are_shares<S: MeasuredScalar>(iteration: S, exponent: S)
    requires
        0 <= iteration.power_spec(exponent.max_spec(S::zero_spec())).steps(),
        iteration.power_spec(exponent.max_spec(S::zero_spec())).steps() + S::unit() <= S::limit(),
    ensures
        is_share(exponent_discount(iteration, exponent)),
        exponent_discount(iteration, exponent).steps() * (iteration.power_spec(
            exponent.max_spec(S::zero_spec()),
        ).steps() + S::unit()) <= iteration.power_spec(exponent.max_spec(S::zero_spec())).steps()
            * S::unit(),
{
    S::measured_units();
    let powered = iteration.power_spec(exponent.max_spec(S::zero_spec()));
    let p = powered.steps();
    let u = S::unit();
    pair_in_steps(powered, S::one_spec());
    let q = (p * u) / (p + u);
    vstd::arithmetic::div_mod::lemma_fundamental_div_mod(p * u, p + u);
    let rest = (p * u) % (p + u);
    assert(0 <= q <= u) by (nonlinear_arith)
        requires
            p >= 0,
            u >= 2,
            p * u == (p + u) * q + rest,
            0 <= rest < p + u,
    ;
    assert(q * (p + u) <= p * u) by (nonlinear_arith)
        requires
            p * u == (p + u) * q + rest,
            rest >= 0,
    ;
    assert(u <= S::limit()) by (nonlinear_arith)
        requires
            u * 0x1_0000_0000 <= S::limit(),
            u >= 2,
    ;
    S::measured_quotient(powered, powered.plus_spec(S::one_spec()));
}

/// Whether what actions are worth to a hand, and what its node is worth, can be compared.
pub open spec fn comparable<S: MeasuredScalar>(steps: int) -> bool {
    -S::limit() / 8 <= steps <= S::limit() / 8
}

/// An update of a node touches the numbers of that node only. Of two actions for which a hand had one
/// regret, the one that was worth more to the hand ends with at least as much.
pub proof fn updates_favour_better_actions<S: MeasuredScalar>(
    tables: TablesView<S>,
    start: int,
    combos: int,
    actions: int,
    strategies: Seq<S>,
    values: Seq<S>,
    rows: Seq<Seq<S>>,
    reach: Seq<S>,
    rule: UpdateRule<S>,
    combo: int,
    worse: int,
    better: int,
)
    requires
        0 <= start,
        start + combos * actions <= tables.regrets.len(),
        0 <= combo < combos,
        0 <= worse < actions,
        0 <= better < actions,
        rule.has_shares(),
        tables.regrets[start + combo * actions + worse] == tables.regrets[start + combo * actions
            + better],
        cuts_off(rule.variant_of()) ==> tables.regrets[start + combo * actions + worse].steps() >= 0,
        comparable::<S>(tables.regrets[start + combo * actions + worse].steps()),
        comparable::<S>(values[combo].steps()),
        comparable::<S>(rows[worse][combo].steps()),
        comparable::<S>(rows[better][combo].steps()),
        rows[worse][combo].steps() <= rows[better][combo].steps(),
    ensures
        ({
            let after = row_updated(
                tables,
                start,
                combos,
                actions,
                strategies,
                values,
                rows,
                reach,
                rule,
            );
            &&& after.regrets.len() == tables.regrets.len()
            &&& after.sums.len() == tables.sums.len()
            &&& after.regrets[start + combo * actions + worse].steps()
                <= after.regrets[start + combo * actions + better].steps()
            &&& forall|slot: int|
                0 <= slot < start || start + combos * actions <= slot < tables.regrets.len()
                    ==> #[trigger] after.regrets[slot] == tables.regrets[slot]
            &&& forall|slot: int|
                0 <= slot < tables.sums.len() && (slot < start || start + combos * actions <= slot)
                    ==> #[trigger] after.sums[slot] == tables.sums[slot]
        }),
{
    S::measured_units();
    cell_place(combos, actions, combo, worse);
    cell_place(combos, actions, combo, better);
    pair_in_steps(rows[worse][combo], values[combo]);
    pair_in_steps(rows[better][combo], values[combo]);
    better_actions_end_with_more_regret(
        rule,
        tables.regrets[start + combo * actions + worse],
        rows[worse][combo].minus_spec(values[combo]),
        rows[better][combo].minus_spec(values[combo]),
        tables.sums[start + combo * actions + worse],
        tables.sums[start + combo * actions + better],
        reach[combo].times_spec(strategies[combo * actions + worse]),
        reach[combo].times_spec(strategies[combo * actions + better]),
    );
}

/// An update of a node adds to the sum of each action of a hand how often the hand comes there and takes the action: as often
/// as the iteration counts where nothing is discounted, and once on top of what is kept where it is.
pub proof fn rows_add_how_often_actions_are_taken<S: MeasuredScalar>(
    tables: TablesView<S>,
    start: int,
    combos: int,
    actions: int,
    strategies: Seq<S>,
    values: Seq<S>,
    rows: Seq<Seq<S>>,
    reach: Seq<S>,
    rule: UpdateRule<S>,
    weight: u32,
    combo: int,
    action: int,
)
    requires
        0 <= start,
        start + combos * actions <= tables.sums.len(),
        0 <= combo < combos,
        0 <= action < actions,
        rule.has_shares(),
        rule.weight_of() == S::from_u32_spec(weight),
        0 <= tables.sums[start + combo * actions + action].steps() <= S::limit() / 2,
        is_share(strategies[combo * actions + action]),
        is_share(reach[combo]),
        weight * S::unit() <= S::limit() / 2,
    ensures
        ({
            let slot = start + combo * actions + action;
            let before = tables.sums[slot].steps();
            let after = row_updated(
                tables,
                start,
                combos,
                actions,
                strategies,
                values,
                rows,
                reach,
                rule,
            ).sums[slot].steps();
            let taken = (reach[combo].steps() * strategies[combo * actions + action].steps()) / S::unit();
            &&& rule.variant_of() is CfrPlus ==> after == before + weight * taken
            &&& !(rule.variant_of() is CfrPlus) ==> taken <= after <= before + taken
        }),
{
    S::measured_units();
    cell_place(combos, actions, combo, action);
    let slot = start + combo * actions + action;
    let (r, share) = (reach[combo], strategies[combo * actions + action]);
    let u = S::unit();
    assert(2 * u <= S::limit() / 2) by (nonlinear_arith)
        requires
            u * 0x1_0000_0000 <= S::limit(),
            u >= 2,
    ;
    share_in_steps(r, share);
    let taken = r.times_spec(share);
    let t = taken.steps();
    assert(0 <= t <= u);
    assert(0 <= weight * t <= weight * u) by (nonlinear_arith)
        requires
            0 <= t <= u,
            weight >= 0,
    ;
    sums_grow_by_how_often(
        rule,
        tables.regrets[slot],
        tables.sums[slot],
        rows[action][combo].minus_spec(values[combo]),
        taken,
        weight,
    );
    assert(t * weight == weight * t) by (nonlinear_arith);
}

/// A hand with no regrets takes after an update only actions that were worth more to it than its node, if
/// there is one.
pub proof fn updates_lead_to_better_actions<S: MeasuredScalar>(
    tables: TablesView<S>,
    start: int,
    combos: int,
    actions: int,
    strategies: Seq<S>,
    values: Seq<S>,
    rows: Seq<Seq<S>>,
    reach: Seq<S>,
    rule: UpdateRule<S>,
    combo: int,
    better: int,
)
    requires
        0 <= start,
        start + combos * actions <= tables.regrets.len(),
        0 <= combo < combos,
        0 <= better < actions,
        rule.has_shares(),
        forall|a: int|
            0 <= a < actions ==> (#[trigger] tables.regrets[start + combo * actions + a]).steps() == 0,
        comparable::<S>(values[combo].steps()),
        forall|a: int| 0 <= a < actions ==> comparable::<S>((#[trigger] rows[a])[combo].steps()),
        rows[better][combo].steps() > values[combo].steps(),
        positive_steps(
            row_updated(
                tables,
                start,
                combos,
                actions,
                strategies,
                values,
                rows,
                reach,
                rule,
            ).regrets,
            start + combo * actions,
            actions as nat,
        ) <= S::limit(),
    ensures
        ({
            let after = row_updated(
                tables,
                start,
                combos,
                actions,
                strategies,
                values,
                rows,
                reach,
                rule,
            ).regrets;
            forall|a: int|
                0 <= a < actions && (#[trigger] rows[a])[combo].steps() <= values[combo].steps()
                    ==> matched(after, start + combo * actions, actions, a).steps() == 0
        }),
{
    S::measured_units();
    let after = row_updated(
        tables,
        start,
        combos,
        actions,
        strategies,
        values,
        rows,
        reach,
        rule,
    ).regrets;
    let place = start + combo * actions;
    assert forall|a: int| 0 <= a < actions implies (#[trigger] after[place + a]).steps() == cut(
        rule.variant_of(),
        rows[a][combo].steps() - values[combo].steps(),
    ) by {
        cell_place(combos, actions, combo, a);
        assert(tables.regrets[start + combo * actions + a].steps() == 0);
        assert(comparable::<S>(rows[a][combo].steps()));
        pair_in_steps(rows[a][combo], values[combo]);
        regrets_move_by_the_difference(
            rule,
            tables.regrets[place + a],
            tables.sums[place + a],
            rows[a][combo].minus_spec(values[combo]),
            reach[combo].times_spec(strategies[combo * actions + a]),
        );
    }
    assert(after[place + better].steps() > 0);
    assert forall|a: int|
        0 <= a < actions && (#[trigger] rows[a])[combo].steps()
            <= values[combo].steps() implies matched(after, place, actions, a).steps() == 0 by {
        assert(after[place + a].steps() <= 0);
        lemma_matched(after, place, actions, a, better);
    }
}

impl<S: MeasuredScalar> NodeLocalUpdateFactors<S> {
    /// With tables at every node, too, an iteration keeps of a regret no more than there was and moves it by
    /// as much as the action was worth more than the node, down to zero where the variant cuts off there.
    pub proof fn node_regrets_move_by_the_difference(
        self,
        regret: S,
        action_value: S,
        node_value: S,
    )
        requires
            factors_are_shares(self.factors),
            cuts_off(self.factors.variant) ==> regret.steps() >= 0,
            comparable::<S>(regret.steps()),
            comparable::<S>(action_value.steps()),
            comparable::<S>(node_value.steps()),
        ensures
            ({
                let kept = self.regret(regret, node_value, node_value).steps();
                let moved = self.regret(regret, action_value, node_value).steps();
                &&& regret.steps() >= 0 ==> 0 <= kept <= regret.steps()
                &&& regret.steps() <= 0 ==> regret.steps() <= kept <= 0
                &&& self.factors.variant is CfrPlus ==> kept == regret.steps()
                &&& moved == cut(
                    self.factors.variant,
                    kept + action_value.steps() - node_value.steps(),
                )
            }),
    {
        S::measured_units();
        let zero = S::zero_spec();
        S::measured_order(regret, zero);
        let discount = if regret.steps() >= 0 {
            self.factors.positive_regret_discount
        } else {
            self.factors.negative_regret_discount
        };
        lemma_discounted(regret, discount);
        let left = match self.factors.variant {
            RealCfrVariant::CfrPlus => regret,
            _ => regret.times_spec(discount),
        };
        pair_in_steps(left, action_value);
        pair_in_steps(left, node_value);
        pair_in_steps(left.plus_spec(action_value), node_value);
        pair_in_steps(left.plus_spec(node_value), node_value);
        pair_in_steps(left.plus_spec(action_value).minus_spec(node_value), zero);
        pair_in_steps(left.plus_spec(node_value).minus_spec(node_value), zero);
    }

    /// With tables at every node a sum of strategies grows by how often the action was taken: by reach where
    /// reach counts, as many times as the iteration counts under CFR+, after no more of it was kept than
    /// there was.
    pub proof fn node_sums_grow_by_how_often(self, sum: S, strategy: S, reach: S, weight: u32)
        requires
            factors_are_shares(self.factors),
            self.factors.iteration_weight == S::from_u32_spec(weight),
            is_share(strategy),
            reach == S::one_spec(),
            sum.steps() >= 0,
            comparable::<S>(sum.steps()),
            weight * S::unit() <= S::limit() / 8,
        ensures
            ({
                let after = self.sum(sum, strategy, reach).steps();
                let kept = self.sum(sum, S::zero_spec(), reach).steps();
                &&& 0 <= kept <= sum.steps()
                &&& self.factors.variant is CfrPlus ==> kept == sum.steps()
                &&& after == kept + strategy.steps() * (if self.factors.variant is CfrPlus {
                    weight as int
                } else {
                    1
                })
                &&& self.average_strategy == RealCfrAverageStrategy::ReachWeighted ==> self.sum(
                    sum,
                    strategy,
                    S::zero_spec(),
                ).steps() == kept
                &&& self.average_strategy == RealCfrAverageStrategy::Local ==> self.sum(
                    sum,
                    strategy,
                    S::zero_spec(),
                ).steps() == after
            }),
    {
        S::measured_units();
        S::measured_counts(weight, 0);
        let zero = S::zero_spec();
        let unit = S::unit();
        let count = self.factors.iteration_weight;
        let s = strategy.steps();
        lemma_discounted(sum, self.factors.strategy_discount);
        vstd::arithmetic::div_mod::lemma_div_multiples_vanish(weight * unit, unit);
        lemma_whole(weight * unit, unit);
        S::measured_product(count, reach);
        S::measured_order(count.times_spec(reach), count);
        assert((weight * unit) * s == (weight * s) * unit) by (nonlinear_arith);
        vstd::arithmetic::div_mod::lemma_div_multiples_vanish(weight * s, unit);
        assert(unit * (weight * s) == (weight * s) * unit) by (nonlinear_arith);
        assert(0 <= weight * s <= weight * unit) by (nonlinear_arith)
            requires
                0 <= s <= unit,
        ;
        S::measured_product(count, strategy);
        assert(0int / unit == 0) by {
            vstd::arithmetic::div_mod::lemma_div_basics(unit);
        }
        assert(count.steps() * 0 == 0 && 0 * s == 0);
        S::measured_product(count, zero);
        S::measured_order(count.times_spec(zero), zero);
        S::measured_product(zero, strategy);
        S::measured_product(reach, zero);
        S::measured_product(zero, zero);
        assert(unit * 0 == 0);
        share_in_steps(strategy, reach);
        share_in_steps(reach, strategy);
        pair_in_steps(sum, count.times_spec(strategy));
        pair_in_steps(sum, zero);
        S::measured_order(count.times_spec(zero), zero);
        S::measured_order(zero.times_spec(strategy), zero);
        S::measured_order(reach.times_spec(zero), zero);
        S::measured_order(zero.times_spec(zero), zero);
        S::measured_order(reach.times_spec(strategy), strategy);
        let left = sum.times_spec(self.factors.strategy_discount);
        pair_in_steps(left, strategy);
        pair_in_steps(left, zero);
        assert(s * (weight as int) == weight * s) by (nonlinear_arith);
    }
}

proof fn lemma_whole(count: int, steps: int)
    ensures
        count * steps == steps * count,
{
    assert(count * steps == steps * count) by (nonlinear_arith);
}

/// With tables at every node: of two actions for which a hand had one regret, the one that was worth more
/// to the hand ends with at least as much.
pub proof fn node_updates_favour_better_actions<S: MeasuredScalar>(
    tables: NodeTablesView<S>,
    values: Seq<Seq<S>>,
    node_values: Seq<S>,
    strategies: Seq<Seq<S>>,
    reach: Seq<S>,
    factors: NodeLocalUpdateFactors<S>,
    combo: int,
    worse: int,
    better: int,
)
    requires
        factors_are_shares(factors.factors),
        0 <= worse < tables.regrets.len(),
        0 <= better < tables.regrets.len(),
        0 <= combo < tables.regrets[worse].len(),
        0 <= combo < tables.regrets[better].len(),
        tables.regrets[worse][combo] == tables.regrets[better][combo],
        cuts_off(factors.factors.variant) ==> tables.regrets[worse][combo].steps() >= 0,
        comparable::<S>(tables.regrets[worse][combo].steps()),
        comparable::<S>(node_values[combo].steps()),
        comparable::<S>(values[worse][combo].steps()),
        comparable::<S>(values[better][combo].steps()),
        values[worse][combo].steps() <= values[better][combo].steps(),
    ensures
        tables.updated(values, node_values, strategies, reach, factors).regrets[worse][combo].steps()
            <= tables.updated(
            values,
            node_values,
            strategies,
            reach,
            factors,
        ).regrets[better][combo].steps(),
{
    let regret = tables.regrets[worse][combo];
    factors.node_regrets_move_by_the_difference(regret, values[worse][combo], node_values[combo]);
    factors.node_regrets_move_by_the_difference(regret, values[better][combo], node_values[combo]);
}

} // verus!
