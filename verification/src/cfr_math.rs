//! Regret matching, averaging and updates.
use vstd::prelude::*;
use crate::grid::cell_place;
use crate::range::ComboWeight;
use crate::scalar::{sum, sum_spec, Scalar};

verus! {

/// How regrets and strategies are discounted.
#[derive(Clone, Copy, Debug)]
pub enum RealCfrVariant<S> {
    CfrPlus,
    Dcfr { alpha: S, beta: S, gamma: S },
    DcfrPlus { alpha: S, gamma: S },
}

impl<S> Default for RealCfrVariant<S> {
    fn default() -> (r: Self)
        ensures
            r == RealCfrVariant::<S>::CfrPlus,
    {
        RealCfrVariant::CfrPlus
    }
}

/// Whether strategies are averaged by how often a hand reaches a decision, or locally.
#[derive(Clone, Copy, Debug, PartialEq, Eq, Structural)]
pub enum RealCfrAverageStrategy {
    ReachWeighted,
    Local,
}

/// How long and how to iterate.
#[derive(Clone, Copy, Debug)]
pub struct RealCfrConfig<S> {
    pub iterations: u32,
    pub variant: RealCfrVariant<S>,
    pub average_strategy: RealCfrAverageStrategy,
}

/// The discount `p / (p + 1)` of the iteration raised to an exponent, at least zero.
pub open spec fn exponent_discount<S: Scalar>(iteration: S, exponent: S) -> S {
    let powered = iteration.power_spec(exponent.max_spec(S::zero_spec()));
    powered.over_spec(powered.plus_spec(S::one_spec()))
}

/// The discount `p / (p + 1)` of the iteration raised to an exponent, at least zero.
pub fn dcfr_discount_for_exponent<S: Scalar>(iteration: S, exponent: S) -> (r: S)
    ensures
        r == exponent_discount(iteration, exponent),
{
    let powered: S = iteration.power(exponent.max_of(S::zero()));
    powered.over(powered.plus(S::one()))
}

/// The discount of the strategy sums: `t / (t + 1)` raised to an exponent, at least zero.
pub open spec fn sum_discount<S: Scalar>(iteration: S, gamma: S) -> S {
    iteration.over_spec(iteration.plus_spec(S::one_spec())).power_spec(
        gamma.max_spec(S::zero_spec()),
    )
}

/// The discount of the strategy sums: `t / (t + 1)` raised to an exponent, at least zero.
pub fn dcfr_strategy_discount<S: Scalar>(iteration: S, gamma: S) -> (r: S)
    ensures
        r == sum_discount(iteration, gamma),
{
    iteration.over(iteration.plus(S::one())).power(gamma.max_of(S::zero()))
}

/// The exponent that applies to a regret: one for regrets from zero up, one for those below.
pub open spec fn regret_discount<S: Scalar>(regret: S, iteration: S, alpha: S, beta: S) -> S {
    exponent_discount(
        iteration,
        if regret.at_least_spec(S::zero_spec()) {
            alpha
        } else {
            beta
        },
    )
}

/// The discount of a regret.
pub fn dcfr_regret_discount<S: Scalar>(regret: S, iteration: S, alpha: S, beta: S) -> (r: S)
    ensures
        r == regret_discount(regret, iteration, alpha, beta),
{
    let exponent: S = if regret.at_least(S::zero()) {
        alpha
    } else {
        beta
    };
    dcfr_discount_for_exponent(iteration, exponent)
}

/// The discounts of one iteration.
#[derive(Clone, Copy, Debug)]
pub struct RealCfrUpdateFactors<S> {
    pub variant: RealCfrVariant<S>,
    pub positive_regret_discount: S,
    pub negative_regret_discount: S,
    pub strategy_discount: S,
    pub iteration_weight: S,
}

impl<S: Scalar> RealCfrUpdateFactors<S> {
    /// The discounts of an iteration.
    pub open spec fn of(variant: RealCfrVariant<S>, iteration_weight: S) -> Self {
        let (positive, negative, strategy) = match variant {
            RealCfrVariant::CfrPlus => (S::one_spec(), S::one_spec(), S::one_spec()),
            RealCfrVariant::Dcfr { alpha, beta, gamma } => (
                exponent_discount(iteration_weight, alpha),
                exponent_discount(iteration_weight, beta),
                sum_discount(iteration_weight, gamma),
            ),
            RealCfrVariant::DcfrPlus { alpha, gamma } => (
                exponent_discount(iteration_weight, alpha),
                exponent_discount(iteration_weight, S::zero_spec()),
                sum_discount(iteration_weight, gamma),
            ),
        };
        RealCfrUpdateFactors {
            variant,
            positive_regret_discount: positive,
            negative_regret_discount: negative,
            strategy_discount: strategy,
            iteration_weight,
        }
    }

    /// The discounts of an iteration.
    pub fn new(variant: RealCfrVariant<S>, iteration_weight: S) -> (r: Self)
        ensures
            r == Self::of(variant, iteration_weight),
    {
        let (positive, negative, strategy): (S, S, S) = match variant {
            RealCfrVariant::CfrPlus => (S::one(), S::one(), S::one()),
            RealCfrVariant::Dcfr { alpha, beta, gamma } => (
                dcfr_discount_for_exponent(iteration_weight, alpha),
                dcfr_discount_for_exponent(iteration_weight, beta),
                dcfr_strategy_discount(iteration_weight, gamma),
            ),
            RealCfrVariant::DcfrPlus { alpha, gamma } => (
                dcfr_discount_for_exponent(iteration_weight, alpha),
                dcfr_discount_for_exponent(iteration_weight, S::zero()),
                dcfr_strategy_discount(iteration_weight, gamma),
            ),
        };
        RealCfrUpdateFactors {
            variant,
            positive_regret_discount: positive,
            negative_regret_discount: negative,
            strategy_discount: strategy,
            iteration_weight,
        }
    }

    /// A regret after an iteration.
    pub open spec fn regret(self, regret: S, delta: S) -> S {
        match self.variant {
            RealCfrVariant::CfrPlus => regret.plus_spec(delta).max_spec(S::zero_spec()),
            RealCfrVariant::Dcfr { alpha, beta, gamma } => regret.times_spec(
                if regret.at_least_spec(S::zero_spec()) {
                    self.positive_regret_discount
                } else {
                    self.negative_regret_discount
                },
            ).plus_spec(delta),
            RealCfrVariant::DcfrPlus { alpha, gamma } => regret.times_spec(
                self.positive_regret_discount,
            ).plus_spec(delta).max_spec(S::zero_spec()),
        }
    }

    /// A strategy sum after an iteration.
    pub open spec fn strategy(self, sum: S, delta: S) -> S {
        match self.variant {
            RealCfrVariant::CfrPlus => sum.plus_spec(self.iteration_weight.times_spec(delta)),
            _ => sum.times_spec(self.strategy_discount).plus_spec(delta),
        }
    }

    /// A regret and a strategy sum after an iteration.
    pub fn updated(&self, regret: S, strategy_sum: S, regret_delta: S, average_delta: S) -> (r: (S, S))
        ensures
            r.0 == self.regret(regret, regret_delta),
            r.1 == self.strategy(strategy_sum, average_delta),
    {
        match self.variant {
            RealCfrVariant::CfrPlus => (
                regret.plus(regret_delta).max_of(S::zero()),
                strategy_sum.plus(self.iteration_weight.times(average_delta)),
            ),
            RealCfrVariant::Dcfr { alpha, beta, gamma } => {
                let discount: S = if regret.at_least(S::zero()) {
                    self.positive_regret_discount
                } else {
                    self.negative_regret_discount
                };
                (
                    regret.times(discount).plus(regret_delta),
                    strategy_sum.times(self.strategy_discount).plus(average_delta),
                )
            },
            RealCfrVariant::DcfrPlus { alpha, gamma } => (
                regret.times(self.positive_regret_discount).plus(regret_delta).max_of(S::zero()),
                strategy_sum.times(self.strategy_discount).plus(average_delta),
            ),
        }
    }
}

/// A regret and a strategy sum after an iteration, the discounts worked out on the way.
pub open spec fn direct_update<S: Scalar>(
    variant: RealCfrVariant<S>,
    iteration_weight: S,
    regret: S,
    strategy_sum: S,
    regret_delta: S,
    average_delta: S,
) -> (S, S) {
    match variant {
        RealCfrVariant::CfrPlus => (
            regret.plus_spec(regret_delta).max_spec(S::zero_spec()),
            strategy_sum.plus_spec(iteration_weight.times_spec(average_delta)),
        ),
        RealCfrVariant::Dcfr { alpha, beta, gamma } => (
            regret.times_spec(regret_discount(regret, iteration_weight, alpha, beta)).plus_spec(
                regret_delta,
            ),
            strategy_sum.times_spec(sum_discount(iteration_weight, gamma)).plus_spec(average_delta),
        ),
        RealCfrVariant::DcfrPlus { alpha, gamma } => (
            regret.times_spec(
                regret_discount(regret, iteration_weight, alpha, S::zero_spec()),
            ).plus_spec(regret_delta).max_spec(S::zero_spec()),
            strategy_sum.times_spec(sum_discount(iteration_weight, gamma)).plus_spec(average_delta),
        ),
    }
}

/// A regret and a strategy sum after an iteration, the discounts worked out on the way.
pub fn apply_real_cfr_update<S: Scalar>(
    regret: S,
    strategy_sum: S,
    regret_delta: S,
    average_delta: S,
    iteration_weight: S,
    variant: RealCfrVariant<S>,
) -> (r: (S, S))
    ensures
        r == direct_update(
            variant,
            iteration_weight,
            regret,
            strategy_sum,
            regret_delta,
            average_delta,
        ),
{
    match variant {
        RealCfrVariant::CfrPlus => (
            regret.plus(regret_delta).max_of(S::zero()),
            strategy_sum.plus(iteration_weight.times(average_delta)),
        ),
        RealCfrVariant::Dcfr { alpha, beta, gamma } => {
            let discount: S = dcfr_regret_discount(regret, iteration_weight, alpha, beta);
            let strategy_discount: S = dcfr_strategy_discount(iteration_weight, gamma);
            (
                regret.times(discount).plus(regret_delta),
                strategy_sum.times(strategy_discount).plus(average_delta),
            )
        },
        RealCfrVariant::DcfrPlus { alpha, gamma } => {
            let discount: S = dcfr_regret_discount(regret, iteration_weight, alpha, S::zero());
            let strategy_discount: S = dcfr_strategy_discount(iteration_weight, gamma);
            (
                regret.times(discount).plus(regret_delta).max_of(S::zero()),
                strategy_sum.times(strategy_discount).plus(average_delta),
            )
        },
    }
}

/// Discounts worked out once for an iteration give what discounts worked out for each regret give, for
/// every regret that the variant lets arise: where regrets are cut off at zero, those from zero up.
pub proof fn factors_match_direct_update<S: Scalar>(
    variant: RealCfrVariant<S>,
    iteration_weight: S,
    regret: S,
    strategy_sum: S,
    regret_delta: S,
    average_delta: S,
)
    requires
        variant is DcfrPlus ==> regret.at_least_spec(S::zero_spec()),
    ensures
        direct_update(variant, iteration_weight, regret, strategy_sum, regret_delta, average_delta)
            == (
            RealCfrUpdateFactors::of(variant, iteration_weight).regret(regret, regret_delta),
            RealCfrUpdateFactors::of(variant, iteration_weight).strategy(strategy_sum, average_delta),
        ),
{
}

/// The sum of the positive ones of the first `n` numbers of a row.
pub open spec fn positive_sum<S: Scalar>(values: Seq<S>, start: int, n: nat) -> S
    decreases n,
{
    if n == 0 {
        S::zero_spec()
    } else {
        let front = positive_sum(values, start, (n - 1) as nat);
        let value = values[start + n - 1];
        if value.exceeds_spec(S::zero_spec()) {
            front.plus_spec(value)
        } else {
            front
        }
    }
}

/// The sum of the first `n` numbers of a row.
pub open spec fn row_sum<S: Scalar>(values: Seq<S>, start: int, n: nat) -> S
    decreases n,
{
    if n == 0 {
        S::zero_spec()
    } else {
        row_sum(values, start, (n - 1) as nat).plus_spec(values[start + n - 1])
    }
}

/// The share of each of so many actions when all are alike.
pub open spec fn uniform_share<S: Scalar>(actions: int) -> S {
    S::one_spec().over_spec(S::from_count_spec(actions as usize))
}

/// The probability of an action by its regret among those of the row: in proportion to the positive
/// regrets, alike for all if there is none.
pub open spec fn matched<S: Scalar>(regrets: Seq<S>, start: int, actions: int, action: int) -> S {
    let total = positive_sum(regrets, start, actions as nat);
    if total.exceeds_spec(S::zero_spec()) {
        regrets[start + action].max_spec(S::zero_spec()).over_spec(total)
    } else {
        uniform_share::<S>(actions)
    }
}

/// The probability of an action by its sum among those of the row.
pub open spec fn averaged<S: Scalar>(sums: Seq<S>, start: int, actions: int, action: int) -> S {
    let total = row_sum(sums, start, actions as nat);
    if total.exceeds_spec(S::zero_spec()) {
        sums[start + action].over_spec(total)
    } else {
        uniform_share::<S>(actions)
    }
}

/// The probabilities by regret of all hands, one row of actions each.
pub open spec fn current_spec<S: Scalar>(regrets: Seq<S>, combos: int, actions: int) -> Seq<S> {
    Seq::new(
        (combos * actions) as nat,
        |i: int| matched(regrets, (i / actions) * actions, actions, i % actions),
    )
}

/// The average probabilities of all hands, one row of actions each.
pub open spec fn average_spec<S: Scalar>(sums: Seq<S>, combos: int, actions: int) -> Seq<S> {
    Seq::new(
        (combos * actions) as nat,
        |i: int| averaged(sums, (i / actions) * actions, actions, i % actions),
    )
}

/// The cell of a hand and an action.
pub proof fn current_cell<S: Scalar>(regrets: Seq<S>, combos: int, actions: int, combo: int, action: int)
    requires
        0 <= combo < combos,
        0 <= action < actions,
    ensures
        0 <= combo * actions + action < current_spec(regrets, combos, actions).len(),
        current_spec(regrets, combos, actions)[combo * actions + action] == matched(
            regrets,
            combo * actions,
            actions,
            action,
        ),
{
    cell_place(combos, actions, combo, action);
}

/// The probabilities by regret of all hands.
pub fn current_strategies<S: Scalar>(regrets: &[S], combos: usize, actions: usize) -> (r: Vec<S>)
    requires
        regrets@.len() == combos * actions,
    ensures
        r@ == current_spec(regrets@, combos as int, actions as int),
{
    let size: usize = regrets.len();
    proof {
        assert(0int * (actions as int) == 0);
    }
    let mut strategies: Vec<S> = Vec::new();
    let ghost goal = current_spec(regrets@, combos as int, actions as int);
    for combo in 0..combos
        invariant
            regrets@.len() == combos * actions,
            size == combos * actions,
            goal == current_spec(regrets@, combos as int, actions as int),
            strategies@.len() == combo * actions,
            forall|i: int| 0 <= i < strategies@.len() ==> #[trigger] strategies@[i] == goal[i],
    {
        proof {
            if actions > 0 {
                cell_place(combos as int, actions as int, combo as int, 0);
            }
            assert(combo * actions <= regrets@.len()) by (nonlinear_arith)
                requires
                    combo < combos,
                    regrets@.len() == combos * actions,
                size == combos * actions,
                    actions >= 0,
            ;
        }
        let start: usize = combo * actions;
        let mut total: S = S::zero();
        for action in 0..actions
            invariant
                start == combo * actions,
                combo < combos,
                regrets@.len() == combos * actions,
                size == combos * actions,
                total == positive_sum(regrets@, start as int, action as nat),
        {
            proof {
                cell_place(combos as int, actions as int, combo as int, action as int);
            }
            let value: S = regrets[start + action];
            if value.exceeds(S::zero()) {
                total = total.plus(value);
            }
        }
        let positive: bool = total.exceeds(S::zero());
        let uniform: S = S::one().over(S::from_count(actions));
        for action in 0..actions
            invariant
                start == combo * actions,
                combo < combos,
                regrets@.len() == combos * actions,
                size == combos * actions,
                goal == current_spec(regrets@, combos as int, actions as int),
                total == positive_sum(regrets@, start as int, actions as nat),
                positive == total.exceeds_spec(S::zero_spec()),
                uniform == uniform_share::<S>(actions as int),
                strategies@.len() == start + action,
                forall|i: int| 0 <= i < strategies@.len() ==> #[trigger] strategies@[i] == goal[i],
        {
            proof {
                current_cell(
                    regrets@,
                    combos as int,
                    actions as int,
                    combo as int,
                    action as int,
                );
            }
            if positive {
                strategies.push(regrets[start + action].max_of(S::zero()).over(total));
            } else {
                strategies.push(uniform);
            }
        }
        proof {
            assert((combo + 1) * actions == combo * actions + actions) by (nonlinear_arith);
        }
    }
    proof {
        assert(strategies@ =~= goal);
    }
    strategies
}

/// The average probabilities of all hands.
pub fn average_strategies<S: Scalar>(strategy_sum: &[S], combos: usize, actions: usize) -> (r: Vec<S>)
    requires
        strategy_sum@.len() == combos * actions,
    ensures
        r@ == average_spec(strategy_sum@, combos as int, actions as int),
{
    let size: usize = strategy_sum.len();
    proof {
        assert(0int * (actions as int) == 0);
    }
    let mut strategies: Vec<S> = Vec::new();
    let ghost goal = average_spec(strategy_sum@, combos as int, actions as int);
    for combo in 0..combos
        invariant
            strategy_sum@.len() == combos * actions,
            size == combos * actions,
            goal == average_spec(strategy_sum@, combos as int, actions as int),
            strategies@.len() == combo * actions,
            forall|i: int| 0 <= i < strategies@.len() ==> #[trigger] strategies@[i] == goal[i],
    {
        proof {
            assert(combo * actions <= strategy_sum@.len()) by (nonlinear_arith)
                requires
                    combo < combos,
                    strategy_sum@.len() == combos * actions,
                size == combos * actions,
                    actions >= 0,
            ;
        }
        let start: usize = combo * actions;
        let mut total: S = S::zero();
        for action in 0..actions
            invariant
                start == combo * actions,
                combo < combos,
                strategy_sum@.len() == combos * actions,
                size == combos * actions,
                total == row_sum(strategy_sum@, start as int, action as nat),
        {
            proof {
                cell_place(combos as int, actions as int, combo as int, action as int);
            }
            total = total.plus(strategy_sum[start + action]);
        }
        let positive: bool = total.exceeds(S::zero());
        let uniform: S = S::one().over(S::from_count(actions));
        for action in 0..actions
            invariant
                start == combo * actions,
                combo < combos,
                strategy_sum@.len() == combos * actions,
                size == combos * actions,
                goal == average_spec(strategy_sum@, combos as int, actions as int),
                total == row_sum(strategy_sum@, start as int, actions as nat),
                positive == total.exceeds_spec(S::zero_spec()),
                uniform == uniform_share::<S>(actions as int),
                strategies@.len() == start + action,
                forall|i: int| 0 <= i < strategies@.len() ==> #[trigger] strategies@[i] == goal[i],
        {
            proof {
                cell_place(combos as int, actions as int, combo as int, action as int);
            }
            if positive {
                strategies.push(strategy_sum[start + action].over(total));
            } else {
                strategies.push(uniform);
            }
        }
        proof {
            assert((combo + 1) * actions == combo * actions + actions) by (nonlinear_arith);
        }
    }
    proof {
        assert(strategies@ =~= goal);
    }
    strategies
}

/// How often each hand takes an action: its reach times the action's probability.
pub open spec fn reach_after<S: Scalar>(reach: Seq<S>, strategies: Seq<S>, actions: int, action: int) -> Seq<
    S,
> {
    Seq::new(
        reach.len(),
        |combo: int| reach[combo].times_spec(strategies[combo * actions + action]),
    )
}

/// How often each hand takes an action.
pub fn strategy_reach<S: Scalar>(reach: &[S], strategies: &[S], actions: usize, action: usize) -> (r: Vec<
    S,
>)
    requires
        action < actions,
        strategies@.len() == reach@.len() * actions,
    ensures
        r@ == reach_after(reach@, strategies@, actions as int, action as int),
{
    let size: usize = strategies.len();
    proof {
        assert(0int * (actions as int) == 0);
    }
    let mut out: Vec<S> = Vec::new();
    for combo in 0..reach.len()
        invariant
            action < actions,
            strategies@.len() == reach@.len() * actions,
            size == reach@.len() * actions,
            out@.len() == combo,
            forall|c: int|
                0 <= c < combo ==> #[trigger] out@[c] == reach_after(
                    reach@,
                    strategies@,
                    actions as int,
                    action as int,
                )[c],
    {
        proof {
            cell_place(reach@.len() as int, actions as int, combo as int, action as int);
        }
        out.push(reach[combo].times(strategies[combo * actions + action]));
    }
    proof {
        assert(out@ =~= reach_after(reach@, strategies@, actions as int, action as int));
    }
    out
}

/// Numbers added place by place.
pub open spec fn added<S: Scalar>(a: Seq<S>, b: Seq<S>) -> Seq<S> {
    Seq::new(a.len(), |i: int| a[i].plus_spec(b[i]))
}

/// Adds numbers place by place.
pub fn add_slice<S: Scalar>(out: &mut Vec<S>, input: &[S])
    requires
        old(out)@.len() == input@.len(),
    ensures
        final(out)@ == added(old(out)@, input@),
{
    let ghost before = out@;
    for i in 0..input.len()
        invariant
            before.len() == input@.len(),
            out@.len() == before.len(),
            forall|j: int| 0 <= j < i ==> #[trigger] out@[j] == before[j].plus_spec(input@[j]),
            forall|j: int| i <= j < out@.len() ==> #[trigger] out@[j] == before[j],
    {
        let value: S = out[i].plus(input[i]);
        out.set(i, value);
    }
    proof {
        assert(out@ =~= added(before, input@));
    }
}

/// Numbers of one list, taken by place and scaled, added to another.
pub open spec fn permuted_added<S: Scalar>(
    out: Seq<S>,
    input: Seq<S>,
    source_to_target: Seq<usize>,
    scale: S,
) -> Seq<S> {
    Seq::new(
        out.len(),
        |i: int| out[i].plus_spec(input[source_to_target[i] as int].times_spec(scale)),
    )
}

/// Adds numbers of another list, taken by place and scaled.
pub fn add_permuted_scaled_slice<S: Scalar>(
    out: &mut Vec<S>,
    input: &[S],
    source_to_target: &[usize],
    scale: S,
)
    requires
        old(out)@.len() == source_to_target@.len(),
        forall|i: int|
            0 <= i < source_to_target@.len() ==> #[trigger] source_to_target@[i] < input@.len(),
    ensures
        final(out)@ == permuted_added(old(out)@, input@, source_to_target@, scale),
{
    let ghost before = out@;
    for i in 0..source_to_target.len()
        invariant
            before.len() == source_to_target@.len(),
            out@.len() == before.len(),
            forall|j: int|
                0 <= j < source_to_target@.len() ==> #[trigger] source_to_target@[j] < input@.len(),
            forall|j: int|
                0 <= j < i ==> #[trigger] out@[j] == permuted_added(
                    before,
                    input@,
                    source_to_target@,
                    scale,
                )[j],
            forall|j: int| i <= j < out@.len() ==> #[trigger] out@[j] == before[j],
    {
        let value: S = out[i].plus(input[source_to_target[i]].times(scale));
        out.set(i, value);
    }
    proof {
        assert(out@ =~= permuted_added(before, input@, source_to_target@, scale));
    }
}

/// A list of zeros.
pub open spec fn zeros_spec<S: Scalar>(count: nat) -> Seq<S> {
    Seq::new(count, |i: int| S::zero_spec())
}

/// A list of zeros.
pub fn zeros<S: Scalar>(count: usize) -> (r: Vec<S>)
    ensures
        r@ == zeros_spec::<S>(count as nat),
{
    let mut list: Vec<S> = Vec::new();
    for i in 0..count
        invariant
            list@ =~= zeros_spec::<S>(i as nat),
    {
        list.push(S::zero());
    }
    list
}

/// A copy of a list.
pub fn copy_of<S: Scalar>(values: &[S]) -> (r: Vec<S>)
    ensures
        r@ == values@,
{
    let mut list: Vec<S> = Vec::new();
    for i in 0..values.len()
        invariant
            list@ =~= values@.take(i as int),
    {
        list.push(values[i]);
    }
    proof {
        assert(values@.take(values@.len() as int) =~= values@);
    }
    list
}

/// The value of a hand to the actor: the actions' values by their probabilities.
pub open spec fn acting_value<S: Scalar>(
    rows: Seq<Seq<S>>,
    strategies: Seq<S>,
    actions: int,
    combo: int,
    n: nat,
) -> S
    decreases n,
{
    if n == 0 {
        S::zero_spec()
    } else {
        acting_value(rows, strategies, actions, combo, (n - 1) as nat).plus_spec(
            strategies[combo * actions + n - 1].times_spec(rows[n - 1][combo]),
        )
    }
}

/// The value of a hand to the player who does not act: the sum of the actions' values.
pub open spec fn nonacting_value<S: Scalar>(rows: Seq<Seq<S>>, combo: int, n: nat) -> S
    decreases n,
{
    if n == 0 {
        S::zero_spec()
    } else {
        nonacting_value(rows, combo, (n - 1) as nat).plus_spec(rows[n - 1][combo])
    }
}

/// The value of a hand to a player who takes the best action.
pub open spec fn best_value<S: Scalar>(rows: Seq<Seq<S>>, combo: int, n: nat) -> S
    decreases n,
{
    if n == 0 {
        S::infinity_spec().negate_spec()
    } else {
        best_value(rows, combo, (n - 1) as nat).max_spec(rows[n - 1][combo])
    }
}

/// The values of all hands to the actor.
pub open spec fn acting_values<S: Scalar>(
    rows: Seq<Seq<S>>,
    strategies: Seq<S>,
    actions: int,
    combos: nat,
) -> Seq<S> {
    Seq::new(combos, |combo: int| acting_value(rows, strategies, actions, combo, actions as nat))
}

/// The values of all hands to the player who does not act.
pub open spec fn nonacting_values<S: Scalar>(rows: Seq<Seq<S>>, actions: int, combos: nat) -> Seq<S> {
    Seq::new(combos, |combo: int| nonacting_value(rows, combo, actions as nat))
}

/// The values of all hands to a player who takes the best action.
pub open spec fn best_values<S: Scalar>(rows: Seq<Seq<S>>, actions: int, combos: nat) -> Seq<S> {
    Seq::new(combos, |combo: int| best_value(rows, combo, actions as nat))
}

/// The contents of lists.
pub open spec fn rows_of<S>(rows: Seq<Vec<S>>) -> Seq<Seq<S>> {
    rows.map(|i: int, row: Vec<S>| row@)
}

/// Whether all of so many rows have a length.
pub open spec fn rows_have<S>(rows: Seq<Vec<S>>, actions: int, combos: int) -> bool {
    &&& rows.len() == actions
    &&& forall|a: int| 0 <= a < actions ==> (#[trigger] rows[a])@.len() == combos
}

/// The values of all hands to the actor.
pub fn combine_acting<S: Scalar>(rows: &Vec<Vec<S>>, strategies: &[S], actions: usize, combos: usize) -> (r:
    Vec<S>)
    requires
        rows_have(rows@, actions as int, combos as int),
        strategies@.len() == combos * actions,
    ensures
        r@ == acting_values(rows_of(rows@), strategies@, actions as int, combos as nat),
{
    let size: usize = strategies.len();
    proof {
        assert(0int * (actions as int) == 0);
    }
    let mut out: Vec<S> = Vec::new();
    let ghost all = rows_of(rows@);
    for combo in 0..combos
        invariant
            all == rows_of(rows@),
            rows_have(rows@, actions as int, combos as int),
            strategies@.len() == combos * actions,
            size == combos * actions,
            out@.len() == combo,
            forall|c: int|
                0 <= c < combo ==> #[trigger] out@[c] == acting_value(
                    all,
                    strategies@,
                    actions as int,
                    c,
                    actions as nat,
                ),
    {
        let mut value: S = S::zero();
        for action in 0..actions
            invariant
                all == rows_of(rows@),
                combo < combos,
                rows_have(rows@, actions as int, combos as int),
                strategies@.len() == combos * actions,
                size == combos * actions,
                value == acting_value(
                    all,
                    strategies@,
                    actions as int,
                    combo as int,
                    action as nat,
                ),
        {
            proof {
                cell_place(combos as int, actions as int, combo as int, action as int);
                assert(rows@[action as int]@.len() == combos);
                assert(all[action as int] == rows@[action as int]@);
            }
            value = value.plus(strategies[combo * actions + action].times(rows[action][combo]));
        }
        out.push(value);
    }
    proof {
        assert(out@ =~= acting_values(all, strategies@, actions as int, combos as nat));
    }
    out
}

/// The values of all hands to the player who does not act.
pub fn combine_nonacting<S: Scalar>(rows: &Vec<Vec<S>>, actions: usize, combos: usize) -> (r: Vec<S>)
    requires
        rows_have(rows@, actions as int, combos as int),
    ensures
        r@ == nonacting_values(rows_of(rows@), actions as int, combos as nat),
{
    let mut out: Vec<S> = Vec::new();
    let ghost all = rows_of(rows@);
    for combo in 0..combos
        invariant
            all == rows_of(rows@),
            rows_have(rows@, actions as int, combos as int),
            out@.len() == combo,
            forall|c: int|
                0 <= c < combo ==> #[trigger] out@[c] == nonacting_value(all, c, actions as nat),
    {
        let mut value: S = S::zero();
        for action in 0..actions
            invariant
                all == rows_of(rows@),
                combo < combos,
                rows_have(rows@, actions as int, combos as int),
                value == nonacting_value(all, combo as int, action as nat),
        {
            proof {
                assert(rows@[action as int]@.len() == combos);
                assert(all[action as int] == rows@[action as int]@);
            }
            value = value.plus(rows[action][combo]);
        }
        out.push(value);
    }
    proof {
        assert(out@ =~= nonacting_values(all, actions as int, combos as nat));
    }
    out
}

/// The values of all hands to a player who takes the best action.
pub fn combine_best_response<S: Scalar>(rows: &Vec<Vec<S>>, actions: usize, combos: usize) -> (r: Vec<
    S,
>)
    requires
        rows_have(rows@, actions as int, combos as int),
    ensures
        r@ == best_values(rows_of(rows@), actions as int, combos as nat),
{
    let mut out: Vec<S> = Vec::new();
    let ghost all = rows_of(rows@);
    for combo in 0..combos
        invariant
            all == rows_of(rows@),
            rows_have(rows@, actions as int, combos as int),
            out@.len() == combo,
            forall|c: int|
                0 <= c < combo ==> #[trigger] out@[c] == best_value(all, c, actions as nat),
    {
        let mut best: S = S::infinity().negate();
        for action in 0..actions
            invariant
                all == rows_of(rows@),
                combo < combos,
                rows_have(rows@, actions as int, combos as int),
                best == best_value(all, combo as int, action as nat),
        {
            proof {
                assert(rows@[action as int]@.len() == combos);
                assert(all[action as int] == rows@[action as int]@);
            }
            best = best.max_of(rows[action][combo]);
        }
        out.push(best);
    }
    proof {
        assert(out@ =~= best_values(all, actions as int, combos as nat));
    }
    out
}

/// The weights of combos.
pub open spec fn weights_of<S>(combos: Seq<ComboWeight<S>>) -> Seq<S> {
    combos.map(|i: int, combo: ComboWeight<S>| combo.weight)
}

/// The weights of combos.
pub fn combo_weights<S: Scalar>(combos: &[ComboWeight<S>]) -> (r: Vec<S>)
    ensures
        r@ == weights_of(combos@),
{
    let mut list: Vec<S> = Vec::new();
    for i in 0..combos.len()
        invariant
            list@ =~= weights_of(combos@).take(i as int),
    {
        list.push(combos[i].weight);
    }
    proof {
        assert(weights_of(combos@).take(combos@.len() as int) =~= weights_of(combos@));
    }
    list
}

/// The products of values and weights.
pub open spec fn weighted<S: Scalar>(values: Seq<S>, combos: Seq<ComboWeight<S>>) -> Seq<S> {
    Seq::new(values.len(), |i: int| values[i].times_spec(combos[i].weight))
}

/// The average of values by weight, over the weight of both ranges; zero where a range has no weight.
pub open spec fn average_of<S: Scalar>(
    values: Seq<S>,
    combos: Seq<ComboWeight<S>>,
    own_total: S,
    opponent_total: S,
) -> S {
    if S::zero_spec().at_least_spec(own_total) || S::zero_spec().at_least_spec(opponent_total) {
        S::zero_spec()
    } else {
        sum_spec(weighted(values, combos)).over_spec(own_total.times_spec(opponent_total))
    }
}

/// The average of values by weight, over the weight of both ranges.
pub fn weighted_average<S: Scalar>(
    values: &[S],
    combos: &[ComboWeight<S>],
    own_total_weight: S,
    opponent_total_weight: S,
) -> (r: S)
    requires
        values@.len() == combos@.len(),
    ensures
        r == average_of(values@, combos@, own_total_weight, opponent_total_weight),
{
    if S::zero().at_least(own_total_weight) || S::zero().at_least(opponent_total_weight) {
        return S::zero();
    }
    let mut products: Vec<S> = Vec::new();
    for i in 0..values.len()
        invariant
            values@.len() == combos@.len(),
            products@ =~= weighted(values@, combos@).take(i as int),
    {
        products.push(values[i].times(combos[i].weight));
    }
    proof {
        assert(weighted(values@, combos@).take(values@.len() as int) =~= weighted(values@, combos@));
    }
    sum(&products).over(own_total_weight.times(opponent_total_weight))
}

} // verus!
