//! Regret matching, averaging and updates on tables with one row for each action.
use vstd::prelude::*;
use crate::cfr_math::{
    rows_have, rows_of, uniform_share, zeros, zeros_spec, RealCfrAverageStrategy,
    RealCfrUpdateFactors, RealCfrVariant,
};
use crate::scalar::Scalar;

verus! {

/// Whether there are rows for so many actions with a number for each of so many hands.
pub open spec fn is_grid<S>(rows: Seq<Seq<S>>, actions: nat, combos: nat) -> bool {
    &&& rows.len() == actions
    &&& forall|a: int| 0 <= a < actions ==> (#[trigger] rows[a]).len() == combos
}

/// The sum of what a hand has in the first `n` rows, regrets below zero counted as none.
pub open spec fn clipped_total<S: Scalar>(rows: Seq<Seq<S>>, combo: int, n: nat) -> S
    decreases n,
{
    if n == 0 {
        S::zero_spec()
    } else {
        clipped_total(rows, combo, (n - 1) as nat).plus_spec(
            rows[n - 1][combo].max_spec(S::zero_spec()),
        )
    }
}

/// The sum of what a hand has in the first `n` rows.
pub open spec fn plain_total<S: Scalar>(rows: Seq<Seq<S>>, combo: int, n: nat) -> S
    decreases n,
{
    if n == 0 {
        S::zero_spec()
    } else {
        plain_total(rows, combo, (n - 1) as nat).plus_spec(rows[n - 1][combo])
    }
}

/// What a hand has in a row.
pub open spec fn grid_cell<S: Scalar>(clipped: bool, rows: Seq<Seq<S>>, action: int, combo: int) -> S {
    if clipped {
        rows[action][combo].max_spec(S::zero_spec())
    } else {
        rows[action][combo]
    }
}

/// What a hand has in the first `n` rows.
pub open spec fn grid_total<S: Scalar>(clipped: bool, rows: Seq<Seq<S>>, combo: int, n: nat) -> S {
    if clipped {
        clipped_total(rows, combo, n)
    } else {
        plain_total(rows, combo, n)
    }
}

/// The share of an action for a hand: by what the hand has in its row, or the same for all actions.
pub open spec fn grid_share<S: Scalar>(clipped: bool, rows: Seq<Seq<S>>, action: int, combo: int) -> S {
    let total = grid_total(clipped, rows, combo, rows.len());
    if total.exceeds_spec(S::zero_spec()) {
        grid_cell(clipped, rows, action, combo).over_spec(total)
    } else {
        uniform_share(rows.len() as int)
    }
}

/// The strategies that rows of regrets, or of sums, give.
pub open spec fn grid_shares<S: Scalar>(clipped: bool, rows: Seq<Seq<S>>, combos: nat) -> Seq<Seq<S>> {
    Seq::new(
        rows.len(),
        |action: int| Seq::new(combos, |combo: int| grid_share(clipped, rows, action, combo)),
    )
}

/// The strategies that regrets give now.
pub open spec fn current_major<S: Scalar>(regrets: Seq<Seq<S>>, combos: nat) -> Seq<Seq<S>> {
    grid_shares(true, regrets, combos)
}

/// The strategies that sums of strategies give on average.
pub open spec fn average_major<S: Scalar>(sums: Seq<Seq<S>>, combos: nat) -> Seq<Seq<S>> {
    grid_shares(false, sums, combos)
}

fn shares<S: Scalar>(clipped: bool, rows: &Vec<Vec<S>>, combos: usize) -> (r: Vec<Vec<S>>)
    requires
        rows_have(rows@, rows@.len() as int, combos as int),
    ensures
        rows_of(r@) == grid_shares(clipped, rows_of(rows@), combos as nat),
        rows_have(r@, rows@.len() as int, combos as int),
{
    let actions: usize = rows.len();
    let ghost all = rows_of(rows@);
    let mut totals: Vec<S> = Vec::new();
    for combo in 0..combos
        invariant
            all == rows_of(rows@),
            actions == rows@.len(),
            rows_have(rows@, actions as int, combos as int),
            totals@.len() == combo,
            forall|c: int|
                0 <= c < combo ==> #[trigger] totals@[c] == grid_total(clipped, all, c, actions as nat),
    {
        let mut total: S = S::zero();
        for action in 0..actions
            invariant
                all == rows_of(rows@),
                actions == rows@.len(),
                rows_have(rows@, actions as int, combos as int),
                combo < combos,
                total == grid_total(clipped, all, combo as int, action as nat),
        {
            proof {
                assert(rows@[action as int]@.len() == combos);
                assert(all[action as int] == rows@[action as int]@);
            }
            let cell: S = if clipped {
                rows[action][combo].max_of(S::zero())
            } else {
                rows[action][combo]
            };
            total = total.plus(cell);
        }
        totals.push(total);
    }
    let uniform: S = S::one().over(S::from_count(actions));
    let ghost goal = grid_shares(clipped, all, combos as nat);
    let mut out: Vec<Vec<S>> = Vec::new();
    for action in 0..actions
        invariant
            all == rows_of(rows@),
            actions == rows@.len(),
            rows_have(rows@, actions as int, combos as int),
            totals@.len() == combos,
            forall|c: int|
                0 <= c < combos ==> #[trigger] totals@[c] == grid_total(clipped, all, c, actions as nat),
            uniform == uniform_share::<S>(actions as int),
            goal == grid_shares(clipped, all, combos as nat),
            out@.len() == action,
            forall|a: int| 0 <= a < action ==> (#[trigger] out@[a])@ == goal[a],
    {
        let mut row: Vec<S> = Vec::new();
        proof {
            assert(rows@[action as int]@.len() == combos);
            assert(all[action as int] == rows@[action as int]@);
        }
        for combo in 0..combos
            invariant
                all == rows_of(rows@),
                actions == rows@.len(),
                action < actions,
                rows@[action as int]@.len() == combos,
                all[action as int] == rows@[action as int]@,
                totals@.len() == combos,
                forall|c: int|
                    0 <= c < combos ==> #[trigger] totals@[c] == grid_total(
                        clipped,
                        all,
                        c,
                        actions as nat,
                    ),
                uniform == uniform_share::<S>(actions as int),
                row@.len() == combo,
                forall|c: int|
                    0 <= c < combo ==> #[trigger] row@[c] == grid_share(clipped, all, action as int, c),
        {
            let total: S = totals[combo];
            let share: S = if total.exceeds(S::zero()) {
                let cell: S = if clipped {
                    rows[action][combo].max_of(S::zero())
                } else {
                    rows[action][combo]
                };
                cell.over(total)
            } else {
                uniform
            };
            row.push(share);
        }
        proof {
            assert(row@ =~= goal[action as int]);
        }
        out.push(row);
    }
    proof {
        assert(rows_of(out@) =~= goal);
        assert forall|a: int| 0 <= a < actions implies (#[trigger] out@[a])@.len() == combos by {
            assert(out@[a]@ == goal[a]);
        }
    }
    out
}

/// The strategies that regrets give now.
pub fn current_strategies_action_major<S: Scalar>(regrets: &Vec<Vec<S>>, combos: usize) -> (r: Vec<Vec<S>>)
    requires
        rows_have(regrets@, regrets@.len() as int, combos as int),
    ensures
        rows_of(r@) == current_major(rows_of(regrets@), combos as nat),
        rows_have(r@, regrets@.len() as int, combos as int),
{
    shares(true, regrets, combos)
}

/// The strategies that sums of strategies give on average.
pub fn average_strategies_action_major<S: Scalar>(strategy_sum: &Vec<Vec<S>>, combos: usize) -> (r: Vec<
    Vec<S>,
>)
    requires
        rows_have(strategy_sum@, strategy_sum@.len() as int, combos as int),
    ensures
        rows_of(r@) == average_major(rows_of(strategy_sum@), combos as nat),
        rows_have(r@, strategy_sum@.len() as int, combos as int),
{
    shares(false, strategy_sum, combos)
}

/// The reach of hands after an action.
pub open spec fn reach_major<S: Scalar>(reach: Seq<S>, strategy: Seq<S>) -> Seq<S> {
    Seq::new(reach.len(), |c: int| reach[c].times_spec(strategy[c]))
}

/// The reach of hands after an action.
pub fn strategy_reach_action_major<S: Scalar>(reach: &Vec<S>, strategy: &Vec<S>) -> (r: Vec<S>)
    requires
        reach@.len() == strategy@.len(),
    ensures
        r@ == reach_major(reach@, strategy@),
        r@.len() == reach@.len(),
{
    let mut out: Vec<S> = Vec::new();
    for c in 0..reach.len()
        invariant
            reach@.len() == strategy@.len(),
            out@ =~= reach_major(reach@, strategy@).take(c as int),
    {
        out.push(reach[c].times(strategy[c]));
    }
    proof {
        assert(reach_major(reach@, strategy@).take(reach@.len() as int) =~= reach_major(
            reach@,
            strategy@,
        ));
    }
    out
}

/// The value of a hand to the actor over the first `n` actions.
pub open spec fn acting_value_major<S: Scalar>(
    rows: Seq<Seq<S>>,
    strategies: Seq<Seq<S>>,
    combo: int,
    n: nat,
) -> S
    decreases n,
{
    if n == 0 {
        S::zero_spec()
    } else {
        acting_value_major(rows, strategies, combo, (n - 1) as nat).plus_spec(
            rows[n - 1][combo].times_spec(strategies[n - 1][combo]),
        )
    }
}

/// The values of all hands to the actor.
pub open spec fn acting_major<S: Scalar>(rows: Seq<Seq<S>>, strategies: Seq<Seq<S>>, combos: nat) -> Seq<S> {
    Seq::new(combos, |combo: int| acting_value_major(rows, strategies, combo, rows.len()))
}

/// The values of all hands to the actor.
pub fn combine_acting_action_major<S: Scalar>(rows: &Vec<Vec<S>>, strategies: &Vec<Vec<S>>, combos: usize) -> (r:
    Vec<S>)
    requires
        rows_have(rows@, rows@.len() as int, combos as int),
        rows_have(strategies@, rows@.len() as int, combos as int),
    ensures
        r@ == acting_major(rows_of(rows@), rows_of(strategies@), combos as nat),
        r@.len() == combos,
{
    let actions: usize = rows.len();
    let ghost all = rows_of(rows@);
    let ghost plans = rows_of(strategies@);
    let mut out: Vec<S> = Vec::new();
    for combo in 0..combos
        invariant
            all == rows_of(rows@),
            plans == rows_of(strategies@),
            actions == rows@.len(),
            rows_have(rows@, actions as int, combos as int),
            rows_have(strategies@, actions as int, combos as int),
            out@.len() == combo,
            forall|c: int|
                0 <= c < combo ==> #[trigger] out@[c] == acting_value_major(
                    all,
                    plans,
                    c,
                    actions as nat,
                ),
    {
        let mut value: S = S::zero();
        for action in 0..actions
            invariant
                all == rows_of(rows@),
                plans == rows_of(strategies@),
                actions == rows@.len(),
                rows_have(rows@, actions as int, combos as int),
                rows_have(strategies@, actions as int, combos as int),
                combo < combos,
                value == acting_value_major(all, plans, combo as int, action as nat),
        {
            proof {
                assert(rows@[action as int]@.len() == combos);
                assert(strategies@[action as int]@.len() == combos);
                assert(all[action as int] == rows@[action as int]@);
                assert(plans[action as int] == strategies@[action as int]@);
            }
            value = value.plus(rows[action][combo].times(strategies[action][combo]));
        }
        out.push(value);
    }
    proof {
        assert(out@ =~= acting_major(all, plans, combos as nat));
    }
    out
}

/// The discounts of one iteration, and what strategies are averaged by.
#[derive(Clone, Copy, Debug)]
pub struct NodeLocalUpdateFactors<S> {
    pub factors: RealCfrUpdateFactors<S>,
    pub average_strategy: RealCfrAverageStrategy,
}

impl<S: Scalar> NodeLocalUpdateFactors<S> {
    /// The discounts of an iteration.
    pub open spec fn of(variant: RealCfrVariant<S>, iteration_weight: S, average_strategy: RealCfrAverageStrategy) -> Self {
        NodeLocalUpdateFactors {
            factors: RealCfrUpdateFactors::of(variant, iteration_weight),
            average_strategy,
        }
    }

    /// The discounts of an iteration.
    pub fn new(variant: RealCfrVariant<S>, iteration_weight: S, average_strategy: RealCfrAverageStrategy) -> (r:
        Self)
        ensures
            r == Self::of(variant, iteration_weight, average_strategy),
    {
        NodeLocalUpdateFactors {
            factors: RealCfrUpdateFactors::new(variant, iteration_weight),
            average_strategy,
        }
    }

    /// A regret after an iteration: discounted, moved by how much better the action is than the node, and
    /// not below zero where the variant says so.
    pub open spec fn regret(self, regret: S, action_value: S, node_value: S) -> S {
        match self.factors.variant {
            RealCfrVariant::CfrPlus => regret.plus_spec(action_value).minus_spec(node_value).max_spec(
                S::zero_spec(),
            ),
            RealCfrVariant::Dcfr { alpha, beta, gamma } => regret.times_spec(
                if regret.at_least_spec(S::zero_spec()) {
                    self.factors.positive_regret_discount
                } else {
                    self.factors.negative_regret_discount
                },
            ).plus_spec(action_value).minus_spec(node_value),
            RealCfrVariant::DcfrPlus { alpha, gamma } => regret.times_spec(
                self.factors.positive_regret_discount,
            ).plus_spec(action_value).minus_spec(node_value).max_spec(S::zero_spec()),
        }
    }

    /// A sum of strategies after an iteration: discounted, with the strategy added, by weight and by
    /// reach where these count.
    pub open spec fn sum(self, sum: S, strategy: S, reach: S) -> S {
        match (self.factors.variant, self.average_strategy) {
            (RealCfrVariant::CfrPlus, RealCfrAverageStrategy::ReachWeighted) => sum.plus_spec(
                self.factors.iteration_weight.times_spec(reach).times_spec(strategy),
            ),
            (RealCfrVariant::CfrPlus, RealCfrAverageStrategy::Local) => sum.plus_spec(
                self.factors.iteration_weight.times_spec(strategy),
            ),
            (_, RealCfrAverageStrategy::ReachWeighted) => sum.times_spec(
                self.factors.strategy_discount,
            ).plus_spec(reach.times_spec(strategy)),
            (_, RealCfrAverageStrategy::Local) => sum.times_spec(
                self.factors.strategy_discount,
            ).plus_spec(strategy),
        }
    }

    fn next_regret(&self, regret: S, action_value: S, node_value: S) -> (r: S)
        ensures
            r == self.regret(regret, action_value, node_value),
    {
        match self.factors.variant {
            RealCfrVariant::CfrPlus => regret.plus(action_value).minus(node_value).max_of(S::zero()),
            RealCfrVariant::Dcfr { alpha, beta, gamma } => {
                let discount: S = if regret.at_least(S::zero()) {
                    self.factors.positive_regret_discount
                } else {
                    self.factors.negative_regret_discount
                };
                regret.times(discount).plus(action_value).minus(node_value)
            },
            RealCfrVariant::DcfrPlus { alpha, gamma } => regret.times(
                self.factors.positive_regret_discount,
            ).plus(action_value).minus(node_value).max_of(S::zero()),
        }
    }

    fn next_sum(&self, sum: S, strategy: S, reach: S) -> (r: S)
        ensures
            r == self.sum(sum, strategy, reach),
    {
        match (self.factors.variant, self.average_strategy) {
            (RealCfrVariant::CfrPlus, RealCfrAverageStrategy::ReachWeighted) => sum.plus(
                self.factors.iteration_weight.times(reach).times(strategy),
            ),
            (RealCfrVariant::CfrPlus, RealCfrAverageStrategy::Local) => sum.plus(
                self.factors.iteration_weight.times(strategy),
            ),
            (_, RealCfrAverageStrategy::ReachWeighted) => sum.times(
                self.factors.strategy_discount,
            ).plus(reach.times(strategy)),
            (_, RealCfrAverageStrategy::Local) => sum.times(self.factors.strategy_discount).plus(
                strategy,
            ),
        }
    }
}

/// The regrets and the sums of strategies of one node on one board, a row for each action.
#[derive(Clone, Debug)]
pub struct NodeTables<S> {
    pub regrets: Vec<Vec<S>>,
    pub strategy_sum: Vec<Vec<S>>,
}

/// The regrets and the sums of strategies of one node on one board.
pub ghost struct NodeTablesView<S> {
    pub regrets: Seq<Seq<S>>,
    pub sums: Seq<Seq<S>>,
}

impl<S> View for NodeTables<S> {
    type V = NodeTablesView<S>;

    open spec fn view(&self) -> NodeTablesView<S> {
        NodeTablesView { regrets: rows_of(self.regrets@), sums: rows_of(self.strategy_sum@) }
    }
}

impl<S: Scalar> NodeTablesView<S> {
    /// Whether there are rows for so many actions and so many hands.
    pub open spec fn sized(self, actions: nat, combos: nat) -> bool {
        is_grid(self.regrets, actions, combos) && is_grid(self.sums, actions, combos)
    }

    /// Tables that hold nothing but zeros.
    pub open spec fn zero(actions: nat, combos: nat) -> Self {
        NodeTablesView {
            regrets: Seq::new(actions, |a: int| zeros_spec::<S>(combos)),
            sums: Seq::new(actions, |a: int| zeros_spec::<S>(combos)),
        }
    }

    /// The tables after an iteration.
    pub open spec fn updated(
        self,
        values: Seq<Seq<S>>,
        node_values: Seq<S>,
        strategies: Seq<Seq<S>>,
        reach: Seq<S>,
        factors: NodeLocalUpdateFactors<S>,
    ) -> Self {
        NodeTablesView {
            regrets: Seq::new(
                self.regrets.len(),
                |a: int|
                    Seq::new(
                        self.regrets[a].len(),
                        |c: int| factors.regret(self.regrets[a][c], values[a][c], node_values[c]),
                    ),
            ),
            sums: Seq::new(
                self.sums.len(),
                |a: int|
                    Seq::new(
                        self.sums[a].len(),
                        |c: int| factors.sum(self.sums[a][c], strategies[a][c], reach[c]),
                    ),
            ),
        }
    }
}

/// Rows have the lengths of their contents.
pub proof fn rows_are_grid<S>(rows: Seq<Vec<S>>, actions: nat, combos: nat)
    ensures
        is_grid(rows_of(rows), actions, combos) == rows_have(rows, actions as int, combos as int),
{
    let all = rows_of(rows);
    if is_grid(all, actions, combos) {
        assert forall|a: int| 0 <= a < actions implies (#[trigger] rows[a])@.len() == combos by {
            assert(all[a] == rows[a]@);
        }
    }
    if rows_have(rows, actions as int, combos as int) {
        assert forall|a: int| 0 <= a < actions implies (#[trigger] all[a]).len() == combos by {
            assert(all[a] == rows[a]@);
        }
    }
}

fn zero_rows<S: Scalar>(actions: usize, combos: usize) -> (r: Vec<Vec<S>>)
    ensures
        rows_of(r@) == Seq::new(actions as nat, |a: int| zeros_spec::<S>(combos as nat)),
{
    let mut rows: Vec<Vec<S>> = Vec::new();
    for a in 0..actions
        invariant
            rows@.len() == a,
            forall|k: int| 0 <= k < a ==> (#[trigger] rows@[k])@ == zeros_spec::<S>(combos as nat),
    {
        rows.push(zeros(combos));
    }
    proof {
        assert(rows_of(rows@) =~= Seq::new(actions as nat, |a: int| zeros_spec::<S>(combos as nat)));
    }
    rows
}

impl<S: Scalar> NodeTables<S> {
    /// Tables that hold nothing but zeros.
    pub fn zero(actions: usize, combos: usize) -> (r: Self)
        ensures
            r@ == NodeTablesView::<S>::zero(actions as nat, combos as nat),
            r@.sized(actions as nat, combos as nat),
    {
        let r = NodeTables { regrets: zero_rows(actions, combos), strategy_sum: zero_rows(actions, combos) };
        proof {
            assert forall|a: int| 0 <= a < actions implies (#[trigger] r@.regrets[a]).len() == combos by {}
            assert forall|a: int| 0 <= a < actions implies (#[trigger] r@.sums[a]).len() == combos by {}
        }
        r
    }

    /// Updates the tables after an iteration.
    pub fn apply_node_local_updates_action_major(
        &mut self,
        action_values: &Vec<Vec<S>>,
        node_values: &Vec<S>,
        strategies: &Vec<Vec<S>>,
        own_reach: &Vec<S>,
        combos: usize,
        actions: usize,
        factors: &NodeLocalUpdateFactors<S>,
    )
        requires
            old(self)@.sized(actions as nat, combos as nat),
            rows_have(action_values@, actions as int, combos as int),
            rows_have(strategies@, actions as int, combos as int),
            node_values@.len() == combos,
            own_reach@.len() == combos,
        ensures
            final(self)@ == old(self)@.updated(
                rows_of(action_values@),
                node_values@,
                rows_of(strategies@),
                own_reach@,
                *factors,
            ),
            final(self)@.sized(actions as nat, combos as nat),
    {
        let ghost before = self@;
        let ghost values = rows_of(action_values@);
        let ghost plans = rows_of(strategies@);
        let ghost goal = before.updated(values, node_values@, plans, own_reach@, *factors);
        proof {
            rows_are_grid(self.regrets@, actions as nat, combos as nat);
            rows_are_grid(self.strategy_sum@, actions as nat, combos as nat);
        }
        let mut regrets: Vec<Vec<S>> = Vec::new();
        let mut sums: Vec<Vec<S>> = Vec::new();
        for action in 0..actions
            invariant
                before == self@,
                values == rows_of(action_values@),
                plans == rows_of(strategies@),
                goal == before.updated(values, node_values@, plans, own_reach@, *factors),
                rows_have(self.regrets@, actions as int, combos as int),
                rows_have(self.strategy_sum@, actions as int, combos as int),
                rows_have(action_values@, actions as int, combos as int),
                rows_have(strategies@, actions as int, combos as int),
                node_values@.len() == combos,
                own_reach@.len() == combos,
                regrets@.len() == action,
                sums@.len() == action,
                forall|a: int| 0 <= a < action ==> (#[trigger] regrets@[a])@ == goal.regrets[a],
                forall|a: int| 0 <= a < action ==> (#[trigger] sums@[a])@ == goal.sums[a],
                forall|a: int| 0 <= a < action ==> (#[trigger] regrets@[a])@.len() == combos,
                forall|a: int| 0 <= a < action ==> (#[trigger] sums@[a])@.len() == combos,
        {
            let mut regret_row: Vec<S> = Vec::new();
            let mut sum_row: Vec<S> = Vec::new();
            proof {
                assert(self.regrets@[action as int]@.len() == combos);
                assert(self.strategy_sum@[action as int]@.len() == combos);
                assert(action_values@[action as int]@.len() == combos);
                assert(strategies@[action as int]@.len() == combos);
                assert(before.regrets[action as int] == self.regrets@[action as int]@);
                assert(before.sums[action as int] == self.strategy_sum@[action as int]@);
                assert(values[action as int] == action_values@[action as int]@);
                assert(plans[action as int] == strategies@[action as int]@);
            }
            let regret_from: &Vec<S> = &self.regrets[action];
            let sum_from: &Vec<S> = &self.strategy_sum[action];
            let value_from: &Vec<S> = &action_values[action];
            let strategy_from: &Vec<S> = &strategies[action];
            for combo in 0..combos
                invariant
                    goal == before.updated(values, node_values@, plans, own_reach@, *factors),
                    0 <= action < actions,
                    before.regrets.len() == actions,
                    before.sums.len() == actions,
                    before.regrets[action as int] == regret_from@,
                    before.sums[action as int] == sum_from@,
                    values[action as int] == value_from@,
                    plans[action as int] == strategy_from@,
                    regret_from@.len() == combos,
                    sum_from@.len() == combos,
                    value_from@.len() == combos,
                    strategy_from@.len() == combos,
                    node_values@.len() == combos,
                    own_reach@.len() == combos,
                    regret_row@ =~= goal.regrets[action as int].take(combo as int),
                    sum_row@ =~= goal.sums[action as int].take(combo as int),
            {
                regret_row.push(
                    factors.next_regret(regret_from[combo], value_from[combo], node_values[combo]),
                );
                sum_row.push(factors.next_sum(sum_from[combo], strategy_from[combo], own_reach[combo]));
            }
            proof {
                assert(regret_row@ =~= goal.regrets[action as int]);
                assert(sum_row@ =~= goal.sums[action as int]);
            }
            regrets.push(regret_row);
            sums.push(sum_row);
        }
        self.regrets = regrets;
        self.strategy_sum = sums;
        proof {
            rows_are_grid(self.regrets@, actions as nat, combos as nat);
            rows_are_grid(self.strategy_sum@, actions as nat, combos as nat);
            assert(rows_of(self.regrets@) =~= goal.regrets);
            assert(rows_of(self.strategy_sum@) =~= goal.sums);
        }
    }
}

} // verus!
