//! A solver for the river after a check: one player checks or bets, the other folds or calls.
use vstd::prelude::*;
use crate::cards::{all_different, Card};
use crate::river::{
    are_river_hands, deal_rows, report_of, reports_spec, river_blocker_reports, river_combos,
    river_deals, river_hands_are_off_board, river_list, role_key, role_place, sampled,
    sampled_index, RiverBlockerReport, RiverCombo, RiverNode, RiverRole, SAMPLE_START,
};
use crate::scalar::{ratio, ratio_spec, Scalar};
use crate::sorting::{is_sorting, sorted_positions, sorting, SortKey};

verus! {

/// What is solved, and for how long.
#[derive(Clone, Copy, Debug)]
pub struct RiverCfrConfig<S> {
    pub board: [Card; 5],
    pub pot: S,
    pub bet: S,
    pub iterations: usize,
    pub top_fraction: S,
}

/// How often an action is taken.
#[derive(Clone, Copy, Debug)]
pub struct RiverActionFrequency<S> {
    pub action: &'static str,
    pub frequency: S,
}

/// How a hand acts at a decision, and what it blocks.
#[derive(Clone, Copy, Debug)]
pub struct RiverComboStrategy<S> {
    pub combo: RiverCombo,
    pub role: RiverRole,
    pub node: RiverNode,
    pub first: RiverActionFrequency<S>,
    pub second: RiverActionFrequency<S>,
    pub blocked_villain_combos: usize,
    pub blocked_top_combos: usize,
    pub total_villain_combos: usize,
    pub top_villain_combos: usize,
}

impl<S: Scalar> RiverComboStrategy<S> {
    /// The actions of the hand with how often each is taken.
    pub fn actions(&self) -> (r: Vec<RiverActionFrequency<S>>)
        ensures
            r@ == seq![self.first, self.second],
    {
        let mut actions: Vec<RiverActionFrequency<S>> = Vec::new();
        actions.push(self.first);
        actions.push(self.second);
        assert(actions@ =~= seq![self.first, self.second]);
        actions
    }
}

/// What was solved.
#[derive(Clone, Debug)]
pub struct RiverCfrResult<S> {
    pub iterations: usize,
    pub expected_value_oop: S,
    pub pot: S,
    pub bet: S,
    pub combo_count: usize,
    pub strategies: Vec<RiverComboStrategy<S>>,
}

/// A value for each of two actions.
#[derive(Clone, Copy, Debug)]
pub struct TwoSums<S> {
    pub first: S,
    pub second: S,
}

/// What is learned of a hand at a decision.
#[derive(Clone, Copy, Debug)]
pub struct RiverCfrNode<S> {
    pub regret_sum: TwoSums<S>,
    pub strategy_sum: TwoSums<S>,
}

impl<S: Scalar> RiverCfrNode<S> {
    /// Nothing learned yet.
    pub open spec fn fresh() -> Self {
        RiverCfrNode {
            regret_sum: TwoSums { first: S::zero_spec(), second: S::zero_spec() },
            strategy_sum: TwoSums { first: S::zero_spec(), second: S::zero_spec() },
        }
    }

    /// How the hand acts now: by its regrets above zero, or both ways as often.
    pub open spec fn strategy_spec(self) -> (S, S) {
        let first = self.regret_sum.first.max_spec(S::zero_spec());
        let second = self.regret_sum.second.max_spec(S::zero_spec());
        let total = first.plus_spec(second);
        if total.exceeds_spec(S::zero_spec()) {
            (first.over_spec(total), second.over_spec(total))
        } else {
            (ratio_spec(1, 2), ratio_spec(1, 2))
        }
    }

    /// How the hand acts now.
    pub fn strategy(&self) -> (r: (S, S))
        ensures
            r == self.strategy_spec(),
    {
        let first: S = self.regret_sum.first.max_of(S::zero());
        let second: S = self.regret_sum.second.max_of(S::zero());
        let total: S = first.plus(second);
        if total.exceeds(S::zero()) {
            (first.over(total), second.over(total))
        } else {
            (ratio(1, 2), ratio(1, 2))
        }
    }

    /// How the hand acted on average.
    pub open spec fn average_spec(self) -> (S, S) {
        let total = self.strategy_sum.first.plus_spec(self.strategy_sum.second);
        if total.exceeds_spec(S::zero_spec()) {
            (self.strategy_sum.first.over_spec(total), self.strategy_sum.second.over_spec(total))
        } else {
            (ratio_spec(1, 2), ratio_spec(1, 2))
        }
    }

    /// How the hand acted on average.
    pub fn average_strategy(&self) -> (r: (S, S))
        ensures
            r == self.average_spec(),
    {
        let total: S = self.strategy_sum.first.plus(self.strategy_sum.second);
        if total.exceeds(S::zero()) {
            (self.strategy_sum.first.over(total), self.strategy_sum.second.over(total))
        } else {
            (ratio(1, 2), ratio(1, 2))
        }
    }

    /// What is learned after regrets and strategies were added, each by a reach.
    pub open spec fn learned(self, opponent: S, regrets: (S, S), own: S, strategy: (S, S)) -> Self {
        RiverCfrNode {
            regret_sum: TwoSums {
                first: self.regret_sum.first.plus_spec(opponent.times_spec(regrets.0)),
                second: self.regret_sum.second.plus_spec(opponent.times_spec(regrets.1)),
            },
            strategy_sum: TwoSums {
                first: self.strategy_sum.first.plus_spec(own.times_spec(strategy.0)),
                second: self.strategy_sum.second.plus_spec(own.times_spec(strategy.1)),
            },
        }
    }

    fn learn(&self, opponent: S, regrets: (S, S), own: S, strategy: (S, S)) -> (r: Self)
        ensures
            r == self.learned(opponent, regrets, own, strategy),
    {
        RiverCfrNode {
            regret_sum: TwoSums {
                first: self.regret_sum.first.plus(opponent.times(regrets.0)),
                second: self.regret_sum.second.plus(opponent.times(regrets.1)),
            },
            strategy_sum: TwoSums {
                first: self.strategy_sum.first.plus(own.times(strategy.0)),
                second: self.strategy_sum.second.plus(own.times(strategy.1)),
            },
        }
    }
}

/// The node of a hand, or a fresh one.
pub open spec fn node_or_fresh<S: Scalar>(node: Option<RiverCfrNode<S>>) -> RiverCfrNode<S> {
    match node {
        Some(node) => node,
        None => RiverCfrNode::fresh(),
    }
}

fn node_of<S: Scalar>(node: Option<RiverCfrNode<S>>) -> (r: RiverCfrNode<S>)
    ensures
        r == node_or_fresh(node),
{
    match node {
        Some(node) => node,
        None => RiverCfrNode {
            regret_sum: TwoSums { first: S::zero(), second: S::zero() },
            strategy_sum: TwoSums { first: S::zero(), second: S::zero() },
        },
    }
}

/// What the player out of position gets at a showdown: an amount won, lost, or nothing.
pub open spec fn showdown_value<S: Scalar>(oop: u64, ip: u64, amount: S) -> S {
    if oop > ip {
        amount
    } else if oop < ip {
        amount.negate_spec()
    } else {
        S::zero_spec()
    }
}

/// What the player out of position gets at a showdown.
pub fn showdown_utility<S: Scalar>(oop: &RiverCombo, ip: &RiverCombo, win_amount: S) -> (r: S)
    ensures
        r == showdown_value(oop.value.packed, ip.value.packed, win_amount),
{
    if oop.value.packed > ip.value.packed {
        win_amount
    } else if oop.value.packed < ip.value.packed {
        win_amount.negate()
    } else {
        S::zero()
    }
}

/// The value of a decision: the values of its two actions by how often each is taken.
pub open spec fn weighed<S: Scalar>(strategy: (S, S), values: (S, S)) -> S {
    S::zero_spec().plus_spec(strategy.0.times_spec(values.0)).plus_spec(
        strategy.1.times_spec(values.1),
    )
}

fn weigh<S: Scalar>(strategy: (S, S), values: (S, S)) -> (r: S)
    ensures
        r == weighed(strategy, values),
{
    S::zero().plus(strategy.0.times(values.0)).plus(strategy.1.times(values.1))
}

/// What is learned of all hands: of the player in position after a check, of the other facing a bet.
pub ghost struct RiverTables<S> {
    pub ip: Seq<Option<RiverCfrNode<S>>>,
    pub oop: Seq<Option<RiverCfrNode<S>>>,
}

/// What an iteration gives: the value to the player out of position, and what is learned.
pub ghost struct RiverStep<S> {
    pub value: S,
    pub tables: RiverTables<S>,
}

/// Learns from deals.
#[derive(Clone, Debug)]
pub struct RiverCfrTrainer<S> {
    pub combos: Vec<RiverCombo>,
    pub pot: S,
    pub bet: S,
    pub ip_nodes: Vec<Option<RiverCfrNode<S>>>,
    pub oop_nodes: Vec<Option<RiverCfrNode<S>>>,
}

/// What facing a bet gives: folding loses half the pot, calling shows down for that and the bet.
pub open spec fn facing_bet<S: Scalar>(
    combos: Seq<RiverCombo>,
    pot: S,
    bet: S,
    tables: RiverTables<S>,
    oop: int,
    ip: int,
    reach: (S, S),
) -> RiverStep<S> {
    let half = pot.times_spec(ratio_spec(1, 2));
    let node = node_or_fresh(tables.oop[oop]);
    let strategy = node.strategy_spec();
    let values = (
        pot.negate_spec().times_spec(ratio_spec(1, 2)),
        showdown_value(combos[oop].value.packed, combos[ip].value.packed, half.plus_spec(bet)),
    );
    let value = weighed(strategy, values);
    RiverStep {
        value,
        tables: RiverTables {
            oop: tables.oop.update(
                oop,
                Some(
                    node.learned(
                        reach.1,
                        (values.0.minus_spec(value), values.1.minus_spec(value)),
                        reach.0,
                        strategy,
                    ),
                ),
            ),
            ..tables
        },
    }
}

/// What a decision after a check gives: checking shows down for half the pot, betting faces the other
/// player with it.
pub open spec fn after_check<S: Scalar>(
    combos: Seq<RiverCombo>,
    pot: S,
    bet: S,
    tables: RiverTables<S>,
    oop: int,
    ip: int,
    reach: (S, S),
) -> RiverStep<S> {
    let node = node_or_fresh(tables.ip[ip]);
    let strategy = node.strategy_spec();
    let below = facing_bet(
        combos,
        pot,
        bet,
        RiverTables { ip: tables.ip.update(ip, Some(node)), ..tables },
        oop,
        ip,
        (reach.0, reach.1.times_spec(strategy.1)),
    );
    let values = (
        showdown_value(
            combos[oop].value.packed,
            combos[ip].value.packed,
            pot.times_spec(ratio_spec(1, 2)),
        ),
        below.value,
    );
    let value = weighed(strategy, values);
    RiverStep {
        value,
        tables: RiverTables {
            ip: below.tables.ip.update(
                ip,
                Some(
                    node.learned(
                        reach.0,
                        (value.minus_spec(values.0), value.minus_spec(values.1)),
                        reach.1,
                        strategy,
                    ),
                ),
            ),
            ..below.tables
        },
    }
}

/// What the first `n` iterations give, their values added up.
pub open spec fn trained<S: Scalar>(
    combos: Seq<RiverCombo>,
    pot: S,
    bet: S,
    deals: Seq<(usize, usize)>,
    n: nat,
) -> RiverStep<S>
    decreases n,
{
    if n == 0 {
        RiverStep {
            value: S::zero_spec(),
            tables: RiverTables {
                ip: Seq::new(combos.len(), |i: int| None),
                oop: Seq::new(combos.len(), |i: int| None),
            },
        }
    } else {
        let front = trained(combos, pot, bet, deals, (n - 1) as nat);
        let deal = deals[sampled(n - 1, deals.len() as int)];
        let step = after_check(
            combos,
            pot,
            bet,
            front.tables,
            deal.0 as int,
            deal.1 as int,
            (S::one_spec(), S::one_spec()),
        );
        RiverStep { value: front.value.plus_spec(step.value), tables: step.tables }
    }
}

fn no_nodes<S: Scalar>(count: usize) -> (r: Vec<Option<RiverCfrNode<S>>>)
    ensures
        r@ == Seq::new(count as nat, |i: int| None::<RiverCfrNode<S>>),
{
    let mut nodes: Vec<Option<RiverCfrNode<S>>> = Vec::new();
    for i in 0..count
        invariant
            nodes@ =~= Seq::new(i as nat, |i: int| None::<RiverCfrNode<S>>),
    {
        nodes.push(None);
    }
    nodes
}

impl<S: Scalar> RiverCfrTrainer<S> {
    /// What was learned.
    pub open spec fn tables(self) -> RiverTables<S> {
        RiverTables { ip: self.ip_nodes@, oop: self.oop_nodes@ }
    }

    /// Whether there is a place for every hand.
    pub open spec fn wf(self) -> bool {
        &&& self.ip_nodes@.len() == self.combos@.len()
        &&& self.oop_nodes@.len() == self.combos@.len()
    }

    fn facing_bet(&mut self, oop: usize, ip: usize, reach: (S, S)) -> (r: S)
        requires
            old(self).wf(),
            oop < old(self).combos@.len(),
            ip < old(self).combos@.len(),
        ensures
            final(self).wf(),
            final(self).combos == old(self).combos,
            final(self).pot == old(self).pot,
            final(self).bet == old(self).bet,
            ({
                let step = facing_bet(
                    old(self).combos@,
                    old(self).pot,
                    old(self).bet,
                    old(self).tables(),
                    oop as int,
                    ip as int,
                    reach,
                );
                r == step.value && final(self).tables() == step.tables
            }),
    {
        let half: S = self.pot.times(ratio(1, 2));
        let node: RiverCfrNode<S> = node_of(self.oop_nodes[oop]);
        let strategy: (S, S) = node.strategy();
        let fold: S = self.pot.negate().times(ratio(1, 2));
        let call: S = showdown_utility(&self.combos[oop], &self.combos[ip], half.plus(self.bet));
        let value: S = weigh(strategy, (fold, call));
        let next: RiverCfrNode<S> = node.learn(
            reach.1,
            (fold.minus(value), call.minus(value)),
            reach.0,
            strategy,
        );
        self.oop_nodes.set(oop, Some(next));
        value
    }

    /// One iteration on a deal.
    pub fn cfr(&mut self, oop: usize, ip: usize, reach: (S, S)) -> (r: S)
        requires
            old(self).wf(),
            oop < old(self).combos@.len(),
            ip < old(self).combos@.len(),
        ensures
            final(self).wf(),
            final(self).combos == old(self).combos,
            final(self).pot == old(self).pot,
            final(self).bet == old(self).bet,
            ({
                let step = after_check(
                    old(self).combos@,
                    old(self).pot,
                    old(self).bet,
                    old(self).tables(),
                    oop as int,
                    ip as int,
                    reach,
                );
                r == step.value && final(self).tables() == step.tables
            }),
    {
        let node: RiverCfrNode<S> = node_of(self.ip_nodes[ip]);
        let strategy: (S, S) = node.strategy();
        self.ip_nodes.set(ip, Some(node));
        let check: S = showdown_utility(
            &self.combos[oop],
            &self.combos[ip],
            self.pot.times(ratio(1, 2)),
        );
        let bet: S = self.facing_bet(oop, ip, (reach.0, reach.1.times(strategy.1)));
        let value: S = weigh(strategy, (check, bet));
        let next: RiverCfrNode<S> = node.learn(
            reach.0,
            (value.minus(check), value.minus(bet)),
            reach.1,
            strategy,
        );
        self.ip_nodes.set(ip, Some(next));
        value
    }
}

/// How a hand acts at a decision, with what it blocks.
pub open spec fn strategy_entry<S: Scalar>(
    combos: Seq<RiverCombo>,
    role: RiverRole,
    node: RiverCfrNode<S>,
    i: int,
    fraction: S,
) -> RiverComboStrategy<S> {
    let average = node.average_spec();
    let report = report_of(combos[i], combos, fraction);
    RiverComboStrategy {
        combo: combos[i],
        role,
        node: role_node(role),
        first: RiverActionFrequency { action: role_actions(role).0, frequency: average.0 },
        second: RiverActionFrequency { action: role_actions(role).1, frequency: average.1 },
        blocked_villain_combos: report.blocked_villain_combos,
        blocked_top_combos: report.blocked_top_combos,
        total_villain_combos: report.total_villain_combos,
        top_villain_combos: report.top_villain_combos,
    }
}

/// The decision of a player.
pub open spec fn role_node(role: RiverRole) -> RiverNode {
    match role {
        RiverRole::Ip => RiverNode::AfterCheck,
        RiverRole::Oop => RiverNode::FacingBet,
    }
}

/// What a player can do.
pub open spec fn role_actions(role: RiverRole) -> (&'static str, &'static str) {
    match role {
        RiverRole::Ip => ("check", "bet"),
        RiverRole::Oop => ("fold", "call"),
    }
}

/// How the first `n` hands act at a decision, as far as any of them came there.
pub open spec fn entries<S: Scalar>(
    combos: Seq<RiverCombo>,
    role: RiverRole,
    nodes: Seq<Option<RiverCfrNode<S>>>,
    fraction: S,
    n: nat,
) -> Seq<RiverComboStrategy<S>>
    decreases n,
{
    if n == 0 {
        Seq::empty()
    } else {
        let front = entries(combos, role, nodes, fraction, (n - 1) as nat);
        match nodes[n - 1] {
            Some(node) => front.push(strategy_entry(combos, role, node, n - 1, fraction)),
            None => front,
        }
    }
}

/// By what the strategies are ordered: by player, the strongest hand first, among equal hands the
/// one that blocks the most first, then by the letters of the hand.
pub open spec fn strategy_key<S>(strategy: RiverComboStrategy<S>) -> SortKey {
    SortKey {
        first: role_place(strategy.role) as u64,
        second: (u64::MAX - strategy.combo.value.packed) as u64,
        third: (u64::MAX - strategy.blocked_top_combos) as u64,
        fourth: strategy.combo.combo.label_key_spec(),
    }
}

/// Strategies in the order that they are reported in.
pub open spec fn in_report_order<S>(strategies: Seq<RiverComboStrategy<S>>) -> Seq<RiverComboStrategy<S>> {
    let order = sorting(Seq::new(strategies.len(), |i: int| strategy_key(strategies[i])));
    Seq::new(order.len(), |i: int| strategies[order[i] as int])
}

/// The strategies of all hands that came to a decision, in the order that they are reported in.
pub open spec fn strategies_spec<S: Scalar>(
    combos: Seq<RiverCombo>,
    tables: RiverTables<S>,
    fraction: S,
) -> Seq<RiverComboStrategy<S>> {
    in_report_order(
        entries(combos, RiverRole::Oop, tables.oop, fraction, combos.len()) + entries(
            combos,
            RiverRole::Ip,
            tables.ip,
            fraction,
            combos.len(),
        ),
    )
}

fn push_entries<S: Scalar>(
    combos: &[RiverCombo],
    role: RiverRole,
    nodes: &[Option<RiverCfrNode<S>>],
    reports: &[RiverBlockerReport],
    fraction: Ghost<S>,
    list: &mut Vec<RiverComboStrategy<S>>,
)
    requires
        nodes@.len() == combos@.len(),
        reports@.len() == combos@.len(),
        forall|i: int|
            0 <= i < combos@.len() ==> #[trigger] reports@[i] == report_of(
                combos@[i],
                combos@,
                fraction@,
            ),
    ensures
        final(list)@ == old(list)@ + entries(combos@, role, nodes@, fraction@, combos@.len()),
{
    let (node, actions): (RiverNode, (&'static str, &'static str)) = match role {
        RiverRole::Ip => (RiverNode::AfterCheck, ("check", "bet")),
        RiverRole::Oop => (RiverNode::FacingBet, ("fold", "call")),
    };
    for i in 0..combos.len()
        invariant
            nodes@.len() == combos@.len(),
            reports@.len() == combos@.len(),
            forall|i: int|
                0 <= i < combos@.len() ==> #[trigger] reports@[i] == report_of(
                    combos@[i],
                    combos@,
                    fraction@,
                ),
            node == role_node(role),
            actions == role_actions(role),
            list@ =~= old(list)@ + entries(combos@, role, nodes@, fraction@, i as nat),
    {
        if let Some(learned) = nodes[i] {
            let average: (S, S) = learned.average_strategy();
            let report: RiverBlockerReport = reports[i];
            list.push(
                RiverComboStrategy {
                    combo: combos[i],
                    role,
                    node,
                    first: RiverActionFrequency { action: actions.0, frequency: average.0 },
                    second: RiverActionFrequency { action: actions.1, frequency: average.1 },
                    blocked_villain_combos: report.blocked_villain_combos,
                    blocked_top_combos: report.blocked_top_combos,
                    total_villain_combos: report.total_villain_combos,
                    top_villain_combos: report.top_villain_combos,
                },
            );
        }
    }
}

fn report_order<S: Scalar>(list: &[RiverComboStrategy<S>]) -> (r: Vec<RiverComboStrategy<S>>)
    ensures
        r@ == in_report_order(list@),
{
    let mut keys: Vec<SortKey> = Vec::new();
    for i in 0..list.len()
        invariant
            keys@ =~= Seq::new(i as nat, |i: int| strategy_key(list@[i])),
    {
        let entry: RiverComboStrategy<S> = list[i];
        keys.push(
            SortKey {
                first: role_key(entry.role) as u64,
                second: u64::MAX - entry.combo.value.packed,
                third: u64::MAX - entry.blocked_top_combos as u64,
                fourth: entry.combo.combo.label_key(),
            },
        );
    }
    let order: Vec<usize> = sorted_positions(&keys);
    assert(keys@ =~= Seq::new(list@.len(), |i: int| strategy_key(list@[i])));
    let mut sorted: Vec<RiverComboStrategy<S>> = Vec::new();
    for k in 0..order.len()
        invariant
            is_sorting(keys@, 0, list@.len() as int, order@),
            sorted@ =~= Seq::new(k as nat, |i: int| list@[order@[i] as int]),
    {
        assert(0 <= order@[k as int] < list@.len());
        sorted.push(list[order[k]]);
    }
    sorted
}

/// Hands off the board each have a report, in their order.
proof fn lemma_reports_of_all<S: Scalar>(
    board: Seq<Card>,
    hands: Seq<RiverCombo>,
    villains: Seq<RiverCombo>,
    fraction: S,
    n: nat,
)
    requires
        are_river_hands(board, hands),
        n <= hands.len(),
    ensures
        reports_spec(board, hands, villains, fraction, n).len() == n,
        forall|i: int|
            0 <= i < n ==> #[trigger] reports_spec(board, hands, villains, fraction, n)[i]
                == report_of(hands[i], villains, fraction),
    decreases n,
{
    if n > 0 {
        lemma_reports_of_all(board, hands, villains, fraction, (n - 1) as nat);
        river_hands_are_off_board(board, hands, n - 1);
    }
}

impl<S: Scalar> RiverCfrTrainer<S> {
    /// The strategies of all hands that came to a decision, in the order that they are reported in.
    pub fn combo_strategies(&self, board: [Card; 5], top_fraction: S) -> (r: Vec<RiverComboStrategy<S>>)
        requires
            self.wf(),
            are_river_hands(board@, self.combos@),
        ensures
            r@ == strategies_spec(self.combos@, self.tables(), top_fraction),
    {
        let reports: Vec<RiverBlockerReport> = river_blocker_reports(
            board,
            &self.combos,
            &self.combos,
            top_fraction,
        );
        proof {
            lemma_reports_of_all(
                board@,
                self.combos@,
                self.combos@,
                top_fraction,
                self.combos@.len(),
            );
        }
        let mut list: Vec<RiverComboStrategy<S>> = Vec::new();
        push_entries(
            &self.combos,
            RiverRole::Oop,
            &self.oop_nodes,
            &reports,
            Ghost(top_fraction),
            &mut list,
        );
        push_entries(
            &self.combos,
            RiverRole::Ip,
            &self.ip_nodes,
            &reports,
            Ghost(top_fraction),
            &mut list,
        );
        assert(list@ =~= entries(
            self.combos@,
            RiverRole::Oop,
            self.oop_nodes@,
            top_fraction,
            self.combos@.len(),
        ) + entries(
            self.combos@,
            RiverRole::Ip,
            self.ip_nodes@,
            top_fraction,
            self.combos@.len(),
        ));
        report_order(&list)
    }
}

/// How many iterations are run: all that are asked for, or none where no deal is possible.
pub open spec fn run_count(deals: Seq<(usize, usize)>, iterations: nat) -> nat {
    if deals.len() == 0 {
        0
    } else {
        iterations
    }
}

/// The value of an iteration on average, nothing if there was none.
pub open spec fn river_value<S: Scalar>(sum: S, iterations: usize) -> S {
    if iterations == 0 {
        S::zero_spec()
    } else {
        sum.over_spec(S::from_count_spec(iterations))
    }
}

/// Solves the river after a check: each iteration draws a deal and learns from it.
pub fn solve_river_check_bet<S: Scalar>(config: RiverCfrConfig<S>) -> (r: RiverCfrResult<S>)
    requires
        config.iterations + SAMPLE_START <= u64::MAX,
    ensures
        r.iterations == config.iterations,
        r.pot == config.pot,
        r.bet == config.bet,
        r.combo_count == river_list(config.board@).len(),
        all_different(config.board@) ==> r.combo_count == 1081,
        ({
            let combos = river_list(config.board@);
            let deals = deal_rows(combos, combos.len());
            let step = trained(
                combos,
                config.pot,
                config.bet,
                deals,
                run_count(deals, config.iterations as nat),
            );
            &&& r.expected_value_oop == (if config.iterations == 0 {
                S::zero_spec()
            } else {
                step.value.over_spec(S::from_count_spec(config.iterations))
            })
            &&& r.expected_value_oop == river_value(step.value, config.iterations)
            &&& r.strategies@ == strategies_spec(combos, step.tables, config.top_fraction)
        }),
{
    let combos: Vec<RiverCombo> = river_combos(config.board);
    let deals: Vec<(usize, usize)> = river_deals(&combos);
    let count: usize = combos.len();
    let runs: usize = if deals.len() == 0 {
        0
    } else {
        config.iterations
    };
    let ghost all = combos@;
    let mut solver: RiverCfrTrainer<S> = RiverCfrTrainer {
        combos,
        pot: config.pot,
        bet: config.bet,
        ip_nodes: no_nodes(count),
        oop_nodes: no_nodes(count),
    };
    let mut utility: S = S::zero();
    for iteration in 0..runs
        invariant
            runs > 0 ==> deals@.len() > 0,
            runs + SAMPLE_START <= u64::MAX,
            solver.wf(),
            solver.combos@ == all,
            solver.pot == config.pot,
            solver.bet == config.bet,
            forall|k: int|
                0 <= k < deals@.len() ==> (#[trigger] deals@[k]).0 < all.len() && deals@[k].1
                    < all.len(),
            ({
                let step = trained(all, config.pot, config.bet, deals@, iteration as nat);
                utility == step.value && solver.tables() == step.tables
            }),
    {
        let place: usize = sampled_index(iteration, deals.len());
        let deal: (usize, usize) = deals[place];
        let value: S = solver.cfr(deal.0, deal.1, (S::one(), S::one()));
        utility = utility.plus(value);
    }
    RiverCfrResult {
        iterations: config.iterations,
        expected_value_oop: if config.iterations == 0 {
            S::zero()
        } else {
            utility.over(S::from_count(config.iterations))
        },
        pot: config.pot,
        bet: config.bet,
        combo_count: count,
        strategies: solver.combo_strategies(config.board, config.top_fraction),
    }
}

} // verus!
