//! The best answer to a strategy is worth at least what the average strategy is worth, over numbers whose
//! order agrees with how they are added and multiplied.
use vstd::prelude::*;
use crate::cards::deck_without;
use crate::cfr_math::{best_value, nonacting_value, uniform_share, weights_of, RealCfrConfig};
use crate::node_cfr::{NodeLocalEvaluationMode, NodeStep};
use crate::node_math::{
    acting_major, acting_value_major, average_major, current_major, grid_share, grid_total, plain_total,
    reach_major, NodeLocalUpdateFactors, NodeTablesView,
};
use crate::node_setup::{chooses, NodeSetup};
use crate::range::{combo_fits, weight_fits, ComboWeight};
use crate::real_cfr::codes_added;
use crate::scalar::Scalar;
use crate::state_graph::is_expanded;
use crate::tree::{Player, PublicNodeKind};

verus! {

/// Whether the order of numbers agrees with sums, products and quotients, and shares of a whole add up to
/// it, as they do where nothing is rounded.
pub open spec fn order_agrees<S: Scalar>() -> bool {
    &&& forall|a: S| #[trigger] a.at_least_spec(a)
    &&& forall|a: S, b: S, c: S|
        #[trigger] a.at_least_spec(b) && #[trigger] b.at_least_spec(c) ==> a.at_least_spec(c)
    &&& forall|a: S, b: S, c: S, d: S|
        a.at_least_spec(b) && c.at_least_spec(d) ==> #[trigger] a.plus_spec(c).at_least_spec(
            #[trigger] b.plus_spec(d),
        )
    &&& forall|a: S, b: S, share: S|
        a.at_least_spec(b) && share.at_least_spec(S::zero_spec()) ==> #[trigger] a.times_spec(
            share,
        ).at_least_spec(#[trigger] b.times_spec(share))
    &&& forall|a: S, b: S|
        (#[trigger] a.max_spec(b)).at_least_spec(a) && a.max_spec(b).at_least_spec(b)
    &&& forall|a: S, b: S, c: S|
        #[trigger] a.times_spec(b.plus_spec(c)) == a.times_spec(b).plus_spec(a.times_spec(c))
    &&& forall|a: S| #[trigger] a.times_spec(S::zero_spec()) == S::zero_spec()
    &&& forall|a: S| #[trigger] S::zero_spec().times_spec(a) == S::zero_spec()
    &&& forall|a: S| #[trigger] a.times_spec(S::one_spec()) == a
    &&& forall|a: S, b: S, total: S|
        total.exceeds_spec(S::zero_spec()) ==> #[trigger] a.plus_spec(b).over_spec(total)
            == a.over_spec(total).plus_spec(b.over_spec(total))
    &&& forall|total: S|
        total.exceeds_spec(S::zero_spec()) ==> #[trigger] S::zero_spec().over_spec(total)
            == S::zero_spec() && total.over_spec(total) == S::one_spec()
    &&& forall|a: S, total: S|
        a.at_least_spec(S::zero_spec()) && total.exceeds_spec(S::zero_spec())
            ==> #[trigger] a.over_spec(total).at_least_spec(S::zero_spec())
    &&& S::one_spec().at_least_spec(S::zero_spec())
    &&& S::from_count_spec(0) == S::zero_spec()
    &&& forall|n: usize|
        0 < n ==> (#[trigger] S::from_count_spec(n)).exceeds_spec(S::zero_spec())
            && S::from_count_spec(n) == S::from_count_spec((n - 1) as usize).plus_spec(S::one_spec())
}

/// Whether numbers that only grow from zero are not below zero: counts, powers, and weights of hands.
pub open spec fn growth_agrees<S: Scalar>() -> bool {
    &&& forall|n: u32| (#[trigger] S::from_u32_spec(n)).at_least_spec(S::zero_spec())
    &&& forall|a: S|
        a.at_least_spec(S::zero_spec()) ==> (#[trigger] a.plus_spec(S::one_spec())).exceeds_spec(
            S::zero_spec(),
        )
    &&& forall|a: S, b: S|
        a.at_least_spec(S::zero_spec()) ==> (#[trigger] a.power_spec(b)).at_least_spec(S::zero_spec())
    &&& forall|a: S| #[trigger] weight_fits(a) ==> a.at_least_spec(S::zero_spec())
}

proof fn lemma_cells_over<S: Scalar>(
    rows: Seq<Seq<S>>,
    shares: Seq<Seq<S>>,
    combo: int,
    total: S,
    n: nat,
)
    requires
        order_agrees::<S>(),
        total.exceeds_spec(S::zero_spec()),
        forall|a: int| 0 <= a < n ==> #[trigger] shares[a][combo] == rows[a][combo].over_spec(total),
    ensures
        plain_total(shares, combo, n) == plain_total(rows, combo, n).over_spec(total),
    decreases n,
{
    if n == 0 {
        assert(S::zero_spec().over_spec(total) == S::zero_spec());
    } else {
        lemma_cells_over(rows, shares, combo, total, (n - 1) as nat);
        let front = plain_total(rows, combo, (n - 1) as nat);
        let cell = rows[n - 1][combo];
        assert(shares[n - 1][combo] == cell.over_spec(total));
        assert(front.plus_spec(cell).over_spec(total) == front.over_spec(total).plus_spec(
            cell.over_spec(total),
        ));
    }
}

proof fn lemma_even_shares<S: Scalar>(shares: Seq<Seq<S>>, combo: int, count: usize, n: usize)
    requires
        order_agrees::<S>(),
        n <= count,
        0 < count,
        forall|a: int| 0 <= a < n ==> #[trigger] shares[a][combo] == uniform_share::<S>(count as int),
    ensures
        plain_total(shares, combo, n as nat) == S::from_count_spec(n).over_spec(
            S::from_count_spec(count),
        ),
    decreases n,
{
    let total = S::from_count_spec(count);
    if n == 0 {
        assert(S::zero_spec().over_spec(total) == S::zero_spec());
    } else {
        let m = (n - 1) as usize;
        lemma_even_shares(shares, combo, count, m);
        assert(shares[n - 1][combo] == uniform_share::<S>(count as int));
        assert(S::from_count_spec(n) == S::from_count_spec(m).plus_spec(S::one_spec()));
        assert(S::from_count_spec(m).plus_spec(S::one_spec()).over_spec(total)
            == S::from_count_spec(m).over_spec(total).plus_spec(S::one_spec().over_spec(total)));
    }
}

/// The shares of the actions of a hand are not below zero and add up to one.
proof fn lemma_shares<S: Scalar>(sums: Seq<Seq<S>>, combos: nat, combo: int)
    requires
        order_agrees::<S>(),
        0 < sums.len() <= usize::MAX,
        0 <= combo < combos,
        forall|a: int|
            0 <= a < sums.len() ==> (#[trigger] sums[a])[combo].at_least_spec(S::zero_spec()),
    ensures
        plain_total(average_major(sums, combos), combo, sums.len()) == S::one_spec(),
        forall|a: int|
            0 <= a < sums.len() ==> (#[trigger] average_major(sums, combos)[a])[combo].at_least_spec(
                S::zero_spec(),
            ),
{
    let shares = average_major(sums, combos);
    let total = grid_total(false, sums, combo, sums.len());
    let count = sums.len() as usize;
    assert forall|a: int| 0 <= a < sums.len() implies shares[a][combo] == grid_share(
        false,
        sums,
        a,
        combo,
    ) by {}
    if total.exceeds_spec(S::zero_spec()) {
        lemma_cells_over(sums, shares, combo, total, sums.len());
        assert(S::zero_spec().over_spec(total) == S::zero_spec());
        assert forall|a: int| 0 <= a < sums.len() implies (
        #[trigger] shares[a])[combo].at_least_spec(S::zero_spec()) by {
            assert(sums[a][combo].at_least_spec(S::zero_spec()));
            assert(sums[a][combo].over_spec(total).at_least_spec(S::zero_spec()));
        }
    } else {
        lemma_even_shares(shares, combo, count, count);
        let all = S::from_count_spec(count);
        assert(all.exceeds_spec(S::zero_spec()));
        assert(S::zero_spec().over_spec(all) == S::zero_spec());
        assert(S::one_spec().over_spec(all).at_least_spec(S::zero_spec()));
    }
}

proof fn lemma_best_of<S: Scalar>(rows: Seq<Seq<S>>, combo: int, n: nat, a: int)
    requires
        order_agrees::<S>(),
        0 <= a < n,
    ensures
        best_value(rows, combo, n).at_least_spec(rows[a][combo]),
    decreases n,
{
    let front = best_value(rows, combo, (n - 1) as nat);
    let best = front.max_spec(rows[n - 1][combo]);
    assert(best.at_least_spec(front) && best.at_least_spec(rows[n - 1][combo]));
    if a < n - 1 {
        lemma_best_of(rows, combo, (n - 1) as nat, a);
        assert(best.at_least_spec(front) && front.at_least_spec(rows[a][combo]));
    }
}

/// A mix of numbers is at most a number that none of them exceeds, times the sum of the shares.
proof fn lemma_mix<S: Scalar>(
    rows: Seq<Seq<S>>,
    shares: Seq<Seq<S>>,
    combo: int,
    most: S,
    n: nat,
)
    requires
        order_agrees::<S>(),
        forall|a: int| 0 <= a < n ==> most.at_least_spec((#[trigger] rows[a])[combo]),
        forall|a: int| 0 <= a < n ==> (#[trigger] shares[a])[combo].at_least_spec(S::zero_spec()),
    ensures
        most.times_spec(plain_total(shares, combo, n)).at_least_spec(
            acting_value_major(rows, shares, combo, n),
        ),
    decreases n,
{
    if n == 0 {
        assert(most.times_spec(S::zero_spec()) == S::zero_spec());
        assert(S::zero_spec().at_least_spec(S::zero_spec()));
    } else {
        lemma_mix(rows, shares, combo, most, (n - 1) as nat);
        let front = plain_total(shares, combo, (n - 1) as nat);
        let share = shares[n - 1][combo];
        let value = rows[n - 1][combo];
        assert(most.at_least_spec(rows[n - 1][combo]));
        assert(shares[n - 1][combo].at_least_spec(S::zero_spec()));
        assert(most.times_spec(share).at_least_spec(value.times_spec(share)));
        assert(most.times_spec(front.plus_spec(share)) == most.times_spec(front).plus_spec(
            most.times_spec(share),
        ));
        let below = acting_value_major(rows, shares, combo, (n - 1) as nat);
        assert(most.times_spec(front).plus_spec(most.times_spec(share)).at_least_spec(
            below.plus_spec(value.times_spec(share)),
        ));
    }
}

proof fn lemma_sum_order<S: Scalar>(
    rows: Seq<Seq<S>>,
    lower: Seq<Seq<S>>,
    combo: int,
    n: nat,
)
    requires
        order_agrees::<S>(),
        forall|a: int| 0 <= a < n ==> (#[trigger] rows[a])[combo].at_least_spec(lower[a][combo]),
    ensures
        nonacting_value(rows, combo, n).at_least_spec(nonacting_value(lower, combo, n)),
    decreases n,
{
    if n == 0 {
        assert(S::zero_spec().at_least_spec(S::zero_spec()));
    } else {
        lemma_sum_order(rows, lower, combo, (n - 1) as nat);
        assert(rows[n - 1][combo].at_least_spec(lower[n - 1][combo]));
    }
}

/// Whether the first so many numbers of one list are at least those of another, place by place.
pub open spec fn all_at_least<S: Scalar>(values: Seq<S>, lower: Seq<S>, count: nat) -> bool {
    forall|h: int| 0 <= h < count ==> (#[trigger] values[h]).at_least_spec(lower[h])
}

/// Whether no number of tables that strategies are averaged by is below zero.
pub open spec fn sums_count<S: Scalar>(table: NodeTablesView<S>) -> bool {
    forall|a: int, c: int|
        0 <= a < table.sums.len() && 0 <= c < table.sums[a].len() ==> (
        #[trigger] table.sums[a][c]).at_least_spec(S::zero_spec())
}

proof fn lemma_codes_order<S: Scalar>(
    setup: NodeSetup<S>,
    player: Player,
    out: Seq<S>,
    lower_out: Seq<S>,
    child: Seq<S>,
    lower_child: Seq<S>,
    codes: Seq<u8>,
    weight: S,
    n: nat,
)
    requires
        order_agrees::<S>(),
        weight.at_least_spec(S::zero_spec()),
        all_at_least(out, lower_out, setup.base.combos(player)),
        all_at_least(child, lower_child, setup.base.combos(player)),
        out.len() == setup.base.combos(player),
        lower_out.len() == setup.base.combos(player),
        n <= codes.len(),
        forall|m: int| 0 <= m < codes.len() ==> setup.base.maps_code(#[trigger] codes[m]),
    ensures
        ({
            let maps = setup.base.combo_permutations;
            let upper = codes_added(out, child, maps, player, codes, weight, n);
            let lower = codes_added(lower_out, lower_child, maps, player, codes, weight, n);
            &&& all_at_least(upper, lower, setup.base.combos(player))
            &&& upper.len() == setup.base.combos(player)
            &&& lower.len() == setup.base.combos(player)
        }),
    decreases n,
{
    if n > 0 {
        lemma_codes_order(
            setup,
            player,
            out,
            lower_out,
            child,
            lower_child,
            codes,
            weight,
            (n - 1) as nat,
        );
        let maps = setup.base.combo_permutations;
        assert(setup.base.maps_code(codes[n - 1]));
        let map = maps.map_of(player, codes[n - 1]);
        let front = codes_added(out, child, maps, player, codes, weight, (n - 1) as nat);
        let lower_front = codes_added(
            lower_out,
            lower_child,
            maps,
            player,
            codes,
            weight,
            (n - 1) as nat,
        );
        let upper = codes_added(out, child, maps, player, codes, weight, n);
        let lower = codes_added(lower_out, lower_child, maps, player, codes, weight, n);
        assert forall|h: int| 0 <= h < upper.len() implies (#[trigger] upper[h]).at_least_spec(
            lower[h],
        ) by {
            assert(map[h] < setup.base.combos(player));
            let place = map[h] as int;
            assert(child[place].at_least_spec(lower_child[place]));
            assert(front[h].at_least_spec(lower_front[h]));
            assert(child[place].times_spec(weight).at_least_spec(
                lower_child[place].times_spec(weight),
            ));
            assert(upper[h] == front[h].plus_spec(child[place].times_spec(weight)));
            assert(lower[h] == lower_front[h].plus_spec(lower_child[place].times_spec(weight)));
        }
    }
}

impl<S: Scalar> NodeSetup<S> {
    proof fn lemma_cards_to_come(self, i: int)
        requires
            self.wf(),
            0 <= i < self.states@.len(),
            self.node(i).kind is Chance,
            self.states@[i].children@.len() > 0,
        ensures
            self.states@[i].chance_concrete_events > 0,
    {
        assert(is_expanded(
            true,
            self.base.tree.nodes@,
            self.base.oop(),
            self.base.ip(),
            self.states@,
            i,
        ));
        assert(deck_without(self.states@[i].board@).len() > 0);
    }

    /// The values of a state, with the best answer and with the average strategy.
    spec fn two_values(
        self,
        i: int,
        player: Player,
        opponent: Seq<S>,
        tables: Seq<NodeTablesView<S>>,
        by_prefix: bool,
    ) -> (Seq<S>, Seq<S>) {
        (
            self.node_value(
                i,
                player,
                opponent,
                tables,
                NodeLocalEvaluationMode::BestResponse,
                by_prefix,
            ),
            self.node_value(
                i,
                player,
                opponent,
                tables,
                NodeLocalEvaluationMode::Profile,
                by_prefix,
            ),
        )
    }

    /// From every state on, whatever the opponent reaches it with, the best answer is worth at least
    /// what the average strategy is worth, for every hand: over numbers whose order agrees with sums and
    /// products, and tables whose sums of strategies are not below zero.
    pub proof fn best_response_is_at_least_profile(
        self,
        i: int,
        player: Player,
        opponent: Seq<S>,
        tables: Seq<NodeTablesView<S>>,
        by_prefix: bool,
    )
        requires
            self.wf(),
            order_agrees::<S>(),
            0 <= i < self.states@.len(),
            opponent.len() == self.base.combos(player.other_spec()),
            self.tables_fit(tables),
            forall|k: int| 0 <= k < tables.len() ==> sums_count(#[trigger] tables[k]),
        ensures
            all_at_least(
                self.node_value(
                    i,
                    player,
                    opponent,
                    tables,
                    NodeLocalEvaluationMode::BestResponse,
                    by_prefix,
                ),
                self.node_value(
                    i,
                    player,
                    opponent,
                    tables,
                    NodeLocalEvaluationMode::Profile,
                    by_prefix,
                ),
                self.base.combos(player),
            ),
        decreases self.states@.len() - i, 1int, 0int,
    {
        self.kids_stand_behind(i);
        let kids = self.states@[i].children@;
        assert(forall|a: S| #[trigger] a.at_least_spec(a));
        match self.node(i).kind {
            PublicNodeKind::Decision { player: actor, actions } => {
                if kids.len() == 1 {
                    assert(i < kids[0] < self.states@.len());
                    self.best_response_is_at_least_profile(
                        kids[0] as int,
                        player,
                        opponent,
                        tables,
                        by_prefix,
                    );
                } else {
                    self.lemma_actions_order(i, player, opponent, tables, by_prefix, kids.len());
                    self.lemma_decision_order(i, player, opponent, tables, by_prefix);
                }
            },
            PublicNodeKind::Chance(chance) => {
                if kids.len() > 0 {
                    self.lemma_cards_order(i, player, opponent, tables, by_prefix, kids.len());
                }
            },
            PublicNodeKind::Terminal { reason } => {},
        }
    }

    proof fn lemma_cards_order(
        self,
        i: int,
        player: Player,
        opponent: Seq<S>,
        tables: Seq<NodeTablesView<S>>,
        by_prefix: bool,
        n: nat,
    )
        requires
            self.wf(),
            order_agrees::<S>(),
            0 <= i < self.states@.len(),
            self.node(i).kind is Chance,
            n <= self.states@[i].children@.len(),
            opponent.len() == self.base.combos(player.other_spec()),
            self.tables_fit(tables),
            forall|k: int| 0 <= k < tables.len() ==> sums_count(#[trigger] tables[k]),
        ensures
            ({
                let upper = self.node_value_cards(
                    i,
                    player,
                    opponent,
                    tables,
                    NodeLocalEvaluationMode::BestResponse,
                    by_prefix,
                    n,
                );
                let lower = self.node_value_cards(
                    i,
                    player,
                    opponent,
                    tables,
                    NodeLocalEvaluationMode::Profile,
                    by_prefix,
                    n,
                );
                &&& all_at_least(upper, lower, self.base.combos(player))
                &&& upper.len() == self.base.combos(player)
                &&& lower.len() == self.base.combos(player)
            }),
        decreases self.states@.len() - i, 0int, n,
    {
        if n == 0 {
            assert(S::zero_spec().at_least_spec(S::zero_spec()));
        } else {
            self.kids_stand_behind(i);
            let k = n - 1;
            let child = self.states@[i].children@[k] as int;
            self.lemma_cards_order(i, player, opponent, tables, by_prefix, k as nat);
            assert(i < self.states@[i].children@[k] < self.states@.len());
            self.best_response_is_at_least_profile(child, player, opponent, tables, by_prefix);
            self.codes_are_mapped(i, k);
            let events = self.states@[i].chance_concrete_events;
            self.lemma_cards_to_come(i);
            assert(S::from_count_spec(events).exceeds_spec(S::zero_spec()));
            assert(S::one_spec().over_spec(S::from_count_spec(events)).at_least_spec(
                S::zero_spec(),
            ));
            let codes = self.states@[i].chance_permutation_codes@[k]@;
            let (best, plain) = self.two_values(child, player, opponent, tables, by_prefix);
            let front = |mode: NodeLocalEvaluationMode|
                self.node_value_cards(i, player, opponent, tables, mode, by_prefix, k as nat);
            lemma_codes_order(
                self,
                player,
                front(NodeLocalEvaluationMode::BestResponse),
                front(NodeLocalEvaluationMode::Profile),
                best,
                plain,
                codes,
                self.card_weight(i),
                codes.len(),
            );
        }
    }

    proof fn lemma_actions_order(
        self,
        i: int,
        player: Player,
        opponent: Seq<S>,
        tables: Seq<NodeTablesView<S>>,
        by_prefix: bool,
        n: nat,
    )
        requires
            self.wf(),
            order_agrees::<S>(),
            0 <= i < self.states@.len(),
            self.node(i).kind is Decision,
            self.states@[i].children@.len() > 1,
            n <= self.states@[i].children@.len(),
            opponent.len() == self.base.combos(player.other_spec()),
            self.tables_fit(tables),
            forall|k: int| 0 <= k < tables.len() ==> sums_count(#[trigger] tables[k]),
        ensures
            ({
                let actor = self.actor(i);
                let plans = average_major(tables[i].sums, self.base.combos(actor));
                let rows = |mode: NodeLocalEvaluationMode|
                    self.node_value_actions(
                        i,
                        player,
                        actor,
                        plans,
                        opponent,
                        tables,
                        mode,
                        by_prefix,
                        n,
                    );
                let upper = rows(NodeLocalEvaluationMode::BestResponse);
                let lower = rows(NodeLocalEvaluationMode::Profile);
                &&& upper.len() == n
                &&& lower.len() == n
                &&& forall|a: int|
                    0 <= a < n ==> all_at_least(
                        #[trigger] upper[a],
                        lower[a],
                        self.base.combos(player),
                    )
            }),
        decreases self.states@.len() - i, 0int, n,
    {
        if n > 0 {
            self.kids_stand_behind(i);
            let k = n - 1;
            let child = self.states@[i].children@[k] as int;
            self.lemma_actions_order(i, player, opponent, tables, by_prefix, k as nat);
            assert(i < self.states@[i].children@[k] < self.states@.len());
            let actor = self.actor(i);
            let plans = average_major(tables[i].sums, self.base.combos(actor));
            let next = if actor == player {
                opponent
            } else {
                reach_major(opponent, plans[k])
            };
            self.best_response_is_at_least_profile(child, player, next, tables, by_prefix);
        }
    }

    proof fn lemma_decision_order(
        self,
        i: int,
        player: Player,
        opponent: Seq<S>,
        tables: Seq<NodeTablesView<S>>,
        by_prefix: bool,
    )
        requires
            self.wf(),
            order_agrees::<S>(),
            0 <= i < self.states@.len(),
            self.node(i).kind is Decision,
            self.states@[i].children@.len() > 1,
            self.tables_fit(tables),
            forall|k: int| 0 <= k < tables.len() ==> sums_count(#[trigger] tables[k]),
            ({
                let actor = self.actor(i);
                let plans = average_major(tables[i].sums, self.base.combos(actor));
                let n = self.states@[i].children@.len();
                let rows = |mode: NodeLocalEvaluationMode|
                    self.node_value_actions(
                        i,
                        player,
                        actor,
                        plans,
                        opponent,
                        tables,
                        mode,
                        by_prefix,
                        n,
                    );
                let upper = rows(NodeLocalEvaluationMode::BestResponse);
                let lower = rows(NodeLocalEvaluationMode::Profile);
                &&& upper.len() == n
                &&& lower.len() == n
                &&& forall|a: int|
                    0 <= a < n ==> all_at_least(
                        #[trigger] upper[a],
                        lower[a],
                        self.base.combos(player),
                    )
            }),
        ensures
            all_at_least(
                self.two_values(i, player, opponent, tables, by_prefix).0,
                self.two_values(i, player, opponent, tables, by_prefix).1,
                self.base.combos(player),
            ),
    {
        self.kids_stand_behind(i);
        let n = self.states@[i].children@.len();
        let actor = self.actor(i);
        let combos = self.base.combos(player);
        let sums = tables[i].sums;
        let plans = average_major(sums, self.base.combos(actor));
        let rows = |mode: NodeLocalEvaluationMode|
            self.node_value_actions(
                i,
                player,
                actor,
                plans,
                opponent,
                tables,
                mode,
                by_prefix,
                n,
            );
        let upper = rows(NodeLocalEvaluationMode::BestResponse);
        let lower = rows(NodeLocalEvaluationMode::Profile);
        let (best, plain) = self.two_values(i, player, opponent, tables, by_prefix);
        assert(chooses(self.base, self.states@[i]));
        assert(tables[i].sized(n, self.base.combos(actor)));
        assert(sums_count(tables[i]));
        assert(self.states@[i].children.len() == n);
        assert forall|h: int| 0 <= h < combos implies best[h].at_least_spec(plain[h]) by {
            assert forall|a: int| 0 <= a < n implies (#[trigger] upper[a])[h].at_least_spec(
                lower[a][h],
            ) by {
                assert(all_at_least(upper[a], lower[a], combos));
            }
            if actor != player {
                lemma_sum_order(upper, lower, h, n);
            } else {
                let most = best_value(upper, h, n);
                assert forall|a: int| 0 <= a < n implies most.at_least_spec(
                    (#[trigger] lower[a])[h],
                ) by {
                    lemma_best_of(upper, h, n, a);
                    assert(upper[a][h].at_least_spec(lower[a][h]));
                    assert(most.at_least_spec(upper[a][h]));
                }
                assert forall|a: int| 0 <= a < sums.len() implies (
                #[trigger] sums[a])[h].at_least_spec(S::zero_spec()) by {
                    assert(sums[a].len() == combos);
                    assert(sums[a][h].at_least_spec(S::zero_spec()));
                }
                lemma_shares(sums, combos, h);
                lemma_mix(lower, plans, h, most, n);
                assert(most.times_spec(S::one_spec()) == most);
                assert(best[h] == most);
                assert(plain[h] == acting_value_major(lower, plans, h, n));
            }
        }
    }

    /// Whether best answers can be held against strategies: the order of numbers agrees with how they are
    /// added and multiplied, and no sum of strategies is below zero.
    #[verifier::opaque]
    pub open spec fn compares_strategies(self, tables: Seq<NodeTablesView<S>>) -> bool {
        &&& order_agrees::<S>()
        &&& forall|k: int| 0 <= k < tables.len() ==> sums_count(#[trigger] tables[k])
    }

    /// Where best answers can be held against strategies, they are worth at least as much.
    pub proof fn lemma_best_at_least(
        self,
        i: int,
        player: Player,
        opponent: Seq<S>,
        tables: Seq<NodeTablesView<S>>,
        by_prefix: bool,
    )
        requires
            self.wf(),
            0 <= i < self.states@.len(),
            opponent.len() == self.base.combos(player.other_spec()),
            self.tables_fit(tables),
        ensures
            self.compares_strategies(tables) ==> all_at_least(
                self.node_value(
                    i,
                    player,
                    opponent,
                    tables,
                    NodeLocalEvaluationMode::BestResponse,
                    by_prefix,
                ),
                self.node_value(
                    i,
                    player,
                    opponent,
                    tables,
                    NodeLocalEvaluationMode::Profile,
                    by_prefix,
                ),
                self.base.combos(player),
            ),
    {
        reveal(NodeSetup::compares_strategies);
        if self.compares_strategies(tables) {
            self.best_response_is_at_least_profile(i, player, opponent, tables, by_prefix);
        }
    }

    /// Whether tables fit and none of their sums of strategies is below zero.
    pub open spec fn tables_count(self, tables: Seq<NodeTablesView<S>>) -> bool {
        &&& self.tables_fit(tables)
        &&& forall|k: int| 0 <= k < tables.len() ==> sums_count(#[trigger] tables[k])
    }

    /// A pass that updates a player from a state on leaves no sum of strategies below zero, if there was
    /// none and the player's hands reach the state with nothing below zero.
    proof fn lemma_visit_counts(
        self,
        i: int,
        player: Player,
        own: Seq<S>,
        opponent: Seq<S>,
        tables: Seq<NodeTablesView<S>>,
        step: NodeStep<S>,
    )
        requires
            self.wf(),
            order_agrees::<S>(),
            step_counts(step),
            0 <= i < self.states@.len(),
            own.len() == self.base.combos(player),
            reach_counts(own),
            self.tables_count(tables),
        ensures
            self.tables_count(self.node_visit(i, player, own, opponent, tables, step).tables),
        decreases self.states@.len() - i, 1int, 0int,
    {
        self.kids_stand_behind(i);
        let kids = self.states@[i].children@;
        match self.node(i).kind {
            PublicNodeKind::Decision { player: actor, actions } => {
                if kids.len() == 1 {
                    assert(i < kids[0] < self.states@.len());
                    self.lemma_visit_counts(kids[0] as int, player, own, opponent, tables, step);
                } else {
                    let strategies = current_major(tables[i].regrets, self.base.combos(actor));
                    assert(chooses(self.base, self.states@[i]));
                    assert(tables[i].sized(kids.len(), self.base.combos(actor)));
                    assert(self.states@[i].children.len() == kids.len());
                    lemma_current_counts(tables[i].regrets, self.base.combos(actor));
                    self.lemma_visit_actions_counts(
                        i,
                        player,
                        actor,
                        strategies,
                        own,
                        opponent,
                        tables,
                        step,
                        kids.len(),
                    );
                    let rows = self.node_visit_actions(
                        i,
                        player,
                        actor,
                        strategies,
                        own,
                        opponent,
                        tables,
                        step,
                        kids.len(),
                    );
                    if actor == player {
                        let values = acting_major(rows.rows, strategies, self.base.combos(player));
                        let before = rows.tables[i];
                        let after = before.updated(
                            rows.rows,
                            values,
                            strategies,
                            own,
                            step.factors(),
                        );
                        assert(before.sized(kids.len(), self.base.combos(actor)));
                        assert(sums_count(before));
                        assert forall|a: int, c: int|
                            0 <= a < after.sums.len() && 0 <= c < after.sums[a].len() implies (
                        #[trigger] after.sums[a][c]).at_least_spec(S::zero_spec()) by {
                            assert(before.sums[a].len() == self.base.combos(actor));
                            assert(before.sums[a][c].at_least_spec(S::zero_spec()));
                            assert(strategies[a][c].at_least_spec(S::zero_spec()));
                            assert(own[c].at_least_spec(S::zero_spec()));
                            lemma_sum_counts(
                                step.factors(),
                                before.sums[a][c],
                                strategies[a][c],
                                own[c],
                            );
                        }
                        assert(sums_count(after));
                        assert(after.sized(kids.len(), self.base.combos(actor)));
                        let whole = rows.tables.update(i, after);
                        assert forall|k: int|
                            0 <= k < whole.len() && #[trigger] chooses(
                                self.base,
                                self.states@[k],
                            ) implies whole[k].sized(
                            self.states@[k].children@.len(),
                            self.base.combos(self.actor(k)),
                        ) by {}
                        assert forall|k: int| 0 <= k < whole.len() implies sums_count(
                            #[trigger] whole[k],
                        ) by {
                            if k != i {
                                assert(whole[k] == rows.tables[k]);
                            }
                        }
                    }
                }
            },
            PublicNodeKind::Chance(chance) => {
                if kids.len() > 0 {
                    self.lemma_visit_cards_counts(i, player, own, opponent, tables, step, kids.len());
                }
            },
            PublicNodeKind::Terminal { reason } => {},
        }
    }

    proof fn lemma_visit_cards_counts(
        self,
        i: int,
        player: Player,
        own: Seq<S>,
        opponent: Seq<S>,
        tables: Seq<NodeTablesView<S>>,
        step: NodeStep<S>,
        n: nat,
    )
        requires
            self.wf(),
            order_agrees::<S>(),
            step_counts(step),
            0 <= i < self.states@.len(),
            n <= self.states@[i].children@.len(),
            own.len() == self.base.combos(player),
            reach_counts(own),
            self.tables_count(tables),
        ensures
            self.tables_count(
                self.node_visit_cards(i, player, own, opponent, tables, step, n).tables,
            ),
        decreases self.states@.len() - i, 0int, n,
    {
        if n > 0 {
            self.kids_stand_behind(i);
            let k = n - 1;
            let child = self.states@[i].children@[k] as int;
            assert(i < self.states@[i].children@[k] < self.states@.len());
            self.lemma_visit_cards_counts(i, player, own, opponent, tables, step, k as nat);
            let front = self.node_visit_cards(i, player, own, opponent, tables, step, k as nat);
            self.lemma_visit_counts(child, player, own, opponent, front.tables, step);
        }
    }

    proof fn lemma_visit_actions_counts(
        self,
        i: int,
        player: Player,
        actor: Player,
        strategies: Seq<Seq<S>>,
        own: Seq<S>,
        opponent: Seq<S>,
        tables: Seq<NodeTablesView<S>>,
        step: NodeStep<S>,
        n: nat,
    )
        requires
            self.wf(),
            order_agrees::<S>(),
            step_counts(step),
            0 <= i < self.states@.len(),
            n <= self.states@[i].children@.len(),
            own.len() == self.base.combos(player),
            reach_counts(own),
            self.tables_count(tables),
            actor == player ==> n <= strategies.len() && forall|a: int, c: int|
                0 <= a < strategies.len() && 0 <= c < self.base.combos(player) ==> (
                #[trigger] strategies[a][c]).at_least_spec(S::zero_spec()),
        ensures
            self.tables_count(
                self.node_visit_actions(
                    i,
                    player,
                    actor,
                    strategies,
                    own,
                    opponent,
                    tables,
                    step,
                    n,
                ).tables,
            ),
        decreases self.states@.len() - i, 0int, n,
    {
        if n > 0 {
            self.kids_stand_behind(i);
            let k = n - 1;
            let child = self.states@[i].children@[k] as int;
            assert(i < self.states@[i].children@[k] < self.states@.len());
            self.lemma_visit_actions_counts(
                i,
                player,
                actor,
                strategies,
                own,
                opponent,
                tables,
                step,
                k as nat,
            );
            let front = self.node_visit_actions(
                i,
                player,
                actor,
                strategies,
                own,
                opponent,
                tables,
                step,
                k as nat,
            );
            if actor == player {
                let next = step.own_reach(own, strategies[k]);
                assert forall|c: int| 0 <= c < next.len() implies (#[trigger] next[c]).at_least_spec(
                    S::zero_spec(),
                ) by {
                    assert(own[c].at_least_spec(S::zero_spec()));
                    assert(strategies[k][c].at_least_spec(S::zero_spec()));
                    lemma_product_counts(own[c], strategies[k][c]);
                }
                self.lemma_visit_counts(child, player, next, opponent, front.tables, step);
            } else {
                self.lemma_visit_counts(
                    child,
                    player,
                    own,
                    reach_major(opponent, strategies[k]),
                    front.tables,
                    step,
                );
            }
        }
    }

    /// However many iterations a solver runs, no sum of strategies comes to be below zero if none was.
    pub proof fn passes_keep_sums(
        self,
        tables: Seq<NodeTablesView<S>>,
        completed: int,
        config: RealCfrConfig<S>,
        by_prefix: bool,
        n: nat,
    )
        requires
            self.wf(),
            order_agrees::<S>(),
            growth_agrees::<S>(),
            self.tables_count(tables),
        ensures
            self.tables_count(self.passes(tables, completed, config, by_prefix, n).tables),
        decreases n,
    {
        if n > 0 {
            self.passes_keep_sums(tables, completed, config, by_prefix, (n - 1) as nat);
            let front = self.passes(tables, completed, config, by_prefix, (n - 1) as nat);
            let step = Self::pass_step((completed + n) as u32, config, by_prefix);
            lemma_step_counts(step, (completed + n) as u32);
            let (oop, ip) = (weights_of(self.base.oop()), weights_of(self.base.ip()));
            lemma_weights_count(self.base.oop());
            lemma_weights_count(self.base.ip());
            assert(0 < self.states@.len());
            self.lemma_visit_counts(0, Player::Oop, oop, ip, front.tables, step);
            let first = self.node_visit(0, Player::Oop, oop, ip, front.tables, step);
            self.lemma_visit_counts(0, Player::Ip, ip, oop, first.tables, step);
        }
    }

    /// After any number of iterations from tables of zeros, at every state and against every reach, the
    /// best answer is worth at least what the average strategy is worth, for every hand.
    pub proof fn solved_best_response_is_at_least_profile(
        self,
        tables: Seq<NodeTablesView<S>>,
        config: RealCfrConfig<S>,
        n: nat,
        i: int,
        player: Player,
        opponent: Seq<S>,
        by_prefix: bool,
    )
        requires
            self.wf(),
            order_agrees::<S>(),
            growth_agrees::<S>(),
            self.tables_fit(tables),
            forall|k: int, a: int, c: int|
                0 <= k < tables.len() && 0 <= a < tables[k].sums.len() && 0 <= c
                    < tables[k].sums[a].len() ==> #[trigger] tables[k].sums[a][c] == S::zero_spec(),
            0 <= i < self.states@.len(),
            opponent.len() == self.base.combos(player.other_spec()),
        ensures
            ({
                let learned = self.passes(tables, 0, config, by_prefix, n).tables;
                all_at_least(
                    self.node_value(
                        i,
                        player,
                        opponent,
                        learned,
                        NodeLocalEvaluationMode::BestResponse,
                        by_prefix,
                    ),
                    self.node_value(
                        i,
                        player,
                        opponent,
                        learned,
                        NodeLocalEvaluationMode::Profile,
                        by_prefix,
                    ),
                    self.base.combos(player),
                )
            }),
    {
        assert(S::zero_spec().at_least_spec(S::zero_spec()));
        assert forall|k: int| 0 <= k < tables.len() implies sums_count(#[trigger] tables[k]) by {
            assert forall|a: int, c: int|
                0 <= a < tables[k].sums.len() && 0 <= c < tables[k].sums[a].len() implies (
            #[trigger] tables[k].sums[a][c]).at_least_spec(S::zero_spec()) by {
                assert(tables[k].sums[a][c] == S::zero_spec());
            }
        }
        self.passes_keep_sums(tables, 0, config, by_prefix, n);
        self.best_response_is_at_least_profile(
            i,
            player,
            opponent,
            self.passes(tables, 0, config, by_prefix, n).tables,
            by_prefix,
        );
    }
}

/// Whether no hand reaches a state with less than nothing.
pub open spec fn reach_counts<S: Scalar>(reach: Seq<S>) -> bool {
    forall|h: int| 0 <= h < reach.len() ==> (#[trigger] reach[h]).at_least_spec(S::zero_spec())
}

/// Whether an iteration neither weighs nor discounts by less than nothing.
spec fn step_counts<S: Scalar>(step: NodeStep<S>) -> bool {
    &&& step.factors().factors.iteration_weight.at_least_spec(S::zero_spec())
    &&& step.factors().factors.strategy_discount.at_least_spec(S::zero_spec())
}

proof fn lemma_product_counts<S: Scalar>(a: S, b: S)
    requires
        order_agrees::<S>(),
        a.at_least_spec(S::zero_spec()),
        b.at_least_spec(S::zero_spec()),
    ensures
        a.times_spec(b).at_least_spec(S::zero_spec()),
{
    assert(a.times_spec(b).at_least_spec(S::zero_spec().times_spec(b)));
}

proof fn lemma_sum_counts<S: Scalar>(factors: NodeLocalUpdateFactors<S>, sum: S, strategy: S, reach: S)
    requires
        order_agrees::<S>(),
        factors.factors.iteration_weight.at_least_spec(S::zero_spec()),
        factors.factors.strategy_discount.at_least_spec(S::zero_spec()),
        sum.at_least_spec(S::zero_spec()),
        strategy.at_least_spec(S::zero_spec()),
        reach.at_least_spec(S::zero_spec()),
    ensures
        factors.sum(sum, strategy, reach).at_least_spec(S::zero_spec()),
{
    let weight = factors.factors.iteration_weight;
    let discount = factors.factors.strategy_discount;
    lemma_product_counts(weight, reach);
    lemma_product_counts(weight.times_spec(reach), strategy);
    lemma_product_counts(weight, strategy);
    lemma_product_counts(sum, discount);
    lemma_product_counts(reach, strategy);
    lemma_plus_counts(sum, weight.times_spec(reach).times_spec(strategy));
    lemma_plus_counts(sum, weight.times_spec(strategy));
    lemma_plus_counts(sum.times_spec(discount), reach.times_spec(strategy));
    lemma_plus_counts(sum.times_spec(discount), strategy);
}

proof fn lemma_plus_counts<S: Scalar>(a: S, b: S)
    requires
        order_agrees::<S>(),
        a.at_least_spec(S::zero_spec()),
        b.at_least_spec(S::zero_spec()),
    ensures
        a.plus_spec(b).at_least_spec(S::zero_spec()),
{
    let zero = S::zero_spec();
    assert(zero.times_spec(zero.plus_spec(zero)) == zero.times_spec(zero).plus_spec(
        zero.times_spec(zero),
    ));
    assert(zero.times_spec(zero.plus_spec(zero)) == zero);
    assert(a.plus_spec(b).at_least_spec(zero.plus_spec(zero)));
}

proof fn lemma_step_counts<S: Scalar>(step: NodeStep<S>, number: u32)
    requires
        order_agrees::<S>(),
        growth_agrees::<S>(),
        step.weight == S::from_u32_spec(number),
    ensures
        step_counts(step),
{
    let weight = step.weight;
    assert(weight.at_least_spec(S::zero_spec()));
    let more = weight.plus_spec(S::one_spec());
    assert(more.exceeds_spec(S::zero_spec()));
    assert(weight.over_spec(more).at_least_spec(S::zero_spec()));
}

proof fn lemma_weights_count<S: Scalar>(combos: Seq<ComboWeight<S>>)
    requires
        growth_agrees::<S>(),
        forall|i: int| 0 <= i < combos.len() ==> combo_fits(#[trigger] combos[i]),
    ensures
        reach_counts(weights_of(combos)),
{
    let reach = weights_of(combos);
    assert forall|h: int| 0 <= h < reach.len() implies (#[trigger] reach[h]).at_least_spec(
        S::zero_spec(),
    ) by {
        assert(combo_fits(combos[h]));
        assert(weight_fits(reach[h]));
    }
}

proof fn lemma_current_counts<S: Scalar>(regrets: Seq<Seq<S>>, combos: nat)
    requires
        order_agrees::<S>(),
        0 < regrets.len() <= usize::MAX,
    ensures
        forall|a: int, c: int|
            0 <= a < regrets.len() && 0 <= c < combos ==> (#[trigger] current_major(
                regrets,
                combos,
            )[a][c]).at_least_spec(S::zero_spec()),
{
    let shares = current_major(regrets, combos);
    assert forall|a: int, c: int| 0 <= a < regrets.len() && 0 <= c < combos implies (
    #[trigger] shares[a][c]).at_least_spec(S::zero_spec()) by {
        assert(shares[a][c] == grid_share(true, regrets, a, c));
        let total = grid_total(true, regrets, c, regrets.len());
        let count = S::from_count_spec(regrets.len() as usize);
        if total.exceeds_spec(S::zero_spec()) {
            let cell = regrets[a][c].max_spec(S::zero_spec());
            assert(cell.at_least_spec(S::zero_spec()));
            assert(cell.over_spec(total).at_least_spec(S::zero_spec()));
        } else {
            assert(count.exceeds_spec(S::zero_spec()));
            assert(S::one_spec().over_spec(count).at_least_spec(S::zero_spec()));
        }
    }
}

} // verus!
