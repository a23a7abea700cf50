//! What decisions on the way are worth and teach: the player who acts values actions by how often each is taken and
//! learns from what they are worth to that player, the other player values what comes of them and learns nothing.
use vstd::prelude::*;
use crate::cards::Card;
use crate::cfr_math::{reach_after, zeros_spec, RealCfrAverageStrategy};
use crate::matching_laws::total_of;
use crate::measure::{share_in_steps, MeasuredScalar};
use crate::mixture_laws::{
    acting_values_are_mixed, can_be_mixed, mixed_steps, node_acting_values_are_mixed,
    nonacting_values_add_up, row_steps, worth_steps,
};
use crate::node_cfr::NodeStep;
use crate::node_math::{acting_major, current_major, reach_major, NodeTablesView};
use crate::node_setup::NodeSetup;
use crate::real_cfr::{ActionRows, CfrStep, TablesView};
use crate::real_setup::RealSetup;
use crate::tree::Player;
use crate::update_laws::{
    comparable, cuts_off, factors_are_shares, node_updates_favour_better_actions,
    updates_favour_better_actions,
};

verus! {

/// What actions are worth to the hands of a player.
pub open spec fn rows_for<S>(rows: ActionRows<S>, player: Player) -> Seq<Seq<S>> {
    match player {
        Player::Oop => rows.oop,
        Player::Ip => rows.ip,
    }
}

impl<S: MeasuredScalar> RealSetup<S> {
    /// At a decision on a walk: a hand of the player who acts is worth its actions by how often each is taken, a hand of
    /// the other all that comes of them; of two actions with one regret, the one that is worth more to a hand of the
    /// player who acts ends with at least as much.
    pub proof fn decisions_teach_the_actor(
        self,
        node_id: int,
        board_slot: int,
        player: Player,
        actions: nat,
        strategies: Seq<S>,
        rows: ActionRows<S>,
        oop_reach: Seq<S>,
        ip_reach: Seq<S>,
        step: CfrStep<S>,
        bound: int,
        combo: int,
        other: int,
        worse: int,
        better: int,
    )
        requires
            actions == rows.oop.len() == rows.ip.len(),
            0 <= combo < self.combos(player),
            0 <= other < self.combos(player.other_spec()),
            0 <= worse < actions,
            0 <= better < actions,
            can_be_mixed(
                row_steps(strategies, actions as int, combo),
                worth_steps(rows_for(rows, player), combo),
                S::unit(),
                bound,
                actions,
            ),
            forall|a: int|
                0 <= a < actions ==> -bound <= (#[trigger] rows_for(
                    rows,
                    player.other_spec(),
                )[a])[other].steps() <= bound,
            bound >= 0,
            bound * (actions + 1) <= S::limit() / 8,
            step.rule.has_shares(),
            0 <= self.row_start(node_id, board_slot),
            self.row_start(node_id, board_slot) + self.combos(player) * actions
                <= rows.tables.regrets.len(),
            ({
                let start = self.row_start(node_id, board_slot);
                let old = rows.tables.regrets[start + combo * actions + worse];
                &&& old == rows.tables.regrets[start + combo * actions + better]
                &&& cuts_off(step.rule.variant_of()) ==> old.steps() >= 0
                &&& comparable::<S>(old.steps())
            }),
        ensures
            ({
                let out = self.decided(
                    node_id,
                    board_slot,
                    player,
                    actions,
                    strategies,
                    rows,
                    oop_reach,
                    ip_reach,
                    step,
                );
                let own = rows_for(rows, player);
                let start = self.row_start(node_id, board_slot);
                &&& out.values.side(player)[combo].steps() == mixed_steps(
                    row_steps(strategies, actions as int, combo),
                    worth_steps(own, combo),
                    S::unit(),
                    actions,
                )
                &&& out.values.side(player.other_spec())[other].steps() == total_of(
                    worth_steps(rows_for(rows, player.other_spec()), other),
                    actions,
                )
                &&& own[worse][combo].steps() <= own[better][combo].steps()
                    ==> out.tables.regrets[start + combo * actions + worse].steps()
                    <= out.tables.regrets[start + combo * actions + better].steps()
                &&& forall|slot: int|
                    0 <= slot < start || start + self.combos(player) * actions <= slot
                        < rows.tables.regrets.len() ==> #[trigger] out.tables.regrets[slot]
                        == rows.tables.regrets[slot]
            }),
    {
        S::measured_units();
        let own = rows_for(rows, player);
        let others = rows_for(rows, player.other_spec());
        let start = self.row_start(node_id, board_slot);
        let out = self.decided(
            node_id,
            board_slot,
            player,
            actions,
            strategies,
            rows,
            oop_reach,
            ip_reach,
            step,
        );
        let values = out.values.side(player);
        acting_values_are_mixed(own, strategies, actions as int, combo, bound, actions);
        nonacting_values_add_up(others, other, bound, actions);
        lemma_mixed_bound(
            row_steps(strategies, actions as int, combo),
            worth_steps(own, combo),
            S::unit(),
            bound,
            actions,
        );
        let n = actions as int;
        assert(bound * n <= bound * (n + 1) && bound <= bound * (n + 1) && -bound * n == -(bound * n))
            by (nonlinear_arith)
            requires
                bound >= 0,
                n >= 0,
        ;
        assert(worth_steps(own, combo)[worse] == own[worse][combo].steps());
        assert(worth_steps(own, combo)[better] == own[better][combo].steps());
        let reach = match player {
            Player::Oop => oop_reach,
            Player::Ip => ip_reach,
        };
        if own[worse][combo].steps() <= own[better][combo].steps() {
            updates_favour_better_actions(
                rows.tables,
                start,
                self.combos(player) as int,
                n,
                strategies,
                values,
                own,
                reach,
                step.rule,
                combo,
                worse,
                better,
            );
        } else {
            updates_favour_better_actions(
                rows.tables,
                start,
                self.combos(player) as int,
                n,
                strategies,
                values,
                own,
                reach,
                step.rule,
                combo,
                better,
                worse,
            );
        }
    }

    /// An action that no hand of the player who acts ever takes is walked without that player, the other comes along as
    /// before; an action that all hands surely take is walked by both as before.
    pub proof fn actions_are_walked_as_often_as_taken(
        self,
        node_id: int,
        player: Player,
        strategies: Seq<S>,
        board: Seq<Card>,
        oop_reach: Seq<S>,
        ip_reach: Seq<S>,
        tables: TablesView<S>,
        step: CfrStep<S>,
        n: nat,
    )
        requires
            0 < n,
            node_id < self.tree.nodes@[node_id].children@[n - 1] < self.tree.nodes@.len(),
            forall|i: int|
                0 <= i < oop_reach.len() ==> 0 <= (#[trigger] oop_reach[i]).steps() <= S::limit(),
            forall|i: int| 0 <= i < ip_reach.len() ==> 0 <= (#[trigger] ip_reach[i]).steps() <= S::limit(),
        ensures
            ({
                let front = self.visit_actions(
                    node_id,
                    player,
                    strategies,
                    board,
                    oop_reach,
                    ip_reach,
                    tables,
                    step,
                    (n - 1) as nat,
                );
                let rows = self.visit_actions(
                    node_id,
                    player,
                    strategies,
                    board,
                    oop_reach,
                    ip_reach,
                    tables,
                    step,
                    n,
                );
                let child = self.tree.nodes@[node_id].children@[n - 1] as int;
                let count = self.tree.nodes@[node_id].children@.len();
                let reach = match player {
                    Player::Oop => oop_reach,
                    Player::Ip => ip_reach,
                };
                let never = forall|c: int|
                    0 <= c < reach.len() ==> (#[trigger] strategies[c * count + n - 1]).steps() == 0;
                let surely = forall|c: int|
                    0 <= c < reach.len() ==> (#[trigger] strategies[c * count + n - 1]).steps()
                        == S::unit();
                let none = zeros_spec::<S>(reach.len());
                let without = match player {
                    Player::Oop => self.visit(child, board, none, ip_reach, front.tables, step),
                    Player::Ip => self.visit(child, board, oop_reach, none, front.tables, step),
                };
                let with = self.visit(child, board, oop_reach, ip_reach, front.tables, step);
                &&& never ==> rows.oop.last() == without.values.oop && rows.ip.last() == without.values.ip
                    && rows.tables == without.tables
                &&& surely ==> rows.oop.last() == with.values.oop && rows.ip.last() == with.values.ip
                    && rows.tables == with.tables
            }),
    {
        S::measured_units();
        let count = self.tree.nodes@[node_id].children@.len() as int;
        let reach = match player {
            Player::Oop => oop_reach,
            Player::Ip => ip_reach,
        };
        let after = reach_after(reach, strategies, count, n - 1);
        if forall|c: int| 0 <= c < reach.len() ==> (#[trigger] strategies[c * count + n - 1]).steps() == 0 {
            assert forall|c: int| 0 <= c < reach.len() implies #[trigger] after[c] == S::zero_spec() by {
                let share = strategies[c * count + n - 1];
                assert(strategies[c * count + (n - 1)] == share);
                assert(share.steps() == 0);
                share_in_steps(share, reach[c]);
                S::measured_order(after[c], S::zero_spec());
            }
            assert(after =~= zeros_spec::<S>(reach.len()));
        }
        if forall|c: int|
            0 <= c < reach.len() ==> (#[trigger] strategies[c * count + n - 1]).steps() == S::unit() {
            assert forall|c: int| 0 <= c < reach.len() implies #[trigger] after[c] == reach[c] by {
                let share = strategies[c * count + n - 1];
                assert(strategies[c * count + (n - 1)] == share);
                assert(share.steps() == S::unit());
                share_in_steps(share, reach[c]);
                S::measured_order(after[c], reach[c]);
            }
            assert(after =~= reach);
        }
    }
}

proof fn lemma_mixed_bound(shares: Seq<int>, values: Seq<int>, unit: int, bound: int, n: nat)
    requires
        can_be_mixed(shares, values, unit, bound, n),
        unit > 0,
        bound >= 0,
    ensures
        -bound * n <= mixed_steps(shares, values, unit, n) <= bound * n,
    decreases n,
{
    if n > 0 {
        lemma_mixed_bound(shares, values, unit, bound, (n - 1) as nat);
        let (s, v) = (shares[n - 1], values[n - 1]);
        let (q, rest) = ((s * v) / unit, (s * v) % unit);
        vstd::arithmetic::div_mod::lemma_fundamental_div_mod(s * v, unit);
        assert(-bound <= q <= bound) by (nonlinear_arith)
            requires
                s * v == unit * q + rest,
                0 <= rest < unit,
                0 <= s <= unit,
                -bound <= v <= bound,
                bound >= 0,
        ;
        assert(bound * n == bound * (n - 1) + bound) by (nonlinear_arith);
        assert(-bound * n == -bound * (n - 1) - bound) by (nonlinear_arith);
    } else {
        assert(bound * 0 == 0 && -bound * 0 == 0);
    }
}

impl<S: MeasuredScalar> NodeSetup<S> {
    /// At a decision with a table of its own: to the player whose pass it is and who acts, it is worth its actions by how
    /// often each is taken, and of two actions with one regret the better one ends with at least as much; to that player,
    /// if the other acts, it is worth all that comes of the actions, and its table stays as it was.
    pub proof fn passes_teach_the_actor(
        self,
        i: int,
        player: Player,
        own: Seq<S>,
        opponent: Seq<S>,
        tables: Seq<NodeTablesView<S>>,
        step: NodeStep<S>,
        bound: int,
        combo: int,
        worse: int,
        better: int,
    )
        requires
            self.node(i).kind is Decision,
            self.states@[i].children@.len() > 1,
            0 <= combo < self.base.combos(player),
            factors_are_shares(step.factors().factors),
            bound >= 0,
            ({
                let kids = self.states@[i].children@.len();
                let actor = self.actor(i);
                let strategies = current_major(tables[i].regrets, self.base.combos(actor));
                let rows = self.node_visit_actions(
                    i,
                    player,
                    actor,
                    strategies,
                    own,
                    opponent,
                    tables,
                    step,
                    kids,
                );
                let old = rows.tables[i].regrets;
                &&& 0 <= i < rows.tables.len()
                &&& rows.rows.len() == kids == strategies.len()
                &&& 0 <= worse < kids
                &&& 0 <= better < kids
                &&& bound * (kids + 1) <= S::limit() / 8
                &&& can_be_mixed(
                    worth_steps(strategies, combo),
                    worth_steps(rows.rows, combo),
                    S::unit(),
                    bound,
                    kids,
                )
                &&& old.len() == kids
                &&& actor == player ==> {
                    &&& 0 <= combo < old[worse].len()
                    &&& 0 <= combo < old[better].len()
                    &&& old[worse][combo] == old[better][combo]
                    &&& cuts_off(step.factors().factors.variant) ==> old[worse][combo].steps() >= 0
                    &&& comparable::<S>(old[worse][combo].steps())
                }
            }),
        ensures
            ({
                let kids = self.states@[i].children@.len();
                let actor = self.actor(i);
                let strategies = current_major(tables[i].regrets, self.base.combos(actor));
                let rows = self.node_visit_actions(
                    i,
                    player,
                    actor,
                    strategies,
                    own,
                    opponent,
                    tables,
                    step,
                    kids,
                );
                let out = self.node_visit(i, player, own, opponent, tables, step);
                if actor == player {
                    &&& out.values[combo].steps() == mixed_steps(
                        worth_steps(strategies, combo),
                        worth_steps(rows.rows, combo),
                        S::unit(),
                        kids,
                    )
                    &&& rows.rows[worse][combo].steps() <= rows.rows[better][combo].steps()
                        ==> out.tables[i].regrets[worse][combo].steps()
                        <= out.tables[i].regrets[better][combo].steps()
                } else {
                    &&& out.values[combo].steps() == total_of(worth_steps(rows.rows, combo), kids)
                    &&& out.tables == rows.tables
                }
            }),
    {
        S::measured_units();
        let kids = self.states@[i].children@.len();
        let actor = self.actor(i);
        let strategies = current_major(tables[i].regrets, self.base.combos(actor));
        let rows = self.node_visit_actions(
            i,
            player,
            actor,
            strategies,
            own,
            opponent,
            tables,
            step,
            kids,
        );
        let out = self.node_visit(i, player, own, opponent, tables, step);
        let worth = worth_steps(rows.rows, combo);
        let n = kids as int;
        assert(bound * n <= bound * (n + 1) && bound <= bound * (n + 1) && -bound * n == -(bound * n))
            by (nonlinear_arith)
            requires
                bound >= 0,
                n >= 0,
        ;
        assert(worth[worse] == rows.rows[worse][combo].steps());
        assert(worth[better] == rows.rows[better][combo].steps());
        if actor == player {
            let values = acting_major(rows.rows, strategies, self.base.combos(player));
            node_acting_values_are_mixed(rows.rows, strategies, combo, bound, kids);
            lemma_mixed_bound(worth_steps(strategies, combo), worth, S::unit(), bound, kids);
            assert(out.values == values);
            if rows.rows[worse][combo].steps() <= rows.rows[better][combo].steps() {
                node_updates_favour_better_actions(
                    rows.tables[i],
                    rows.rows,
                    values,
                    strategies,
                    own,
                    step.factors(),
                    combo,
                    worse,
                    better,
                );
            }
        } else {
            assert forall|a: int| 0 <= a < kids implies -bound <= (
            #[trigger] rows.rows[a])[combo].steps() <= bound by {
                assert(worth[a] == rows.rows[a][combo].steps());
            }
            nonacting_values_add_up(rows.rows, combo, bound, kids);
        }
    }

    /// An action that no hand of the player who acts ever takes is passed on without that player's reach, the other's as
    /// before; one that all hands surely take with both reaches as before. If strategies are averaged locally, the reach of
    /// the player whose pass it is stays as it is at that player's own decisions.
    pub proof fn passes_go_on_as_often_as_taken(
        self,
        i: int,
        player: Player,
        actor: Player,
        strategies: Seq<Seq<S>>,
        own: Seq<S>,
        opponent: Seq<S>,
        tables: Seq<NodeTablesView<S>>,
        step: NodeStep<S>,
        n: nat,
    )
        requires
            0 < n,
            i < self.states@[i].children@[n - 1] < self.states@.len(),
            forall|c: int| 0 <= c < own.len() ==> 0 <= (#[trigger] own[c]).steps() <= S::limit(),
            forall|c: int|
                0 <= c < opponent.len() ==> 0 <= (#[trigger] opponent[c]).steps() <= S::limit(),
        ensures
            ({
                let front = self.node_visit_actions(
                    i,
                    player,
                    actor,
                    strategies,
                    own,
                    opponent,
                    tables,
                    step,
                    (n - 1) as nat,
                );
                let rows = self.node_visit_actions(
                    i,
                    player,
                    actor,
                    strategies,
                    own,
                    opponent,
                    tables,
                    step,
                    n,
                );
                let child = self.states@[i].children@[n - 1] as int;
                let reach = if actor == player {
                    own
                } else {
                    opponent
                };
                let local = step.average_strategy != RealCfrAverageStrategy::ReachWeighted;
                let never = forall|c: int|
                    0 <= c < reach.len() ==> (#[trigger] strategies[n - 1][c]).steps() == 0;
                let surely = forall|c: int|
                    0 <= c < reach.len() ==> (#[trigger] strategies[n - 1][c]).steps() == S::unit();
                let none = zeros_spec::<S>(reach.len());
                let with = self.node_visit(child, player, own, opponent, front.tables, step);
                let without = if actor == player {
                    self.node_visit(child, player, none, opponent, front.tables, step)
                } else {
                    self.node_visit(child, player, own, none, front.tables, step)
                };
                &&& surely || actor == player && local ==> rows.rows.last() == with.values && rows.tables
                    == with.tables
                &&& never && (actor != player || !local) ==> rows.rows.last() == without.values
                    && rows.tables == without.tables
            }),
    {
        S::measured_units();
        let reach = if actor == player {
            own
        } else {
            opponent
        };
        let shares = strategies[n - 1];
        let after = reach_major(reach, shares);
        if forall|c: int| 0 <= c < reach.len() ==> (#[trigger] strategies[n - 1][c]).steps() == 0 {
            assert forall|c: int| 0 <= c < reach.len() implies #[trigger] after[c] == S::zero_spec() by {
                assert(strategies[n - 1][c].steps() == 0);
                share_in_steps(shares[c], reach[c]);
                S::measured_order(after[c], S::zero_spec());
            }
            assert(after =~= zeros_spec::<S>(reach.len()));
        }
        if forall|c: int| 0 <= c < reach.len() ==> (#[trigger] strategies[n - 1][c]).steps() == S::unit() {
            assert forall|c: int| 0 <= c < reach.len() implies #[trigger] after[c] == reach[c] by {
                assert(strategies[n - 1][c].steps() == S::unit());
                share_in_steps(shares[c], reach[c]);
                S::measured_order(after[c], reach[c]);
            }
            assert(after =~= reach);
        }
    }
}

} // verus!
