//! Counterfactual regret minimization with tables at every node, one player at a time.
use vstd::prelude::*;
use crate::arith::{bounded, bounded_sum};
use crate::cards::deck_without;
use crate::cfr_math::{
    add_permuted_scaled_slice, best_values, combine_best_response, combine_nonacting,
    nonacting_values, rows_have, rows_of, zeros, zeros_spec, RealCfrAverageStrategy, RealCfrVariant,
};
use crate::isomorphism::{class_facts, next_card_classes};
use crate::node_laws::all_at_least;
use crate::node_math::{
    acting_major, average_major, average_strategies_action_major, combine_acting_action_major,
    current_major, current_strategies_action_major, reach_major, rows_are_grid,
    strategy_reach_action_major, NodeLocalUpdateFactors, NodeTables, NodeTablesView,
};
use crate::node_setup::{chooses, NodeSetup};
use crate::phase_states::{graph_kids, lemma_graph_goes_on};
use crate::real_cfr::codes_added;
use crate::scalar::Scalar;
use crate::side_cache::TerminalSideValueCache;
use crate::state_graph::{chance_child, is_expanded, GraphState};
use crate::tree::{Player, PublicNodeKind};
use crate::tree_shape::is_shaped_at;

verus! {

/// What stays the same in one pass of one iteration.
#[derive(Clone, Copy, Debug)]
pub struct NodeStep<S> {
    pub weight: S,
    pub variant: RealCfrVariant<S>,
    pub average_strategy: RealCfrAverageStrategy,
    pub by_prefix: bool,
}

impl<S: Scalar> NodeStep<S> {
    /// The discounts of the pass.
    pub open spec fn factors(self) -> NodeLocalUpdateFactors<S> {
        NodeLocalUpdateFactors::of(self.variant, self.weight, self.average_strategy)
    }

    /// The reach of the updated player's hands after an action: only where it counts for the average.
    pub open spec fn own_reach(self, reach: Seq<S>, strategy: Seq<S>) -> Seq<S> {
        if self.average_strategy == RealCfrAverageStrategy::ReachWeighted {
            reach_major(reach, strategy)
        } else {
            reach
        }
    }
}

/// How a player whose values are asked for plays: by the average strategy, or as well as can be.
#[derive(Clone, Copy, Debug, PartialEq, Eq, Structural)]
pub enum NodeLocalEvaluationMode {
    Profile,
    BestResponse,
}

/// What a pass through a part of the graph gives.
pub ghost struct NodeOutcome<S> {
    pub values: Seq<S>,
    pub evals: usize,
    pub tables: Seq<NodeTablesView<S>>,
}

/// What passes through the first actions of a state give.
pub ghost struct NodeRows<S> {
    pub rows: Seq<Seq<S>>,
    pub evals: usize,
    pub tables: Seq<NodeTablesView<S>>,
}

/// What the numbers of all states are.
pub open spec fn table_views<S>(tables: Seq<NodeTables<S>>) -> Seq<NodeTablesView<S>> {
    tables.map(|i: int, table: NodeTables<S>| table@)
}

impl<S: Scalar> NodeSetup<S> {
    /// How many actions a state has, and whose they are.
    pub open spec fn actor(self, i: int) -> Player {
        self.node(i).kind->player
    }

    /// Whether the tables are as large as their states call for.
    pub open spec fn tables_fit(self, tables: Seq<NodeTablesView<S>>) -> bool {
        &&& tables.len() == self.states@.len()
        &&& forall|i: int|
            0 <= i < tables.len() && #[trigger] chooses(self.base, self.states@[i])
                ==> tables[i].sized(self.states@[i].children@.len(), self.base.combos(self.actor(i)))
    }

    /// How much each card to come weighs.
    pub open spec fn card_weight(self, i: int) -> S {
        S::one_spec().over_spec(S::from_count_spec(self.states@[i].chance_concrete_events))
    }

    /// What a pass from a state gives.
    pub open spec fn node_visit(
        self,
        i: int,
        player: Player,
        own: Seq<S>,
        opponent: Seq<S>,
        tables: Seq<NodeTablesView<S>>,
        step: NodeStep<S>,
    ) -> NodeOutcome<S>
        decreases self.states@.len() - i, 1int, 0int,
    {
        let kids = self.states@[i].children@;
        match self.node(i).kind {
            PublicNodeKind::Decision { player: actor, actions } => if kids.len() == 1 {
                if i < kids[0] < self.states@.len() {
                    self.node_visit(kids[0] as int, player, own, opponent, tables, step)
                } else {
                    NodeOutcome { values: own, evals: 0, tables }
                }
            } else {
                let strategies = current_major(tables[i].regrets, self.base.combos(actor));
                let rows = self.node_visit_actions(
                    i,
                    player,
                    actor,
                    strategies,
                    own,
                    opponent,
                    tables,
                    step,
                    kids.len(),
                );
                if actor == player {
                    let values = acting_major(rows.rows, strategies, self.base.combos(player));
                    NodeOutcome {
                        values,
                        evals: rows.evals,
                        tables: rows.tables.update(
                            i,
                            rows.tables[i].updated(
                                rows.rows,
                                values,
                                strategies,
                                own,
                                step.factors(),
                            ),
                        ),
                    }
                } else {
                    NodeOutcome {
                        values: nonacting_values(
                            rows.rows,
                            kids.len() as int,
                            self.base.combos(player),
                        ),
                        evals: rows.evals,
                        tables: rows.tables,
                    }
                }
            },
            PublicNodeKind::Chance(chance) => if kids.len() > 0 {
                self.node_visit_cards(i, player, own, opponent, tables, step, kids.len())
            } else {
                NodeOutcome {
                    values: self.node_end(i, player, opponent, step.by_prefix),
                    evals: self.boards_of(i).len() as usize,
                    tables,
                }
            },
            PublicNodeKind::Terminal { reason } => NodeOutcome {
                values: self.node_end(i, player, opponent, step.by_prefix),
                evals: self.boards_of(i).len() as usize,
                tables,
            },
        }
    }

    /// What passes through the first `n` classes of cards give.
    pub open spec fn node_visit_cards(
        self,
        i: int,
        player: Player,
        own: Seq<S>,
        opponent: Seq<S>,
        tables: Seq<NodeTablesView<S>>,
        step: NodeStep<S>,
        n: nat,
    ) -> NodeOutcome<S>
        decreases self.states@.len() - i, 0int, n,
    {
        if n == 0 {
            NodeOutcome { values: zeros_spec::<S>(self.base.combos(player)), evals: 0, tables }
        } else {
            let front = self.node_visit_cards(
                i,
                player,
                own,
                opponent,
                tables,
                step,
                (n - 1) as nat,
            );
            let child = self.states@[i].children@[n - 1] as int;
            if i < child < self.states@.len() {
                let below = self.node_visit(child, player, own, opponent, front.tables, step);
                let codes = self.states@[i].chance_permutation_codes@[n - 1]@;
                NodeOutcome {
                    values: codes_added(
                        front.values,
                        below.values,
                        self.base.combo_permutations,
                        player,
                        codes,
                        self.card_weight(i),
                        codes.len(),
                    ),
                    evals: bounded(front.evals + below.evals) as usize,
                    tables: below.tables,
                }
            } else {
                front
            }
        }
    }

    /// What passes through the first `n` actions give.
    pub open spec fn node_visit_actions(
        self,
        i: int,
        player: Player,
        actor: Player,
        strategies: Seq<Seq<S>>,
        own: Seq<S>,
        opponent: Seq<S>,
        tables: Seq<NodeTablesView<S>>,
        step: NodeStep<S>,
        n: nat,
    ) -> NodeRows<S>
        decreases self.states@.len() - i, 0int, n,
    {
        if n == 0 {
            NodeRows { rows: Seq::empty(), evals: 0, tables }
        } else {
            let front = self.node_visit_actions(
                i,
                player,
                actor,
                strategies,
                own,
                opponent,
                tables,
                step,
                (n - 1) as nat,
            );
            let child = self.states@[i].children@[n - 1] as int;
            if i < child < self.states@.len() {
                let below = if actor == player {
                    self.node_visit(
                        child,
                        player,
                        step.own_reach(own, strategies[n - 1]),
                        opponent,
                        front.tables,
                        step,
                    )
                } else {
                    self.node_visit(
                        child,
                        player,
                        own,
                        reach_major(opponent, strategies[n - 1]),
                        front.tables,
                        step,
                    )
                };
                NodeRows {
                    rows: front.rows.push(below.values),
                    evals: bounded(front.evals + below.evals) as usize,
                    tables: below.tables,
                }
            } else {
                front
            }
        }
    }

    /// What a state is worth to a player's hands, strategies as they are on average.
    pub open spec fn node_value(
        self,
        i: int,
        player: Player,
        opponent: Seq<S>,
        tables: Seq<NodeTablesView<S>>,
        mode: NodeLocalEvaluationMode,
        by_prefix: bool,
    ) -> Seq<S>
        decreases self.states@.len() - i, 1int, 0int,
    {
        let kids = self.states@[i].children@;
        match self.node(i).kind {
            PublicNodeKind::Decision { player: actor, actions } => if kids.len() == 1 {
                if i < kids[0] < self.states@.len() {
                    self.node_value(kids[0] as int, player, opponent, tables, mode, by_prefix)
                } else {
                    Seq::empty()
                }
            } else {
                let strategies = average_major(tables[i].sums, self.base.combos(actor));
                let rows = self.node_value_actions(
                    i,
                    player,
                    actor,
                    strategies,
                    opponent,
                    tables,
                    mode,
                    by_prefix,
                    kids.len(),
                );
                if actor != player {
                    nonacting_values(rows, kids.len() as int, self.base.combos(player))
                } else if mode == NodeLocalEvaluationMode::BestResponse {
                    best_values(rows, kids.len() as int, self.base.combos(player))
                } else {
                    acting_major(rows, strategies, self.base.combos(player))
                }
            },
            PublicNodeKind::Chance(chance) => if kids.len() > 0 {
                self.node_value_cards(i, player, opponent, tables, mode, by_prefix, kids.len())
            } else {
                self.node_end(i, player, opponent, by_prefix)
            },
            PublicNodeKind::Terminal { reason } => self.node_end(i, player, opponent, by_prefix),
        }
    }

    /// What the first `n` classes of cards are worth together.
    pub open spec fn node_value_cards(
        self,
        i: int,
        player: Player,
        opponent: Seq<S>,
        tables: Seq<NodeTablesView<S>>,
        mode: NodeLocalEvaluationMode,
        by_prefix: bool,
        n: nat,
    ) -> Seq<S>
        decreases self.states@.len() - i, 0int, n,
    {
        if n == 0 {
            zeros_spec::<S>(self.base.combos(player))
        } else {
            let front = self.node_value_cards(
                i,
                player,
                opponent,
                tables,
                mode,
                by_prefix,
                (n - 1) as nat,
            );
            let child = self.states@[i].children@[n - 1] as int;
            if i < child < self.states@.len() {
                let codes = self.states@[i].chance_permutation_codes@[n - 1]@;
                codes_added(
                    front,
                    self.node_value(child, player, opponent, tables, mode, by_prefix),
                    self.base.combo_permutations,
                    player,
                    codes,
                    self.card_weight(i),
                    codes.len(),
                )
            } else {
                front
            }
        }
    }

    /// What the first `n` actions are worth.
    pub open spec fn node_value_actions(
        self,
        i: int,
        player: Player,
        actor: Player,
        strategies: Seq<Seq<S>>,
        opponent: Seq<S>,
        tables: Seq<NodeTablesView<S>>,
        mode: NodeLocalEvaluationMode,
        by_prefix: bool,
        n: nat,
    ) -> Seq<Seq<S>>
        decreases self.states@.len() - i, 0int, n,
    {
        if n == 0 {
            Seq::empty()
        } else {
            let front = self.node_value_actions(
                i,
                player,
                actor,
                strategies,
                opponent,
                tables,
                mode,
                by_prefix,
                (n - 1) as nat,
            );
            let child = self.states@[i].children@[n - 1] as int;
            if i < child < self.states@.len() {
                front.push(
                    self.node_value(
                        child,
                        player,
                        if actor == player {
                            opponent
                        } else {
                            reach_major(opponent, strategies[n - 1])
                        },
                        tables,
                        mode,
                        by_prefix,
                    ),
                )
            } else {
                front
            }
        }
    }

    /// How many finished boards are evaluated from a state on, whatever the strategies are.
    pub open spec fn node_evals(self, i: int) -> usize
        decreases self.states@.len() - i, 1int, 0int,
    {
        let kids = self.states@[i].children@;
        if kids.len() == 0 {
            self.boards_of(i).len() as usize
        } else {
            self.node_evals_below(i, kids.len())
        }
    }

    /// How many finished boards are evaluated from the first `n` states on that follow a state.
    pub open spec fn node_evals_below(self, i: int, n: nat) -> usize
        decreases self.states@.len() - i, 0int, n,
    {
        if n == 0 {
            0
        } else {
            let front = self.node_evals_below(i, (n - 1) as nat);
            let child = self.states@[i].children@[n - 1] as int;
            if i < child < self.states@.len() {
                bounded(front + self.node_evals(child)) as usize
            } else {
                front
            }
        }
    }

    /// What follows a state stands behind it.
    pub proof fn kids_stand_behind(self, i: int)
        requires
            self.wf(),
            0 <= i < self.states@.len(),
        ensures
            forall|k: int|
                0 <= k < self.states@[i].children@.len() ==> i < #[trigger] self.states@[i].children@[k]
                    < self.states@.len(),
            self.states@[i].node_id < self.base.tree.nodes@.len(),
            self.node(i).kind is Decision ==> self.states@[i].children@.len()
                == self.node(i).kind->actions@.len() && self.states@[i].children@.len() > 0,
            self.node(i).kind is Terminal ==> self.states@[i].children@.len() == 0,
            self.node(i).kind is Chance ==> self.states@[i].chance_permutation_codes@.len()
                == self.states@[i].children@.len(),
    {
        let states = self.states@;
        let (oop, ip) = (self.base.oop(), self.base.ip());
        lemma_graph_goes_on(self.base, states);
        assert(is_expanded(true, self.base.tree.nodes@, oop, ip, states, i));
        assert(is_shaped_at(self.base.tree.nodes@, states[i].node_id as int));
        let all = graph_kids(states);
        assert forall|k: int| 0 <= k < states[i].children@.len() implies i
            < #[trigger] states[i].children@[k] < states.len() by {
            assert(all[i][k] == states[i].children@[k]);
        }
    }

    /// The codes of a state's classes have maps.
    pub proof fn codes_are_mapped(self, i: int, k: int)
        requires
            self.wf(),
            0 <= i < self.states@.len(),
            self.node(i).kind is Chance,
            0 <= k < self.states@[i].children@.len(),
        ensures
            forall|m: int|
                0 <= m < self.states@[i].chance_permutation_codes@[k]@.len() ==> self.base.maps_code(
                    #[trigger] self.states@[i].chance_permutation_codes@[k]@[m],
                ),
    {
        let states = self.states@;
        let nodes = self.base.tree.nodes@;
        let (oop, ip) = (self.base.oop(), self.base.ip());
        let board = states[i].board@;
        let classes = next_card_classes(board, oop, ip);
        assert(is_expanded(true, nodes, oop, ip, states, i));
        assert(chance_child(true, nodes, states, i, k, classes[k]));
        class_facts(board, oop, ip, deck_without(board).len());
        let codes = states[i].chance_permutation_codes@[k]@;
        assert forall|m: int| 0 <= m < codes.len() implies self.base.maps_code(
            #[trigger] codes[m],
        ) by {
            let member = classes[k].members[m];
            assert(member.permutation_to_representative.wf());
            self.base.symmetry_is_mapped(board, member.permutation_to_representative);
        }
    }

    fn add_codes_side(&self, out: &mut Vec<S>, child: &Vec<S>, player: Player, codes: &Vec<u8>, weight: S)
        requires
            self.wf(),
            old(out)@.len() == self.base.combos(player),
            child@.len() == self.base.combos(player),
            forall|m: int| 0 <= m < codes@.len() ==> self.base.maps_code(#[trigger] codes@[m]),
        ensures
            final(out)@.len() == self.base.combos(player),
            final(out)@ == codes_added(
                old(out)@,
                child@,
                self.base.combo_permutations,
                player,
                codes@,
                weight,
                codes@.len(),
            ),
    {
        let ghost before = out@;
        for m in 0..codes.len()
            invariant
                self.wf(),
                out@.len() == self.base.combos(player),
                child@.len() == self.base.combos(player),
                forall|k: int| 0 <= k < codes@.len() ==> self.base.maps_code(#[trigger] codes@[k]),
                out@ == codes_added(
                    before,
                    child@,
                    self.base.combo_permutations,
                    player,
                    codes@,
                    weight,
                    m as nat,
                ),
        {
            let code: usize = codes[m] as usize;
            proof {
                assert(self.base.combo_permutations.fits(self.base.oop(), self.base.ip()));
                assert(self.base.maps_code(codes@[m as int]));
            }
            match &self.base.combo_permutations.maps[code] {
                Some(maps) => match player {
                    Player::Oop => add_permuted_scaled_slice(
                        out,
                        child,
                        &maps.oop_source_to_target,
                        weight,
                    ),
                    Player::Ip => add_permuted_scaled_slice(
                        out,
                        child,
                        &maps.ip_source_to_target,
                        weight,
                    ),
                },
                None => {},
            }
        }
    }

    /// Passes from a state: ends are evaluated, chance states average over the cards to come, states of
    /// the updated player weigh their actions and learn from them, those of the other add them up.
    pub fn traverse_update_side(
        &self,
        i: usize,
        player: Player,
        own: &Vec<S>,
        opponent: &Vec<S>,
        tables: &mut Vec<NodeTables<S>>,
        step: &NodeStep<S>,
        values: &mut TerminalSideValueCache<S>,
    ) -> (r: (Vec<S>, usize))
        requires
            self.wf(),
            i < self.states@.len(),
            own@.len() == self.base.combos(player),
            opponent@.len() == self.base.combos(player.other_spec()),
            self.tables_fit(table_views(old(tables)@)),
            old(values).holds(self.base.terminal_cache@),
        ensures
            ({
                let outcome = self.node_visit(
                    i as int,
                    player,
                    own@,
                    opponent@,
                    table_views(old(tables)@),
                    *step,
                );
                &&& r.0@ == outcome.values
                &&& r.1 == outcome.evals
                &&& table_views(final(tables)@) == outcome.tables
            }),
            r.0@.len() == self.base.combos(player),
            self.tables_fit(table_views(final(tables)@)),
            final(values).holds(self.base.terminal_cache@),
        decreases self.states@.len() - i, 1int,
    {
        proof {
            self.kids_stand_behind(i as int);
        }
        let state: &GraphState = &self.states[i];
        match &self.base.tree.nodes[state.node_id].kind {
            PublicNodeKind::Terminal { reason } => self.terminal_side(
                i,
                player,
                opponent,
                step.by_prefix,
                values,
            ),
            PublicNodeKind::Chance(_) => {
                if state.children.len() == 0 {
                    return self.terminal_side(i, player, opponent, step.by_prefix, values);
                }
                self.traverse_cards(i, player, own, opponent, tables, step, values)
            },
            PublicNodeKind::Decision { player: actor, actions } => {
                if actions.len() == 1 {
                    let child: usize = state.children[0];
                    proof {
                        assert(i < self.states@[i as int].children@[0] < self.states@.len());
                    }
                    return self.traverse_update_side(
                        child,
                        player,
                        own,
                        opponent,
                        tables,
                        step,
                        values,
                    );
                }
                self.traverse_actions(i, player, *actor, own, opponent, tables, step, values)
            },
        }
    }

    fn traverse_cards(
        &self,
        i: usize,
        player: Player,
        own: &Vec<S>,
        opponent: &Vec<S>,
        tables: &mut Vec<NodeTables<S>>,
        step: &NodeStep<S>,
        values: &mut TerminalSideValueCache<S>,
    ) -> (r: (Vec<S>, usize))
        requires
            self.wf(),
            i < self.states@.len(),
            self.node(i as int).kind is Chance,
            own@.len() == self.base.combos(player),
            opponent@.len() == self.base.combos(player.other_spec()),
            self.tables_fit(table_views(old(tables)@)),
            old(values).holds(self.base.terminal_cache@),
        ensures
            ({
                let outcome = self.node_visit_cards(
                    i as int,
                    player,
                    own@,
                    opponent@,
                    table_views(old(tables)@),
                    *step,
                    self.states@[i as int].children@.len(),
                );
                &&& r.0@ == outcome.values
                &&& r.1 == outcome.evals
                &&& table_views(final(tables)@) == outcome.tables
            }),
            r.0@.len() == self.base.combos(player),
            self.tables_fit(table_views(final(tables)@)),
            final(values).holds(self.base.terminal_cache@),
        decreases self.states@.len() - i, 0int,
    {
        let ghost before = table_views(tables@);
        proof {
            self.kids_stand_behind(i as int);
        }
        let state: &GraphState = &self.states[i];
        let weight: S = S::one().over(S::from_count(state.chance_concrete_events));
        let mut out: Vec<S> = zeros(own.len());
        let mut evals: usize = 0;
        for k in 0..state.children.len()
            invariant
                self.wf(),
                i < self.states@.len(),
                *state == self.states@[i as int],
                self.node(i as int).kind is Chance,
                own@.len() == self.base.combos(player),
                opponent@.len() == self.base.combos(player.other_spec()),
                weight == self.card_weight(i as int),
                forall|k: int|
                    0 <= k < state.children@.len() ==> i < #[trigger] state.children@[k]
                        < self.states@.len(),
                state.chance_permutation_codes@.len() == state.children@.len(),
                self.tables_fit(table_views(tables@)),
                values.holds(self.base.terminal_cache@),
                out@.len() == self.base.combos(player),
                ({
                    let front = self.node_visit_cards(
                        i as int,
                        player,
                        own@,
                        opponent@,
                        before,
                        *step,
                        k as nat,
                    );
                    &&& out@ == front.values
                    &&& evals == front.evals
                    &&& table_views(tables@) == front.tables
                }),
        {
            let child: usize = state.children[k];
            proof {
                assert(i < state.children@[k as int] < self.states@.len());
                self.codes_are_mapped(i as int, k as int);
            }
            let (below, count): (Vec<S>, usize) = self.traverse_update_side(
                child,
                player,
                own,
                opponent,
                tables,
                step,
                values,
            );
            self.add_codes_side(&mut out, &below, player, &state.chance_permutation_codes[k], weight);
            evals = bounded_sum(evals, count);
        }
        (out, evals)
    }

    fn traverse_actions(
        &self,
        i: usize,
        player: Player,
        actor: Player,
        own: &Vec<S>,
        opponent: &Vec<S>,
        tables: &mut Vec<NodeTables<S>>,
        step: &NodeStep<S>,
        values: &mut TerminalSideValueCache<S>,
    ) -> (r: (Vec<S>, usize))
        requires
            self.wf(),
            i < self.states@.len(),
            self.node(i as int).kind is Decision,
            actor == self.actor(i as int),
            self.states@[i as int].children@.len() > 1,
            own@.len() == self.base.combos(player),
            opponent@.len() == self.base.combos(player.other_spec()),
            self.tables_fit(table_views(old(tables)@)),
            old(values).holds(self.base.terminal_cache@),
        ensures
            ({
                let outcome = self.node_visit(
                    i as int,
                    player,
                    own@,
                    opponent@,
                    table_views(old(tables)@),
                    *step,
                );
                &&& r.0@ == outcome.values
                &&& r.1 == outcome.evals
                &&& table_views(final(tables)@) == outcome.tables
            }),
            r.0@.len() == self.base.combos(player),
            self.tables_fit(table_views(final(tables)@)),
            final(values).holds(self.base.terminal_cache@),
        decreases self.states@.len() - i, 0int,
    {
        let ghost before = table_views(tables@);
        proof {
            self.kids_stand_behind(i as int);
            assert(chooses(self.base, self.states@[i as int]));
            assert(before[i as int] == tables@[i as int]@);
            rows_are_grid(
                tables@[i as int].regrets@,
                self.states@[i as int].children@.len(),
                self.base.combos(actor),
            );
        }
        let state: &GraphState = &self.states[i];
        let actions: usize = state.children.len();
        let combos: usize = match actor {
            Player::Oop => self.base.oop_range.combos().len(),
            Player::Ip => self.base.ip_range.combos().len(),
        };
        let strategies: Vec<Vec<S>> = current_strategies_action_major(&tables[i].regrets, combos);
        let ghost plans = rows_of(strategies@);
        let mut rows: Vec<Vec<S>> = Vec::new();
        let mut evals: usize = 0;
        for k in 0..actions
            invariant
                self.wf(),
                i < self.states@.len(),
                *state == self.states@[i as int],
                actions == state.children@.len(),
                combos == self.base.combos(actor),
                plans == rows_of(strategies@),
                rows_have(strategies@, actions as int, combos as int),
                own@.len() == self.base.combos(player),
                opponent@.len() == self.base.combos(player.other_spec()),
                forall|k: int|
                    0 <= k < state.children@.len() ==> i < #[trigger] state.children@[k]
                        < self.states@.len(),
                self.tables_fit(table_views(tables@)),
                values.holds(self.base.terminal_cache@),
                rows_have(rows@, k as int, self.base.combos(player) as int),
                ({
                    let front = self.node_visit_actions(
                        i as int,
                        player,
                        actor,
                        plans,
                        own@,
                        opponent@,
                        before,
                        *step,
                        k as nat,
                    );
                    &&& rows_of(rows@) == front.rows
                    &&& evals == front.evals
                    &&& table_views(tables@) == front.tables
                }),
        {
            let ghost was = rows@;
            let child: usize = state.children[k];
            proof {
                assert(i < state.children@[k as int] < self.states@.len());
                assert(strategies@[k as int]@.len() == combos);
                assert(plans[k as int] == strategies@[k as int]@);
            }
            let (below, count): (Vec<S>, usize) = if actor == player {
                if step.average_strategy == RealCfrAverageStrategy::ReachWeighted {
                    let next: Vec<S> = strategy_reach_action_major(own, &strategies[k]);
                    self.traverse_update_side(child, player, &next, opponent, tables, step, values)
                } else {
                    self.traverse_update_side(child, player, own, opponent, tables, step, values)
                }
            } else {
                let next: Vec<S> = strategy_reach_action_major(opponent, &strategies[k]);
                self.traverse_update_side(child, player, own, &next, tables, step, values)
            };
            rows.push(below);
            evals = bounded_sum(evals, count);
            proof {
                assert(rows_of(rows@) =~= rows_of(was).push(below@));
            }
        }
        if actor == player {
            let out: Vec<S> = combine_acting_action_major(&rows, &strategies, combos);
            let factors: NodeLocalUpdateFactors<S> = NodeLocalUpdateFactors::new(
                step.variant,
                step.weight,
                step.average_strategy,
            );
            let ghost middle = table_views(tables@);
            proof {
                assert(chooses(self.base, self.states@[i as int]));
                assert(middle[i as int] == tables@[i as int]@);
            }
            tables[i].apply_node_local_updates_action_major(
                &rows,
                &out,
                &strategies,
                own,
                combos,
                actions,
                &factors,
            );
            proof {
                assert(table_views(tables@) =~= middle.update(
                    i as int,
                    middle[i as int].updated(rows_of(rows@), out@, plans, own@, factors),
                ));
            }
            (out, evals)
        } else {
            (combine_nonacting(&rows, actions, own.len()), evals)
        }
    }

    /// What a state is worth to a player's hands, strategies as they are on average, and how many boards
    /// are evaluated for it. A best answer is worth at least what the strategy is worth, to every hand.
    pub fn evaluate_side(
        &self,
        i: usize,
        player: Player,
        opponent: &Vec<S>,
        tables: &Vec<NodeTables<S>>,
        mode: NodeLocalEvaluationMode,
        by_prefix: bool,
        values: &mut TerminalSideValueCache<S>,
    ) -> (r: (Vec<S>, usize))
        requires
            self.wf(),
            i < self.states@.len(),
            opponent@.len() == self.base.combos(player.other_spec()),
            self.tables_fit(table_views(tables@)),
            old(values).holds(self.base.terminal_cache@),
        ensures
            r.0@ == self.node_value(
                i as int,
                player,
                opponent@,
                table_views(tables@),
                mode,
                by_prefix,
            ),
            r.0@.len() == self.base.combos(player),
            r.1 == self.node_evals(i as int),
            final(values).holds(self.base.terminal_cache@),
            mode == NodeLocalEvaluationMode::BestResponse && self.compares_strategies(
                table_views(tables@),
            ) ==> all_at_least(
                r.0@,
                self.node_value(
                    i as int,
                    player,
                    opponent@,
                    table_views(tables@),
                    NodeLocalEvaluationMode::Profile,
                    by_prefix,
                ),
                self.base.combos(player),
            ),
        decreases self.states@.len() - i, 1int,
    {
        proof {
            self.kids_stand_behind(i as int);
            self.lemma_best_at_least(i as int, player, opponent@, table_views(tables@), by_prefix);
        }
        let state: &GraphState = &self.states[i];
        match &self.base.tree.nodes[state.node_id].kind {
            PublicNodeKind::Terminal { reason } => self.terminal_side(
                i,
                player,
                opponent,
                by_prefix,
                values,
            ),
            PublicNodeKind::Chance(_) => {
                if state.children.len() == 0 {
                    return self.terminal_side(i, player, opponent, by_prefix, values);
                }
                self.evaluate_cards(i, player, opponent, tables, mode, by_prefix, values)
            },
            PublicNodeKind::Decision { player: actor, actions } => {
                if actions.len() == 1 {
                    let child: usize = state.children[0];
                    proof {
                        assert(i < self.states@[i as int].children@[0] < self.states@.len());
                    }
                    proof {
                        assert(self.node_evals_below(i as int, 0) == 0);
                    }
                    return self.evaluate_side(
                        child,
                        player,
                        opponent,
                        tables,
                        mode,
                        by_prefix,
                        values,
                    );
                }
                self.evaluate_actions(i, player, *actor, opponent, tables, mode, by_prefix, values)
            },
        }
    }

    fn evaluate_cards(
        &self,
        i: usize,
        player: Player,
        opponent: &Vec<S>,
        tables: &Vec<NodeTables<S>>,
        mode: NodeLocalEvaluationMode,
        by_prefix: bool,
        values: &mut TerminalSideValueCache<S>,
    ) -> (r: (Vec<S>, usize))
        requires
            self.wf(),
            i < self.states@.len(),
            self.node(i as int).kind is Chance,
            opponent@.len() == self.base.combos(player.other_spec()),
            self.tables_fit(table_views(tables@)),
            old(values).holds(self.base.terminal_cache@),
        ensures
            r.0@ == self.node_value_cards(
                i as int,
                player,
                opponent@,
                table_views(tables@),
                mode,
                by_prefix,
                self.states@[i as int].children@.len(),
            ),
            r.0@.len() == self.base.combos(player),
            r.1 == self.node_evals(i as int),
            final(values).holds(self.base.terminal_cache@),
        decreases self.states@.len() - i, 0int,
    {
        proof {
            self.kids_stand_behind(i as int);
        }
        let state: &GraphState = &self.states[i];
        let count: usize = match player {
            Player::Oop => self.base.oop_range.combos().len(),
            Player::Ip => self.base.ip_range.combos().len(),
        };
        let weight: S = S::one().over(S::from_count(state.chance_concrete_events));
        let mut out: Vec<S> = zeros(count);
        let mut evals: usize = 0;
        for k in 0..state.children.len()
            invariant
                self.wf(),
                i < self.states@.len(),
                *state == self.states@[i as int],
                self.node(i as int).kind is Chance,
                opponent@.len() == self.base.combos(player.other_spec()),
                weight == self.card_weight(i as int),
                forall|k: int|
                    0 <= k < state.children@.len() ==> i < #[trigger] state.children@[k]
                        < self.states@.len(),
                state.chance_permutation_codes@.len() == state.children@.len(),
                self.tables_fit(table_views(tables@)),
                values.holds(self.base.terminal_cache@),
                evals == self.node_evals_below(i as int, k as nat),
                out@.len() == self.base.combos(player),
                out@ == self.node_value_cards(
                    i as int,
                    player,
                    opponent@,
                    table_views(tables@),
                    mode,
                    by_prefix,
                    k as nat,
                ),
        {
            let child: usize = state.children[k];
            proof {
                assert(i < state.children@[k as int] < self.states@.len());
                self.codes_are_mapped(i as int, k as int);
            }
            let (below, more): (Vec<S>, usize) = self.evaluate_side(
                child,
                player,
                opponent,
                tables,
                mode,
                by_prefix,
                values,
            );
            self.add_codes_side(&mut out, &below, player, &state.chance_permutation_codes[k], weight);
            evals = bounded_sum(evals, more);
        }
        (out, evals)
    }

    fn evaluate_actions(
        &self,
        i: usize,
        player: Player,
        actor: Player,
        opponent: &Vec<S>,
        tables: &Vec<NodeTables<S>>,
        mode: NodeLocalEvaluationMode,
        by_prefix: bool,
        values: &mut TerminalSideValueCache<S>,
    ) -> (r: (Vec<S>, usize))
        requires
            self.wf(),
            i < self.states@.len(),
            self.node(i as int).kind is Decision,
            actor == self.actor(i as int),
            self.states@[i as int].children@.len() > 1,
            opponent@.len() == self.base.combos(player.other_spec()),
            self.tables_fit(table_views(tables@)),
            old(values).holds(self.base.terminal_cache@),
        ensures
            r.0@ == self.node_value(
                i as int,
                player,
                opponent@,
                table_views(tables@),
                mode,
                by_prefix,
            ),
            r.0@.len() == self.base.combos(player),
            r.1 == self.node_evals(i as int),
            final(values).holds(self.base.terminal_cache@),
        decreases self.states@.len() - i, 0int,
    {
        let ghost all = table_views(tables@);
        proof {
            self.kids_stand_behind(i as int);
            assert(chooses(self.base, self.states@[i as int]));
            assert(all[i as int] == tables@[i as int]@);
            rows_are_grid(
                tables@[i as int].strategy_sum@,
                self.states@[i as int].children@.len(),
                self.base.combos(actor),
            );
        }
        let state: &GraphState = &self.states[i];
        let actions: usize = state.children.len();
        let combos: usize = match actor {
            Player::Oop => self.base.oop_range.combos().len(),
            Player::Ip => self.base.ip_range.combos().len(),
        };
        let count: usize = match player {
            Player::Oop => self.base.oop_range.combos().len(),
            Player::Ip => self.base.ip_range.combos().len(),
        };
        let strategies: Vec<Vec<S>> = average_strategies_action_major(
            &tables[i].strategy_sum,
            combos,
        );
        let ghost plans = rows_of(strategies@);
        let mut rows: Vec<Vec<S>> = Vec::new();
        let mut evals: usize = 0;
        for k in 0..actions
            invariant
                self.wf(),
                i < self.states@.len(),
                *state == self.states@[i as int],
                actions == state.children@.len(),
                combos == self.base.combos(actor),
                plans == rows_of(strategies@),
                rows_have(strategies@, actions as int, combos as int),
                opponent@.len() == self.base.combos(player.other_spec()),
                forall|k: int|
                    0 <= k < state.children@.len() ==> i < #[trigger] state.children@[k]
                        < self.states@.len(),
                all == table_views(tables@),
                self.tables_fit(all),
                values.holds(self.base.terminal_cache@),
                evals == self.node_evals_below(i as int, k as nat),
                rows_have(rows@, k as int, self.base.combos(player) as int),
                rows_of(rows@) == self.node_value_actions(
                    i as int,
                    player,
                    actor,
                    plans,
                    opponent@,
                    all,
                    mode,
                    by_prefix,
                    k as nat,
                ),
        {
            let ghost was = rows@;
            let child: usize = state.children[k];
            proof {
                assert(i < state.children@[k as int] < self.states@.len());
                assert(strategies@[k as int]@.len() == combos);
                assert(plans[k as int] == strategies@[k as int]@);
            }
            let (below, more): (Vec<S>, usize) = if actor == player {
                self.evaluate_side(child, player, opponent, tables, mode, by_prefix, values)
            } else {
                let next: Vec<S> = strategy_reach_action_major(opponent, &strategies[k]);
                self.evaluate_side(child, player, &next, tables, mode, by_prefix, values)
            };
            rows.push(below);
            evals = bounded_sum(evals, more);
            proof {
                assert(rows_of(rows@) =~= rows_of(was).push(below@));
            }
        }
        let out: Vec<S> = if actor != player {
            combine_nonacting(&rows, actions, count)
        } else if mode == NodeLocalEvaluationMode::BestResponse {
            combine_best_response(&rows, actions, count)
        } else {
            combine_acting_action_major(&rows, &strategies, count)
        };
        (out, evals)
    }
}

} // verus!
