//! Runs of the solver with tables at every node, and what it has learned.
use vstd::prelude::*;
use crate::arith::{bounded, bounded_sum};
use crate::cards::Board;
use crate::cfr_math::{combo_weights, rows_of, weights_of, RealCfrConfig};
use crate::node_calls::NodeLocalCalls;
use crate::node_cfr::{table_views, NodeLocalEvaluationMode, NodeStep};
use crate::node_math::{
    average_major, average_strategies_action_major, rows_are_grid, NodeTables, NodeTablesView,
};
use crate::node_setup::{chooses, oracle_is_allowed, NodeSetup};
use crate::range::{ComboWeight, RangeSpec};
use crate::real_run::{exploitability_from, exploitability_of, RealCfrExploitability};
use crate::real_setup::RealSetup;
use crate::real_terminal::{Values, ValuesView};
use crate::scalar::Scalar;
use crate::side_cache::TerminalSideValueCache;
use crate::state_graph::{is_expanded, GraphState};
use crate::tree::{
    ActionKind, Player, PublicNode, PublicNodeKind, PublicTree, Street, TerminalReason,
};
use crate::tree_shape::{is_preorder, is_shaped, is_shaped_at};

verus! {

/// What a run gave, and how large the solver is.
#[derive(Clone, Copy, Debug)]
pub struct NodeLocalCfrSummary<S> {
    pub iterations: u32,
    pub states: usize,
    pub decision_states: usize,
    pub action_slots: usize,
    pub terminal_evals: usize,
    pub oop_update_pass_value: S,
    pub ip_update_pass_value: S,
    pub calls: NodeLocalCalls,
}

/// What one iteration gave.
#[derive(Clone, Copy, Debug)]
pub struct NodeLocalCfrIterationSummary<S> {
    pub iteration: u32,
    pub terminal_evals: usize,
    pub oop_update_pass_value: S,
    pub ip_update_pass_value: S,
}

/// What kind of a state a solution holds.
#[derive(Clone, Copy, Debug, PartialEq, Eq, Structural)]
pub enum NodeLocalSolutionNodeKind {
    Decision,
    Chance,
    Terminal { reason: TerminalReason },
}

/// How a player's hands act on average: for each action, the share of each hand.
#[derive(Clone, Debug)]
pub struct NodeLocalStrategySnapshot<S> {
    pub player: Player,
    pub combos: usize,
    pub actions: usize,
    pub action_major: Vec<S>,
}

/// A state of a solution.
#[derive(Clone, Debug)]
pub struct NodeLocalSolutionNode<S> {
    pub id: usize,
    pub public_node: usize,
    pub board: Board,
    pub street: Street,
    pub pot: u32,
    pub player: Player,
    pub kind: NodeLocalSolutionNodeKind,
    pub children: Vec<usize>,
    pub actions: Vec<ActionKind>,
    pub strategy: Option<NodeLocalStrategySnapshot<S>>,
}

/// What a solver has learned.
#[derive(Clone, Debug)]
pub struct NodeLocalSolutionSnapshot<S> {
    pub iterations: u32,
    pub oop_combos: Vec<ComboWeight<S>>,
    pub ip_combos: Vec<ComboWeight<S>>,
    pub nodes: Vec<NodeLocalSolutionNode<S>>,
}

/// A solver on a flop with tables at every node.
#[derive(Clone, Debug)]
pub struct NodeLocalCfrSolver<S> {
    pub setup: NodeSetup<S>,
    pub tables: Vec<NodeTables<S>>,
    pub completed_iterations: u32,
}

/// What passes of both players gave.
pub ghost struct NodePasses<S> {
    pub values: ValuesView<S>,
    pub tables: Seq<NodeTablesView<S>>,
}

/// The numbers of the first `n` rows, row by row.
pub open spec fn flattened<S>(rows: Seq<Seq<S>>, n: nat) -> Seq<S>
    decreases n,
{
    if n == 0 {
        Seq::empty()
    } else {
        flattened(rows, (n - 1) as nat) + rows[n - 1]
    }
}

fn flatten<S: Scalar>(rows: &Vec<Vec<S>>) -> (r: Vec<S>)
    ensures
        r@ == flattened(rows_of(rows@), rows@.len()),
{
    let ghost all = rows_of(rows@);
    let mut out: Vec<S> = Vec::new();
    for a in 0..rows.len()
        invariant
            all == rows_of(rows@),
            out@ == flattened(all, a as nat),
    {
        let ghost front = out@;
        let row: &Vec<S> = &rows[a];
        for c in 0..row.len()
            invariant
                out@ =~= front + row@.take(c as int),
        {
            out.push(row[c]);
        }
        proof {
            assert(row@.take(row@.len() as int) =~= row@);
            assert(all[a as int] == row@);
        }
    }
    out
}

impl<S: Scalar> NodeSetup<S> {
    /// What a pass is made with.
    pub open spec fn pass_step(iteration: u32, config: RealCfrConfig<S>, by_prefix: bool) -> NodeStep<S> {
        NodeStep {
            weight: S::from_u32_spec(iteration),
            variant: config.variant,
            average_strategy: config.average_strategy,
            by_prefix,
        }
    }

    /// What `n` iterations give: in each, one pass for either player.
    pub open spec fn passes(
        self,
        tables: Seq<NodeTablesView<S>>,
        completed: int,
        config: RealCfrConfig<S>,
        by_prefix: bool,
        n: nat,
    ) -> NodePasses<S>
        decreases n,
    {
        let (oop, ip) = (weights_of(self.base.oop()), weights_of(self.base.ip()));
        if n == 0 {
            NodePasses { values: ValuesView::zero(oop.len(), ip.len()), tables }
        } else {
            let front = self.passes(tables, completed, config, by_prefix, (n - 1) as nat);
            let step = Self::pass_step((completed + n) as u32, config, by_prefix);
            let first = self.node_visit(0, Player::Oop, oop, ip, front.tables, step);
            let second = self.node_visit(0, Player::Ip, ip, oop, first.tables, step);
            NodePasses {
                values: ValuesView {
                    oop: first.values,
                    ip: second.values,
                    terminal_evals: bounded(first.evals + second.evals) as usize,
                },
                tables: second.tables,
            }
        }
    }

    /// The value of the root to a player.
    pub open spec fn root_evaluation(
        self,
        player: Player,
        tables: Seq<NodeTablesView<S>>,
        mode: NodeLocalEvaluationMode,
        by_prefix: bool,
    ) -> S {
        let (oop, ip) = (weights_of(self.base.oop()), weights_of(self.base.ip()));
        let value = |side: Player|
            self.node_value(
                0,
                side,
                if side == Player::Oop {
                    ip
                } else {
                    oop
                },
                tables,
                mode,
                by_prefix,
            );
        self.base.root_value(
            player,
            ValuesView { oop: value(Player::Oop), ip: value(Player::Ip), terminal_evals: 0 },
        )
    }

    /// Whether a state of a solution is one of the solver's.
    pub open spec fn is_solution_node(
        self,
        tables: Seq<NodeTablesView<S>>,
        i: int,
        node: NodeLocalSolutionNode<S>,
    ) -> bool {
        let state = self.states@[i];
        let public = self.node(i);
        &&& node.id == i
        &&& node.public_node == state.node_id
        &&& node.board == state.board
        &&& node.street == public.state.street
        &&& node.player == public.state.player
        &&& node.children@ == state.children@
        &&& match public.kind {
            PublicNodeKind::Decision { player, actions } => {
                &&& node.kind == NodeLocalSolutionNodeKind::Decision
                &&& node.pot == public.state.pot
                &&& node.actions@ == actions@
                &&& node.strategy is Some
                &&& node.strategy->Some_0.player == player
                &&& node.strategy->Some_0.combos == self.base.combos(player)
                &&& node.strategy->Some_0.actions == actions@.len()
                &&& node.strategy->Some_0.action_major@ == if actions@.len() == 1 {
                    Seq::new(self.base.combos(player), |c: int| S::one_spec())
                } else {
                    flattened(
                        average_major(tables[i].sums, self.base.combos(player)),
                        actions@.len(),
                    )
                }
            },
            PublicNodeKind::Chance(chance) => {
                &&& node.actions@.len() == 0
                &&& node.strategy is None
                &&& if public.children@.len() > 0 {
                    node.kind == NodeLocalSolutionNodeKind::Chance && node.pot == public.state.pot
                } else {
                    node.kind == (NodeLocalSolutionNodeKind::Terminal {
                        reason: TerminalReason::Showdown,
                    }) && node.pot == 0
                }
            },
            PublicNodeKind::Terminal { reason } => {
                &&& node.kind == (NodeLocalSolutionNodeKind::Terminal { reason })
                &&& node.pot == public.state.pot
                &&& node.actions@.len() == 0
                &&& node.strategy is None
            },
        }
    }
}

impl<S: Scalar> NodeLocalCfrSolver<S> {
    /// Whether the tables are as large as the setup calls for.
    pub open spec fn wf(self) -> bool {
        self.setup.wf() && self.setup.tables_fit(table_views(self.tables@))
    }

    /// A solver that has learned nothing yet. Payoffs of all-ins on the flop are worked out before if
    /// they take no more than so many mebibytes.
    pub fn new(
        tree: PublicTree,
        oop_range: RangeSpec<S>,
        ip_range: RangeSpec<S>,
        oracle_limit_mib: usize,
    ) -> (r: Result<Self, String>)
        requires
            tree.spot.board.wf(),
            tree.spot.board@.len() == 3 ==> is_shaped(tree) && is_preorder(tree.nodes@),
            oop_range.wf(),
            ip_range.wf(),
            oop_range.combos_spec().len() <= 65536,
            ip_range.combos_spec().len() <= 65536,
            tree.spot.board@.len() == 3 ==> RealSetup::<S>::slots_needed(
                tree,
                oop_range.combos_spec(),
                ip_range.combos_spec(),
            ) <= usize::MAX,
        ensures
            r is Ok == (tree.spot.board@.len() == 3),
            match r {
                Ok(solver) => {
                    &&& solver.wf()
                    &&& solver.setup.base.tree == tree
                    &&& solver.setup.base.oop_range == oop_range
                    &&& solver.setup.base.ip_range == ip_range
                    &&& solver.setup.allin_oracle is Some == oracle_is_allowed(
                        oracle_limit_mib as int,
                        oop_range.combos_spec().len(),
                        ip_range.combos_spec().len(),
                    )
                    &&& solver.completed_iterations == 0
                    &&& forall|i: int|
                        0 <= i < solver.tables@.len() ==> (#[trigger] solver.tables@[i])@
                            == if chooses(solver.setup.base, solver.setup.states@[i]) {
                            NodeTablesView::<S>::zero(
                                solver.setup.states@[i].children@.len(),
                                solver.setup.base.combos(solver.setup.actor(i)),
                            )
                        } else {
                            NodeTablesView::<S>::zero(0, 0)
                        }
                },
                Err(message) => message@ == "node-local CFR solver must start from a flop board"@,
            },
    {
        let setup: NodeSetup<S> = match NodeSetup::new(tree, oop_range, ip_range, oracle_limit_mib) {
            Ok(setup) => setup,
            Err(message) => return Err(message),
        };
        let oop: usize = setup.base.oop_range.combos().len();
        let ip: usize = setup.base.ip_range.combos().len();
        let mut tables: Vec<NodeTables<S>> = Vec::new();
        for i in 0..setup.states.len()
            invariant
                setup.wf(),
                oop == setup.base.oop().len(),
                ip == setup.base.ip().len(),
                tables@.len() == i,
                forall|j: int|
                    0 <= j < i ==> (#[trigger] tables@[j])@ == if chooses(
                        setup.base,
                        setup.states@[j],
                    ) {
                        NodeTablesView::<S>::zero(
                            setup.states@[j].children@.len(),
                            setup.base.combos(setup.actor(j)),
                        )
                    } else {
                        NodeTablesView::<S>::zero(0, 0)
                    },
                forall|j: int|
                    0 <= j < i && #[trigger] chooses(setup.base, setup.states@[j]) ==> tables@[j]@.sized(
                        setup.states@[j].children@.len(),
                        setup.base.combos(setup.actor(j)),
                    ),
        {
            let ghost was = tables@;
            let state: &GraphState = &setup.states[i];
            proof {
                assert(is_expanded(
                    true,
                    setup.base.tree.nodes@,
                    setup.base.oop(),
                    setup.base.ip(),
                    setup.states@,
                    i as int,
                ));
                assert(is_shaped_at(setup.base.tree.nodes@, state.node_id as int));
            }
            let table: NodeTables<S> = match &setup.base.tree.nodes[state.node_id].kind {
                PublicNodeKind::Decision { player, actions } => {
                    if actions.len() > 1 {
                        NodeTables::zero(
                            actions.len(),
                            match player {
                                Player::Oop => oop,
                                Player::Ip => ip,
                            },
                        )
                    } else {
                        NodeTables::zero(0, 0)
                    }
                },
                _ => NodeTables::zero(0, 0),
            };
            tables.push(table);
            proof {
                assert forall|j: int|
                    0 <= j < i + 1 && #[trigger] chooses(setup.base, setup.states@[j]) implies tables@[j]@.sized(
                    setup.states@[j].children@.len(),
                    setup.base.combos(setup.actor(j)),
                ) by {
                    if j < i {
                        assert(tables@[j] == was[j]);
                    }
                }
            }
        }
        let solver = NodeLocalCfrSolver { setup, tables, completed_iterations: 0 };
        proof {
            let views = table_views(solver.tables@);
            assert forall|j: int|
                0 <= j < views.len() && #[trigger] chooses(
                    solver.setup.base,
                    solver.setup.states@[j],
                ) implies views[j].sized(
                solver.setup.states@[j].children@.len(),
                solver.setup.base.combos(solver.setup.actor(j)),
            ) by {
                assert(views[j] == solver.tables@[j]@);
            }
        }
        Ok(solver)
    }

    /// How large the solver is and how far it has come.
    pub open spec fn sizes(
        self,
        values: ValuesView<S>,
        iterations: u32,
        calls: NodeLocalCalls,
    ) -> NodeLocalCfrSummary<S> {
        NodeLocalCfrSummary {
            iterations,
            states: self.setup.states@.len() as usize,
            decision_states: self.setup.decision_states,
            action_slots: self.setup.action_slots,
            terminal_evals: values.terminal_evals,
            oop_update_pass_value: self.setup.base.root_value(Player::Oop, values),
            ip_update_pass_value: self.setup.base.root_value(Player::Ip, values),
            calls,
        }
    }

    /// How large the tables are, in gibibytes.
    pub fn storage_gib<W: Scalar>(&self) -> (r: W)
        ensures
            r == W::from_count_spec(self.setup.action_slots).times_spec(
                W::from_u32_spec(2),
            ).times_spec(
                W::from_count_spec(vstd::layout::size_of::<S>() as usize),
            ).over_spec(W::from_u32_spec(1073741824)),
    {
        W::from_count(self.setup.action_slots).times(W::from_u32(2)).times(
            W::from_count(core::mem::size_of::<S>()),
        ).over(W::from_u32(1073741824))
    }

    /// How large the solver is and how far it has come.
    pub fn summary(&self) -> (r: NodeLocalCfrSummary<S>)
        ensures
            r.iterations == self.completed_iterations,
            r.states == self.setup.states@.len(),
            r.decision_states == self.setup.decision_states,
            r.action_slots == self.setup.action_slots,
            r.terminal_evals == 0,
            r.oop_update_pass_value == S::zero_spec(),
            r.ip_update_pass_value == S::zero_spec(),
            r.calls == NodeLocalCalls::none_spec(),
    {
        NodeLocalCfrSummary {
            iterations: self.completed_iterations,
            states: self.setup.states.len(),
            decision_states: self.setup.decision_states,
            action_slots: self.setup.action_slots,
            terminal_evals: 0,
            oop_update_pass_value: S::zero(),
            ip_update_pass_value: S::zero(),
            calls: NodeLocalCalls::none(),
        }
    }

    /// What an iteration says of its values.
    pub open spec fn progress(self, values: ValuesView<S>, iteration: u32) -> NodeLocalCfrIterationSummary<
        S,
    > {
        NodeLocalCfrIterationSummary {
            iteration,
            terminal_evals: values.terminal_evals,
            oop_update_pass_value: self.setup.base.root_value(Player::Oop, values),
            ip_update_pass_value: self.setup.base.root_value(Player::Ip, values),
        }
    }

    /// Iterates, and says what each iteration gave. Comparisons of hands go by sweeps, or by prefix sums
    /// that are kept within a pass. How often finished hands are come to is counted if asked for.
    pub fn run_with_progress(
        &mut self,
        config: RealCfrConfig<S>,
        by_prefix: bool,
        profile: bool,
    ) -> (r: Result<(NodeLocalCfrSummary<S>, Vec<NodeLocalCfrIterationSummary<S>>), String>)
        requires
            old(self).wf(),
            old(self).completed_iterations + config.iterations <= u32::MAX,
        ensures
            final(self).wf(),
            final(self).setup == old(self).setup,
            final(self).completed_iterations == old(self).completed_iterations + config.iterations,
            table_views(final(self).tables@) == old(self).setup.passes(
                table_views(old(self).tables@),
                old(self).completed_iterations as int,
                config,
                by_prefix,
                config.iterations as nat,
            ).tables,
            r is Ok,
            r->Ok_0.0 == old(self).sizes(
                old(self).setup.passes(
                    table_views(old(self).tables@),
                    old(self).completed_iterations as int,
                    config,
                    by_prefix,
                    config.iterations as nat,
                ).values,
                final(self).completed_iterations,
                if profile {
                    old(self).setup.run_calls(config.iterations)
                } else {
                    NodeLocalCalls::none_spec()
                },
            ),
            r->Ok_0.1@.len() == config.iterations,
            forall|k: int|
                0 <= k < config.iterations ==> #[trigger] r->Ok_0.1@[k] == old(self).progress(
                    old(self).setup.passes(
                        table_views(old(self).tables@),
                        old(self).completed_iterations as int,
                        config,
                        by_prefix,
                        (k + 1) as nat,
                    ).values,
                    (k + 1) as u32,
                ),
    {
        let ghost start = *self;
        let ghost first = table_views(self.tables@);
        let oop_reach: Vec<S> = combo_weights(self.setup.base.oop_range.combos());
        let ip_reach: Vec<S> = combo_weights(self.setup.base.ip_range.combos());
        let mut root: Values<S> = Values::zero(oop_reach.len(), ip_reach.len());
        let mut progress: Vec<NodeLocalCfrIterationSummary<S>> = Vec::new();
        for k in 0..config.iterations
            invariant
                start.wf(),
                first == table_views(start.tables@),
                start.completed_iterations + config.iterations <= u32::MAX,
                self.wf(),
                self.setup == start.setup,
                self.completed_iterations == start.completed_iterations + k,
                oop_reach@ == weights_of(self.setup.base.oop()),
                ip_reach@ == weights_of(self.setup.base.ip()),
                root@.sized(self.setup.base.oop().len(), self.setup.base.ip().len()),
                root@ == start.setup.passes(
                    first,
                    start.completed_iterations as int,
                    config,
                    by_prefix,
                    k as nat,
                ).values,
                table_views(self.tables@) == start.setup.passes(
                    first,
                    start.completed_iterations as int,
                    config,
                    by_prefix,
                    k as nat,
                ).tables,
                progress@.len() == k,
                forall|j: int|
                    0 <= j < k ==> #[trigger] progress@[j] == start.progress(
                        start.setup.passes(
                            first,
                            start.completed_iterations as int,
                            config,
                            by_prefix,
                            (j + 1) as nat,
                        ).values,
                        (j + 1) as u32,
                    ),
        {
            self.completed_iterations = self.completed_iterations + 1;
            let step: NodeStep<S> = NodeStep {
                weight: S::from_u32(self.completed_iterations),
                variant: config.variant,
                average_strategy: config.average_strategy,
                by_prefix,
            };
            let mut oop_values: TerminalSideValueCache<S> = TerminalSideValueCache::new();
            let mut ip_values: TerminalSideValueCache<S> = TerminalSideValueCache::new();
            let (oop, oop_evals): (Vec<S>, usize) = self.setup.traverse_update_side(
                0,
                Player::Oop,
                &oop_reach,
                &ip_reach,
                &mut self.tables,
                &step,
                &mut oop_values,
            );
            let (ip, ip_evals): (Vec<S>, usize) = self.setup.traverse_update_side(
                0,
                Player::Ip,
                &ip_reach,
                &oop_reach,
                &mut self.tables,
                &step,
                &mut ip_values,
            );
            root = Values { oop, ip, terminal_evals: bounded_sum(oop_evals, ip_evals) };
            let iteration: u32 = k + 1;
            progress.push(
                NodeLocalCfrIterationSummary {
                    iteration,
                    terminal_evals: root.terminal_evals,
                    oop_update_pass_value: self.setup.base.root_average(Player::Oop, &root),
                    ip_update_pass_value: self.setup.base.root_average(Player::Ip, &root),
                },
            );
        }
        let summary = NodeLocalCfrSummary {
            iterations: self.completed_iterations,
            states: self.setup.states.len(),
            decision_states: self.setup.decision_states,
            action_slots: self.setup.action_slots,
            terminal_evals: root.terminal_evals,
            oop_update_pass_value: self.setup.base.root_average(Player::Oop, &root),
            ip_update_pass_value: self.setup.base.root_average(Player::Ip, &root),
            calls: self.setup.profiled_calls(config.iterations, profile),
        };
        Ok((summary, progress))
    }

    /// How far the average strategies are from being unbeatable.
    pub fn exploitability(&self, by_prefix: bool) -> (r: Result<RealCfrExploitability<S>, String>)
        requires
            self.wf(),
        ensures
            r is Ok,
            r->Ok_0 == ({
                let value = |mode: NodeLocalEvaluationMode, player: Player|
                    self.setup.root_evaluation(
                        player,
                        table_views(self.tables@),
                        mode,
                        by_prefix,
                    );
                exploitability_of(
                    value(NodeLocalEvaluationMode::Profile, Player::Oop),
                    value(NodeLocalEvaluationMode::Profile, Player::Ip),
                    value(NodeLocalEvaluationMode::BestResponse, Player::Oop),
                    value(NodeLocalEvaluationMode::BestResponse, Player::Ip),
                )
            }),
    {
        let profile: Values<S> = self.root_values(NodeLocalEvaluationMode::Profile, by_prefix);
        let best: Values<S> = self.root_values(NodeLocalEvaluationMode::BestResponse, by_prefix);
        Ok(
            exploitability_from(
                self.setup.base.root_average(Player::Oop, &profile),
                self.setup.base.root_average(Player::Ip, &profile),
                self.setup.base.root_average(Player::Oop, &best),
                self.setup.base.root_average(Player::Ip, &best),
            ),
        )
    }

    fn root_values(&self, mode: NodeLocalEvaluationMode, by_prefix: bool) -> (r: Values<S>)
        requires
            self.wf(),
        ensures
            r@.sized(self.setup.base.oop().len(), self.setup.base.ip().len()),
            r@.oop == self.setup.node_value(
                0,
                Player::Oop,
                weights_of(self.setup.base.ip()),
                table_views(self.tables@),
                mode,
                by_prefix,
            ),
            r@.ip == self.setup.node_value(
                0,
                Player::Ip,
                weights_of(self.setup.base.oop()),
                table_views(self.tables@),
                mode,
                by_prefix,
            ),
            r@.terminal_evals == 0,
    {
        let oop_reach: Vec<S> = combo_weights(self.setup.base.oop_range.combos());
        let ip_reach: Vec<S> = combo_weights(self.setup.base.ip_range.combos());
        let mut oop_values: TerminalSideValueCache<S> = TerminalSideValueCache::new();
        let (oop, _): (Vec<S>, usize) = self.setup.evaluate_side(
            0,
            Player::Oop,
            &ip_reach,
            &self.tables,
            mode,
            by_prefix,
            &mut oop_values,
        );
        let mut ip_values: TerminalSideValueCache<S> = TerminalSideValueCache::new();
        let (ip, _): (Vec<S>, usize) = self.setup.evaluate_side(
            0,
            Player::Ip,
            &oop_reach,
            &self.tables,
            mode,
            by_prefix,
            &mut ip_values,
        );
        Values { oop, ip, terminal_evals: 0 }
    }

    /// What the solver has learned.
    pub fn solution_snapshot(&self) -> (r: NodeLocalSolutionSnapshot<S>)
        requires
            self.wf(),
        ensures
            r.iterations == self.completed_iterations,
            r.oop_combos@ == self.setup.base.oop(),
            r.ip_combos@ == self.setup.base.ip(),
            r.nodes@.len() == self.setup.states@.len(),
            forall|i: int|
                0 <= i < r.nodes@.len() ==> self.setup.is_solution_node(
                    table_views(self.tables@),
                    i,
                    #[trigger] r.nodes@[i],
                ),
    {
        let mut nodes: Vec<NodeLocalSolutionNode<S>> = Vec::new();
        for i in 0..self.setup.states.len()
            invariant
                self.wf(),
                nodes@.len() == i,
                forall|j: int|
                    0 <= j < i ==> self.setup.is_solution_node(
                        table_views(self.tables@),
                        j,
                        #[trigger] nodes@[j],
                    ),
        {
            nodes.push(self.solution_node(i));
        }
        NodeLocalSolutionSnapshot {
            iterations: self.completed_iterations,
            oop_combos: copied_combos(self.setup.base.oop_range.combos()),
            ip_combos: copied_combos(self.setup.base.ip_range.combos()),
            nodes,
        }
    }

    fn solution_node(&self, i: usize) -> (r: NodeLocalSolutionNode<S>)
        requires
            self.wf(),
            i < self.setup.states@.len(),
        ensures
            self.setup.is_solution_node(table_views(self.tables@), i as int, r),
    {
        let state: &GraphState = &self.setup.states[i];
        proof {
            assert(is_expanded(
                true,
                self.setup.base.tree.nodes@,
                self.setup.base.oop(),
                self.setup.base.ip(),
                self.setup.states@,
                i as int,
            ));
            assert(is_shaped_at(self.setup.base.tree.nodes@, state.node_id as int));
        }
        let public: &PublicNode = &self.setup.base.tree.nodes[state.node_id];
        let mut kind: NodeLocalSolutionNodeKind = NodeLocalSolutionNodeKind::Chance;
        let mut pot: u32 = public.state.pot;
        let mut list: Vec<ActionKind> = Vec::new();
        let mut strategy: Option<NodeLocalStrategySnapshot<S>> = None;
        match &public.kind {
            PublicNodeKind::Decision { player, actions } => {
                kind = NodeLocalSolutionNodeKind::Decision;
                for k in 0..actions.len()
                    invariant
                        list@ =~= actions@.take(k as int),
                {
                    list.push(actions[k]);
                }
                proof {
                    assert(actions@.take(actions@.len() as int) =~= actions@);
                }
                let combos: usize = match player {
                    Player::Oop => self.setup.base.oop_range.combos().len(),
                    Player::Ip => self.setup.base.ip_range.combos().len(),
                };
                let action_major: Vec<S> = if actions.len() == 1 {
                    ones(combos)
                } else {
                    proof {
                        assert(chooses(self.setup.base, self.setup.states@[i as int]));
                        assert(table_views(self.tables@)[i as int] == self.tables@[i as int]@);
                        rows_are_grid(
                            self.tables@[i as int].strategy_sum@,
                            actions@.len(),
                            combos as nat,
                        );
                    }
                    flatten(&average_strategies_action_major(&self.tables[i].strategy_sum, combos))
                };
                strategy =
                Some(
                    NodeLocalStrategySnapshot {
                        player: *player,
                        combos,
                        actions: actions.len(),
                        action_major,
                    },
                );
            },
            PublicNodeKind::Chance(_) => {
                if public.children.len() == 0 {
                    kind = NodeLocalSolutionNodeKind::Terminal { reason: TerminalReason::Showdown };
                    pot = 0;
                }
            },
            PublicNodeKind::Terminal { reason } => {
                kind = NodeLocalSolutionNodeKind::Terminal { reason: *reason };
            },
        }
        let mut children: Vec<usize> = Vec::new();
        for k in 0..state.children.len()
            invariant
                children@ =~= state.children@.take(k as int),
        {
            children.push(state.children[k]);
        }
        proof {
            assert(state.children@.take(state.children@.len() as int) =~= state.children@);
        }
        NodeLocalSolutionNode {
            id: i,
            public_node: state.node_id,
            board: state.board,
            street: public.state.street,
            pot,
            player: public.state.player,
            kind,
            children,
            actions: list,
            strategy,
        }
    }
}

fn ones<S: Scalar>(count: usize) -> (r: Vec<S>)
    ensures
        r@ == Seq::new(count as nat, |c: int| S::one_spec()),
{
    let mut out: Vec<S> = Vec::new();
    for c in 0..count
        invariant
            out@ =~= Seq::new(c as nat, |c: int| S::one_spec()),
    {
        out.push(S::one());
    }
    out
}

fn copied_combos<S: Scalar>(combos: &[ComboWeight<S>]) -> (r: Vec<ComboWeight<S>>)
    ensures
        r@ == combos@,
{
    let mut out: Vec<ComboWeight<S>> = Vec::new();
    for i in 0..combos.len()
        invariant
            out@ =~= combos@.take(i as int),
    {
        out.push(combos[i]);
    }
    proof {
        assert(combos@.take(combos@.len() as int) =~= combos@);
    }
    out
}

} // verus!
