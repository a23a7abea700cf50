//! Runs of a solver in three phases, and how far a solver's strategies are from being unbeatable.
use vstd::prelude::*;
use crate::arith::{bounded, bounded_sum};
use crate::cfr_math::{
    acting_values, average_spec, average_strategies, best_values, combine_acting,
    combine_best_response, combine_nonacting, copy_of, nonacting_values, rows_have, rows_of,
    RealCfrConfig, RealCfrUpdateFactors, RealCfrVariant,
};
use crate::phase_plan::{is_level_plan, BackupLevelPlan};
use crate::phase_reach::{EvaluationMode, ReachTable, Reaches, StrategySource};
use crate::phase_states::{kids, PhaseState};
use crate::real_cfr::{CfrTables, Outcome, TablesView, UpdateRule};
use crate::real_phase::{phase_mode, value_views, PhaseContext};
use crate::real_setup::{infoset_of, RealSetup};
use crate::real_solver::{decisions_below, RealCfrSolver};
use crate::real_terminal::{Values, ValuesView};
use crate::scalar::{ratio, ratio_spec, Scalar};
use crate::tree::{Player, PublicNodeKind};
use crate::tree_shape::is_shaped_at;

verus! {

/// What a run in three phases gave.
#[derive(Clone, Copy, Debug)]
pub struct RealCfrPhaseSummary<S> {
    pub iterations: u32,
    pub states: usize,
    pub decision_nodes: usize,
    pub action_slots: usize,
    pub terminal_evals: usize,
    pub root_oop_value: S,
    pub root_ip_value: S,
}

/// What one iteration in three phases gave.
#[derive(Clone, Copy, Debug)]
pub struct RealCfrPhaseIterationSummary<S> {
    pub iteration: u32,
    pub terminal_evals: usize,
    pub root_oop_value: S,
    pub root_ip_value: S,
}

/// What both strategies give, what the best answers to them give, and how far they are from being
/// unbeatable.
#[derive(Clone, Copy, Debug)]
pub struct RealCfrExploitability<S> {
    pub profile_oop_value: S,
    pub profile_ip_value: S,
    pub oop_best_response_value: S,
    pub ip_best_response_value: S,
    pub oop_gain: S,
    pub ip_gain: S,
    pub nash_conv_chips: S,
    pub exploitability_chips: S,
    pub exploitability_bb_per_100: S,
}

impl<S: Scalar> RealSetup<S> {
    /// What an iteration in three phases starts from.
    pub open spec fn phase_context(
        self,
        states: Seq<PhaseState>,
        tables: TablesView<S>,
        limit: usize,
        use_side_cache: bool,
    ) -> PhaseContext<S> {
        PhaseContext {
            tables,
            reaches: self.reached(
                states,
                tables,
                EvaluationMode::Profile,
                StrategySource::Current,
                true,
                states.len(),
            ),
            limit,
            mode: phase_mode(use_side_cache),
        }
    }

    /// What one iteration in three phases gives.
    pub open spec fn phased_once(
        self,
        states: Seq<PhaseState>,
        tables: TablesView<S>,
        iteration: u32,
        variant: RealCfrVariant<S>,
        limit: usize,
        use_side_cache: bool,
    ) -> Outcome<S> {
        let context = self.phase_context(states, tables, limit, use_side_cache);
        Outcome {
            values: self.backed(states, context, 0),
            tables: self.tables_backed(states, context, phase_rule(iteration, variant)),
        }
    }

    /// What `n` iterations in three phases give.
    pub open spec fn phased(
        self,
        states: Seq<PhaseState>,
        tables: TablesView<S>,
        completed: int,
        variant: RealCfrVariant<S>,
        limit: usize,
        use_side_cache: bool,
        n: nat,
    ) -> Outcome<S>
        decreases n,
    {
        if n == 0 {
            Outcome { values: ValuesView::zero(self.oop().len(), self.ip().len()), tables }
        } else {
            self.phased_once(
                states,
                self.phased(
                    states,
                    tables,
                    completed,
                    variant,
                    limit,
                    use_side_cache,
                    (n - 1) as nat,
                ).tables,
                (completed + n) as u32,
                variant,
                limit,
                use_side_cache,
            )
        }
    }

    /// Whether a state has more actions than can be worked on.
    pub open spec fn has_too_wide(self, states: Seq<PhaseState>) -> bool {
        exists|i: int| 0 <= i < states.len() && #[trigger] self.is_too_wide(states[i])
    }
}

/// How numbers are updated in an iteration in three phases.
pub open spec fn phase_rule<S: Scalar>(iteration: u32, variant: RealCfrVariant<S>) -> UpdateRule<S> {
    UpdateRule::Factors(RealCfrUpdateFactors::of(variant, S::from_u32_spec(iteration)))
}

impl<S: Scalar> RealCfrSolver<S> {
    /// One iteration in three phases: how often states are reached, what finished hands are worth, and
    /// what that makes of all other states. At a state with more actions than can be worked on that is an
    /// error; what was learned before it stays.
    pub fn run_phases_once(
        &mut self,
        states: &Vec<PhaseState>,
        plan: &BackupLevelPlan,
        variant: RealCfrVariant<S>,
        workers: usize,
        sparse_limit: usize,
        use_side_cache: bool,
    ) -> (r: Result<Values<S>, String>)
        requires
            old(self).wf(),
            old(self).setup.is_phase(states@),
            is_level_plan(old(self).setup, states@, *plan),
            old(self).completed_iterations < u32::MAX,
        ensures
            final(self).wf(),
            final(self).setup == old(self).setup,
            final(self).completed_iterations == old(self).completed_iterations + 1,
            match r {
                Ok(root) => {
                    let outcome = old(self).setup.phased_once(
                        states@,
                        old(self).tables@,
                        (old(self).completed_iterations + 1) as u32,
                        variant,
                        sparse_limit,
                        use_side_cache,
                    );
                    &&& root@ == outcome.values
                    &&& final(self).tables@ == outcome.tables
                    &&& root@.sized(old(self).setup.oop().len(), old(self).setup.ip().len())
                },
                Err(message) => exists|i: int| #[trigger]
                    old(self).setup.stops_at(states@, i) && message@ == old(
                        self,
                    ).setup.width_message(states@[i]) && final(self).tables@ == old(
                        self,
                    ).setup.tables_backed_before(
                        states@,
                        old(self).setup.phase_context(
                            states@,
                            old(self).tables@,
                            sparse_limit,
                            use_side_cache,
                        ),
                        phase_rule((old(self).completed_iterations + 1) as u32, variant),
                        i,
                    ),
            },
            r is Ok == !old(self).setup.has_too_wide(states@),
    {
        let reaches: ReachTable<S> = self.setup.forward_reaches(
            states,
            &self.tables,
            EvaluationMode::Profile,
            StrategySource::Current,
            true,
        );
        let mut values: Vec<Values<S>> = self.setup.terminal_phase(
            states,
            &reaches,
            workers,
            sparse_limit,
            use_side_cache,
        );
        self.completed_iterations = self.completed_iterations + 1;
        let rule: UpdateRule<S> = UpdateRule::Factors(
            RealCfrUpdateFactors::new(variant, S::from_u32(self.completed_iterations)),
        );
        let result: Result<usize, String> = self.setup.backup_phase(
            states,
            plan,
            &mut self.tables,
            &reaches,
            &mut values,
            workers,
            rule,
            sparse_limit,
            use_side_cache,
        );
        match result {
            Ok(_) => Ok(values[0].copied()),
            Err(message) => Err(message),
        }
    }

    /// Iterates in three phases, and says what each iteration gave.
    pub fn run_three_phase(
        &mut self,
        config: RealCfrConfig<S>,
        workers: usize,
        sparse_limit: usize,
        use_side_cache: bool,
    ) -> (r: Result<(RealCfrPhaseSummary<S>, Vec<RealCfrPhaseIterationSummary<S>>), String>)
        requires
            old(self).wf(),
            old(self).completed_iterations + config.iterations <= u32::MAX,
        ensures
            final(self).wf(),
            final(self).setup == old(self).setup,
            exists|states: Seq<PhaseState>| #[trigger]
                old(self).setup.is_phase(states) && match r {
                    Ok((summary, progress)) => {
                        let outcome = |n: nat|
                            old(self).setup.phased(
                                states,
                                old(self).tables@,
                                old(self).completed_iterations as int,
                                config.variant,
                                sparse_limit,
                                use_side_cache,
                                n,
                            );
                        &&& config.iterations == 0 || !old(self).setup.has_too_wide(states)
                        &&& final(self).completed_iterations == old(self).completed_iterations
                            + config.iterations
                        &&& final(self).tables@ == outcome(config.iterations as nat).tables
                        &&& summary == old(self).phase_summary(
                            outcome(config.iterations as nat).values,
                            config.iterations,
                            states.len(),
                        )
                        &&& progress@.len() == config.iterations
                        &&& forall|k: int|
                            0 <= k < config.iterations ==> #[trigger] progress@[k] == old(
                                self,
                            ).phase_progress(outcome((k + 1) as nat).values, (k + 1) as u32)
                    },
                    Err(message) => {
                        &&& config.iterations > 0
                        &&& final(self).completed_iterations == old(self).completed_iterations + 1
                        &&& exists|i: int| #[trigger]
                            old(self).setup.stops_at(states, i) && message@ == old(
                                self,
                            ).setup.width_message(states[i]) && final(self).tables@ == old(
                                self,
                            ).setup.tables_backed_before(
                                states,
                                old(self).setup.phase_context(
                                    states,
                                    old(self).tables@,
                                    sparse_limit,
                                    use_side_cache,
                                ),
                                phase_rule(
                                    (old(self).completed_iterations + 1) as u32,
                                    config.variant,
                                ),
                                i,
                            )
                    },
                },
    {
        let ghost start = *self;
        let states: Vec<PhaseState> = self.setup.collect_phase_states();
        let plan: BackupLevelPlan = self.setup.backup_level_plan(&states);
        let mut root: Values<S> = Values::zero(
            self.setup.oop_range.combos().len(),
            self.setup.ip_range.combos().len(),
        );
        let mut progress: Vec<RealCfrPhaseIterationSummary<S>> = Vec::new();
        for k in 0..config.iterations
            invariant
                start == *old(self),
                start.wf(),
                start.completed_iterations + config.iterations <= u32::MAX,
                self.wf(),
                self.setup == start.setup,
                self.completed_iterations == start.completed_iterations + k,
                self.setup.is_phase(states@),
                is_level_plan(self.setup, states@, plan),
                k > 0 ==> !start.setup.has_too_wide(states@),
                root@.sized(self.setup.oop().len(), self.setup.ip().len()),
                root@ == start.setup.phased(
                    states@,
                    start.tables@,
                    start.completed_iterations as int,
                    config.variant,
                    sparse_limit,
                    use_side_cache,
                    k as nat,
                ).values,
                self.tables@ == start.setup.phased(
                    states@,
                    start.tables@,
                    start.completed_iterations as int,
                    config.variant,
                    sparse_limit,
                    use_side_cache,
                    k as nat,
                ).tables,
                progress@.len() == k,
                forall|j: int|
                    0 <= j < k ==> #[trigger] progress@[j] == start.phase_progress(
                        start.setup.phased(
                            states@,
                            start.tables@,
                            start.completed_iterations as int,
                            config.variant,
                            sparse_limit,
                            use_side_cache,
                            (j + 1) as nat,
                        ).values,
                        (j + 1) as u32,
                    ),
        {
            let next: Result<Values<S>, String> = self.run_phases_once(
                &states,
                &plan,
                config.variant,
                workers,
                sparse_limit,
                use_side_cache,
            );
            match next {
                Ok(values) => {
                    root = values;
                },
                Err(message) => {
                    proof {
                        let i = choose|i: int| #[trigger]
                            start.setup.stops_at(states@, i) && message@
                                == start.setup.width_message(states@[i]);
                        assert(start.setup.is_too_wide(states@[i]));
                        assert(start.setup.has_too_wide(states@));
                        assert(start.setup.is_phase(states@));
                    }
                    return Err(message);
                },
            }
            let iteration: u32 = k + 1;
            progress.push(
                RealCfrPhaseIterationSummary {
                    iteration,
                    terminal_evals: root.terminal_evals,
                    root_oop_value: self.setup.root_average(Player::Oop, &root),
                    root_ip_value: self.setup.root_average(Player::Ip, &root),
                },
            );
        }
        let summary = RealCfrPhaseSummary {
            iterations: config.iterations,
            states: states.len(),
            decision_nodes: self.setup.decision_nodes(),
            action_slots: self.setup.action_slots,
            terminal_evals: root.terminal_evals,
            root_oop_value: self.setup.root_average(Player::Oop, &root),
            root_ip_value: self.setup.root_average(Player::Ip, &root),
        };
        proof {
            assert(start.setup.is_phase(states@));
        }
        Ok((summary, progress))
    }

    /// What a run says of the last iteration's values.
    pub open spec fn phase_summary(self, values: ValuesView<S>, iterations: u32, states: nat) -> RealCfrPhaseSummary<
        S,
    > {
        RealCfrPhaseSummary {
            iterations,
            states: states as usize,
            decision_nodes: decisions_below(
                self.setup.infosets@,
                self.setup.infosets@.len(),
            ) as usize,
            action_slots: self.setup.action_slots,
            terminal_evals: values.terminal_evals,
            root_oop_value: self.setup.root_value(Player::Oop, values),
            root_ip_value: self.setup.root_value(Player::Ip, values),
        }
    }

    /// What an iteration says of its values.
    pub open spec fn phase_progress(self, values: ValuesView<S>, iteration: u32) -> RealCfrPhaseIterationSummary<
        S,
    > {
        RealCfrPhaseIterationSummary {
            iteration,
            terminal_evals: values.terminal_evals,
            root_oop_value: self.setup.root_value(Player::Oop, values),
            root_ip_value: self.setup.root_value(Player::Ip, values),
        }
    }
}

impl<S: Scalar> RealSetup<S> {
    /// The average strategy of a state.
    pub open spec fn average_of_state(self, state: PhaseState, tables: TablesView<S>) -> Seq<S> {
        match self.tree.nodes@[state.node_id as int].kind {
            PublicNodeKind::Decision { player, actions } => average_spec(
                self.strategy_row(state, tables, StrategySource::Average),
                self.combos(player) as int,
                actions@.len() as int,
            ),
            _ => Seq::empty(),
        }
    }

    /// The sums of the values of the first `n` states that follow a state.
    pub open spec fn sums_from(self, state: PhaseState, values: Seq<ValuesView<S>>, n: nat) -> ValuesView<S>
        decreases n,
    {
        if n == 0 {
            ValuesView::zero(self.oop().len(), self.ip().len())
        } else {
            let front = self.sums_from(state, values, (n - 1) as nat);
            let below = values[state.children@[n - 1] as int];
            ValuesView {
                oop: Seq::new(
                    front.oop.len(),
                    |c: int| front.oop[c].plus_spec(below.oop[c].times_spec(S::one_spec())),
                ),
                ip: Seq::new(
                    front.ip.len(),
                    |c: int| front.ip[c].plus_spec(below.ip[c].times_spec(S::one_spec())),
                ),
                terminal_evals: bounded(front.terminal_evals + below.terminal_evals) as usize,
            }
        }
    }

    /// The values of a state when average strategies are followed, or one player answers as well as
    /// possible, by the values of what follows.
    pub open spec fn evaluated_from(
        self,
        state: PhaseState,
        tables: TablesView<S>,
        mode: EvaluationMode,
        values: Seq<ValuesView<S>>,
        own: ValuesView<S>,
    ) -> ValuesView<S> {
        let node = self.tree.nodes@[state.node_id as int];
        match node.kind {
            PublicNodeKind::Terminal { reason } => own,
            PublicNodeKind::Chance(chance) => self.sums_from(state, values, state.children@.len()),
            PublicNodeKind::Decision { player, actions } => if actions@.len() == 1 {
                values[state.children@[0] as int]
            } else {
                let rows = self.rows_from(state, values, state.children@.len());
                let strategies = self.average_of_state(state, tables);
                let count = actions@.len() as int;
                ValuesView {
                    oop: if player == Player::Ip {
                        nonacting_values(rows.oop, count, self.oop().len())
                    } else if mode == EvaluationMode::OopBestResponse {
                        best_values(rows.oop, count, self.oop().len())
                    } else {
                        acting_values(rows.oop, strategies, count, self.oop().len())
                    },
                    ip: if player == Player::Oop {
                        nonacting_values(rows.ip, count, self.ip().len())
                    } else if mode == EvaluationMode::IpBestResponse {
                        best_values(rows.ip, count, self.ip().len())
                    } else {
                        acting_values(rows.ip, strategies, count, self.ip().len())
                    },
                    terminal_evals: rows.terminal_evals,
                }
            },
        }
    }

    /// The values from a state on, with those before it as they were, once all from it on are evaluated.
    pub open spec fn evaluated(
        self,
        states: Seq<PhaseState>,
        tables: TablesView<S>,
        mode: EvaluationMode,
        leaves: Seq<ValuesView<S>>,
        from: int,
    ) -> Seq<ValuesView<S>>
        decreases states.len() - from,
    {
        if from >= states.len() {
            leaves
        } else {
            let behind = self.evaluated(states, tables, mode, leaves, from + 1);
            behind.update(
                from,
                self.evaluated_from(states[from], tables, mode, behind, behind[from]),
            )
        }
    }

    /// The values of finished hands, and zero elsewhere.
    pub open spec fn leaves(
        self,
        states: Seq<PhaseState>,
        reaches: Reaches<S>,
        limit: usize,
        use_side_cache: bool,
    ) -> Seq<ValuesView<S>> {
        Seq::new(
            states.len(),
            |i: int|
                if states[i].children@.len() == 0 {
                    self.leaf_value(states, reaches, limit, phase_mode(use_side_cache), i)
                } else {
                    ValuesView::zero(self.oop().len(), self.ip().len())
                },
        )
    }

    /// The values of the root when average strategies are followed, or one player answers as well as
    /// possible.
    pub open spec fn root_evaluated(
        self,
        states: Seq<PhaseState>,
        tables: TablesView<S>,
        mode: EvaluationMode,
        limit: usize,
        use_side_cache: bool,
    ) -> ValuesView<S> {
        let reaches = self.reached(
            states,
            tables,
            mode,
            StrategySource::Average,
            false,
            states.len(),
        );
        self.evaluated(
            states,
            tables,
            mode,
            self.leaves(states, reaches, limit, use_side_cache),
            0,
        )[0]
    }

    /// Evaluates all states from the end on.
    pub fn evaluation_backup_phase(
        &self,
        states: &Vec<PhaseState>,
        tables: &CfrTables<S>,
        mode: EvaluationMode,
        values: &mut Vec<Values<S>>,
    )
        requires
            self.wf(),
            self.is_phase(states@),
            tables@.sized(self.action_slots as nat),
            self.are_sized(states@, old(values)@),
        ensures
            self.are_sized(states@, final(values)@),
            value_views(final(values)@) == self.evaluated(
                states@,
                tables@,
                mode,
                value_views(old(values)@),
                0,
            ),
    {
        let ghost leaves = value_views(values@);
        let mut at: usize = states.len();
        while at > 0
            invariant
                self.wf(),
                self.is_phase(states@),
                tables@.sized(self.action_slots as nat),
                at <= states@.len(),
                self.are_sized(states@, values@),
                value_views(values@) == self.evaluated(states@, tables@, mode, leaves, at as int),
            decreases at,
        {
            at = at - 1;
            let ghost was = values@;
            let ghost views = value_views(values@);
            let value: Values<S> = self.evaluate_state(states, tables, mode, values, at);
            values.set(at, value);
            proof {
                assert(views[at as int] == was[at as int]@);
                assert(value_views(values@) =~= views.update(at as int, values@[at as int]@));
                assert forall|j: int| 0 <= j < values@.len() implies (#[trigger] values@[j])@.sized(
                    self.oop().len(),
                    self.ip().len(),
                ) by {
                    if j != at {
                        assert(values@[j] == was[j]);
                    }
                }
            }
        }
    }

    fn evaluate_state(
        &self,
        states: &Vec<PhaseState>,
        tables: &CfrTables<S>,
        mode: EvaluationMode,
        values: &Vec<Values<S>>,
        i: usize,
    ) -> (r: Values<S>)
        requires
            self.wf(),
            self.is_phase(states@),
            tables@.sized(self.action_slots as nat),
            self.are_sized(states@, values@),
            i < states@.len(),
        ensures
            r@.sized(self.oop().len(), self.ip().len()),
            r@ == self.evaluated_from(
                states@[i as int],
                tables@,
                mode,
                value_views(values@),
                values@[i as int]@,
            ),
    {
        let state: &PhaseState = &states[i];
        let ghost views = value_views(values@);
        proof {
            assert(self.is_phase_state(states@, i as int));
            assert(is_shaped_at(self.tree.nodes@, state.node_id as int));
            assert(values@[i as int]@.sized(self.oop().len(), self.ip().len()));
            assert(kids(states@)[i as int] == state.children@);
            assert forall|k: int| 0 <= k < state.children@.len() implies {
                &&& i < #[trigger] state.children@[k] < states@.len()
                &&& values@[state.children@[k] as int]@.sized(self.oop().len(), self.ip().len())
                &&& views[state.children@[k] as int] == values@[state.children@[k] as int]@
            } by {
                assert(i < kids(states@)[i as int][k] < kids(states@).len());
            }
        }
        match &self.tree.nodes[state.node_id].kind {
            PublicNodeKind::Terminal { reason } => values[i].copied(),
            PublicNodeKind::Chance(_) => {
                let mut out: Values<S> = Values::zero(
                    self.oop_range.combos().len(),
                    self.ip_range.combos().len(),
                );
                for k in 0..state.children.len()
                    invariant
                        *state == states@[i as int],
                        views == value_views(values@),
                        values@.len() == states@.len(),
                        forall|m: int|
                            0 <= m < state.children@.len() ==> {
                                &&& i < #[trigger] state.children@[m] < states@.len()
                                &&& values@[state.children@[m] as int]@.sized(
                                    self.oop().len(),
                                    self.ip().len(),
                                )
                                &&& views[state.children@[m] as int]
                                    == values@[state.children@[m] as int]@
                            },
                        out@.sized(self.oop().len(), self.ip().len()),
                        out@ == self.sums_from(*state, views, k as nat),
                {
                    let child: usize = state.children[k];
                    proof {
                        assert(i < state.children@[k as int] < states@.len());
                    }
                    let ghost was = out@;
                    let ghost goal = self.sums_from(*state, views, (k + 1) as nat);
                    add_scaled(&mut out.oop, &values[child].oop, S::one());
                    add_scaled(&mut out.ip, &values[child].ip, S::one());
                    out.terminal_evals = bounded_sum(out.terminal_evals, values[child].terminal_evals);
                    proof {
                        assert(out@.oop =~= goal.oop);
                        assert(out@.ip =~= goal.ip);
                    }
                }
                out
            },
            PublicNodeKind::Decision { player, actions } => {
                let count: usize = actions.len();
                if count == 1 {
                    proof {
                        assert(i < state.children@[0] < states@.len());
                    }
                    return values[state.children[0]].copied();
                }
                self.evaluate_decision(states, tables, mode, values, i, *player, count)
            },
        }
    }

    fn evaluate_decision(
        &self,
        states: &Vec<PhaseState>,
        tables: &CfrTables<S>,
        mode: EvaluationMode,
        values: &Vec<Values<S>>,
        i: usize,
        player: Player,
        count: usize,
    ) -> (r: Values<S>)
        requires
            self.wf(),
            self.is_phase(states@),
            tables@.sized(self.action_slots as nat),
            self.are_sized(states@, values@),
            i < states@.len(),
            self.tree.nodes@[states@[i as int].node_id as int].kind is Decision,
            self.tree.nodes@[states@[i as int].node_id as int].kind->player == player,
            self.tree.nodes@[states@[i as int].node_id as int].kind->actions@.len() == count,
            count > 1,
        ensures
            r@.sized(self.oop().len(), self.ip().len()),
            r@ == self.evaluated_from(
                states@[i as int],
                tables@,
                mode,
                value_views(values@),
                values@[i as int]@,
            ),
    {
        let state: &PhaseState = &states[i];
        let ghost views = value_views(values@);
        proof {
            assert(self.is_phase_state(states@, i as int));
            assert(is_shaped_at(self.tree.nodes@, state.node_id as int));
            self.knows_has_slot(state.board@);
            assert(self.infosets@[state.node_id as int] == infoset_of(
                self.tree.nodes@,
                self.oop().len(),
                self.ip().len(),
                self.turns().len(),
                self.rivers().len(),
                state.node_id as int,
            ));
            self.row_fits(state.node_id as int, state.board_slot as int);
        }
        let oop_len: usize = self.oop_range.combos().len();
        let ip_len: usize = self.ip_range.combos().len();
        let combos: usize = match player {
            Player::Oop => oop_len,
            Player::Ip => ip_len,
        };
        let (start, row): (usize, usize) = self.row_of(state.node_id, state.board_slot);
        let strategies: Vec<S> = average_strategies(
            vstd::slice::slice_subrange(tables.strategy_sum.as_slice(), start, start + row),
            combos,
            count,
        );
        let mut oop_rows: Vec<Vec<S>> = Vec::new();
        let mut ip_rows: Vec<Vec<S>> = Vec::new();
        let mut terminal_evals: usize = 0;
        proof {
            assert(rows_of(oop_rows@) =~= Seq::<Seq<S>>::empty());
            assert(rows_of(ip_rows@) =~= Seq::<Seq<S>>::empty());
        }
        for k in 0..count
            invariant
                self.is_phase(states@),
                i < states@.len(),
                *state == states@[i as int],
                state.children@.len() == count,
                views == value_views(values@),
                self.are_sized(states@, values@),
                rows_have(oop_rows@, k as int, self.oop().len() as int),
                rows_have(ip_rows@, k as int, self.ip().len() as int),
                ({
                    let rows = self.rows_from(*state, views, k as nat);
                    &&& rows_of(oop_rows@) == rows.oop
                    &&& rows_of(ip_rows@) == rows.ip
                    &&& terminal_evals == rows.terminal_evals
                }),
        {
            let child: usize = state.children[k];
            proof {
                assert(kids(states@)[i as int] == state.children@);
                assert(i < kids(states@)[i as int][k as int] < kids(states@).len());
                assert(values@[child as int]@.sized(self.oop().len(), self.ip().len()));
                assert(views[child as int] == values@[child as int]@);
            }
            let ghost was_oop = rows_of(oop_rows@);
            let ghost was_ip = rows_of(ip_rows@);
            oop_rows.push(copy_of(&values[child].oop));
            ip_rows.push(copy_of(&values[child].ip));
            terminal_evals = bounded_sum(terminal_evals, values[child].terminal_evals);
            proof {
                assert(rows_of(oop_rows@) =~= was_oop.push(values@[child as int]@.oop));
                assert(rows_of(ip_rows@) =~= was_ip.push(values@[child as int]@.ip));
            }
        }
        match player {
            Player::Oop => {
                let oop: Vec<S> = if mode == EvaluationMode::OopBestResponse {
                    combine_best_response(&oop_rows, count, oop_len)
                } else {
                    combine_acting(&oop_rows, &strategies, count, oop_len)
                };
                let ip: Vec<S> = combine_nonacting(&ip_rows, count, ip_len);
                Values { oop, ip, terminal_evals }
            },
            Player::Ip => {
                let ip: Vec<S> = if mode == EvaluationMode::IpBestResponse {
                    combine_best_response(&ip_rows, count, ip_len)
                } else {
                    combine_acting(&ip_rows, &strategies, count, ip_len)
                };
                let oop: Vec<S> = combine_nonacting(&oop_rows, count, oop_len);
                Values { oop, ip, terminal_evals }
            },
        }
    }

    /// The values of the root when average strategies are followed, or one player answers as well as
    /// possible.
    pub fn evaluate_states(
        &self,
        states: &Vec<PhaseState>,
        tables: &CfrTables<S>,
        mode: EvaluationMode,
        workers: usize,
        sparse_limit: usize,
        use_side_cache: bool,
    ) -> (r: Values<S>)
        requires
            self.wf(),
            self.is_phase(states@),
            tables@.sized(self.action_slots as nat),
        ensures
            r@.sized(self.oop().len(), self.ip().len()),
            r@ == self.root_evaluated(states@, tables@, mode, sparse_limit, use_side_cache),
    {
        let reaches: ReachTable<S> = self.forward_reaches(
            states,
            tables,
            mode,
            StrategySource::Average,
            false,
        );
        let mut values: Vec<Values<S>> = self.terminal_phase(
            states,
            &reaches,
            workers,
            sparse_limit,
            use_side_cache,
        );
        proof {
            assert(value_views(values@) =~= self.leaves(
                states@,
                reaches@,
                sparse_limit,
                use_side_cache,
            ));
        }
        self.evaluation_backup_phase(states, tables, mode, &mut values);
        proof {
            assert(value_views(values@)[0] == values@[0]@);
            assert(values@[0]@.sized(self.oop().len(), self.ip().len()));
        }
        values[0].copied()
    }
}

fn add_scaled<S: Scalar>(out: &mut Vec<S>, input: &Vec<S>, scale: S)
    requires
        old(out)@.len() == input@.len(),
    ensures
        final(out)@.len() == old(out)@.len(),
        forall|c: int|
            0 <= c < old(out)@.len() ==> #[trigger] final(out)@[c] == old(out)@[c].plus_spec(
                input@[c].times_spec(scale),
            ),
{
    let ghost before = out@;
    for c in 0..input.len()
        invariant
            before.len() == input@.len(),
            out@.len() == before.len(),
            forall|k: int|
                0 <= k < c ==> #[trigger] out@[k] == before[k].plus_spec(input@[k].times_spec(scale)),
            forall|k: int| c <= k < before.len() ==> #[trigger] out@[k] == before[k],
    {
        let value: S = out[c].plus(input[c].times(scale));
        out.set(c, value);
    }
}

/// How far strategies are from being unbeatable, by what they and the best answers to them give: the two
/// gains, none below zero, their sum, and half of it.
pub open spec fn exploitability_of<S: Scalar>(
    profile_oop: S,
    profile_ip: S,
    oop_best: S,
    ip_best: S,
) -> RealCfrExploitability<S> {
    let oop_gain = oop_best.minus_spec(profile_oop).max_spec(S::zero_spec());
    let ip_gain = ip_best.minus_spec(profile_ip).max_spec(S::zero_spec());
    let nash_conv = oop_gain.plus_spec(ip_gain);
    let half = nash_conv.times_spec(ratio_spec(1, 2));
    RealCfrExploitability {
        profile_oop_value: profile_oop,
        profile_ip_value: profile_ip,
        oop_best_response_value: oop_best,
        ip_best_response_value: ip_best,
        oop_gain,
        ip_gain,
        nash_conv_chips: nash_conv,
        exploitability_chips: half,
        exploitability_bb_per_100: half,
    }
}

/// How far strategies are from being unbeatable.
pub fn exploitability_from<S: Scalar>(profile_oop: S, profile_ip: S, oop_best: S, ip_best: S) -> (r:
    RealCfrExploitability<S>)
    ensures
        r == exploitability_of(profile_oop, profile_ip, oop_best, ip_best),
{
    let oop_gain: S = oop_best.minus(profile_oop).max_of(S::zero());
    let ip_gain: S = ip_best.minus(profile_ip).max_of(S::zero());
    let nash_conv: S = oop_gain.plus(ip_gain);
    let half: S = nash_conv.times(ratio(1, 2));
    RealCfrExploitability {
        profile_oop_value: profile_oop,
        profile_ip_value: profile_ip,
        oop_best_response_value: oop_best,
        ip_best_response_value: ip_best,
        oop_gain,
        ip_gain,
        nash_conv_chips: nash_conv,
        exploitability_chips: half,
        exploitability_bb_per_100: half,
    }
}

impl<S: Scalar> RealCfrSolver<S> {
    /// How far the average strategies are from being unbeatable.
    pub fn exploitability(&self, workers: usize, sparse_limit: usize, use_side_cache: bool) -> (r: Result<
        RealCfrExploitability<S>,
        String,
    >)
        requires
            self.wf(),
        ensures
            r is Ok,
            exists|states: Seq<PhaseState>| #[trigger]
                self.setup.is_phase(states) && r->Ok_0 == ({
                    let value = |mode: EvaluationMode, player: Player|
                        self.setup.root_value(
                            player,
                            self.setup.root_evaluated(
                                states,
                                self.tables@,
                                mode,
                                sparse_limit,
                                use_side_cache,
                            ),
                        );
                    exploitability_of(
                        value(EvaluationMode::Profile, Player::Oop),
                        value(EvaluationMode::Profile, Player::Ip),
                        value(EvaluationMode::OopBestResponse, Player::Oop),
                        value(EvaluationMode::IpBestResponse, Player::Ip),
                    )
                }),
    {
        let states: Vec<PhaseState> = self.setup.collect_phase_states();
        let profile: Values<S> = self.setup.evaluate_states(
            &states,
            &self.tables,
            EvaluationMode::Profile,
            workers,
            sparse_limit,
            use_side_cache,
        );
        let oop_best: Values<S> = self.setup.evaluate_states(
            &states,
            &self.tables,
            EvaluationMode::OopBestResponse,
            workers,
            sparse_limit,
            use_side_cache,
        );
        let ip_best: Values<S> = self.setup.evaluate_states(
            &states,
            &self.tables,
            EvaluationMode::IpBestResponse,
            workers,
            sparse_limit,
            use_side_cache,
        );
        let r: RealCfrExploitability<S> = exploitability_from(
            self.setup.root_average(Player::Oop, &profile),
            self.setup.root_average(Player::Ip, &profile),
            self.setup.root_average(Player::Oop, &oop_best),
            self.setup.root_average(Player::Ip, &ip_best),
        );
        proof {
            assert(self.setup.is_phase(states@));
        }
        Ok(r)
    }
}

} // verus!
