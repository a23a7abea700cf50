//! A solver on a flop: what it knows, what it has learned, and its iterations.
use vstd::prelude::*;
use crate::arith::{bounded, bounded_sum};
use crate::cards::Board;
use crate::cfr_math::{
    average_of, combo_weights, weighted_average, weights_of, zeros, zeros_spec, RealCfrConfig,
    RealCfrVariant,
};
use crate::range::RangeSpec;
use crate::real_cfr::{
    CfrStep, CfrTables, Outcome, SolverCaches, TablesView, UpdateRule, TERMINAL_SPARSE_NONZERO_LIMIT,
};
use crate::real_setup::{is_misplaced, RealInfoset, RealSetup};
use crate::real_terminal::{Values, ValuesView};
use crate::scalar::{sum, sum_spec, Scalar};
use crate::text::around_spec;
use crate::tree::{Player, PublicTree};
use crate::tree_shape::{is_preorder, is_shaped};

verus! {

/// What a run gave.
#[derive(Clone, Copy, Debug)]
pub struct RealCfrSummary<S> {
    pub iterations: u32,
    pub decision_nodes: usize,
    pub action_slots: usize,
    pub terminal_evals: usize,
    pub root_oop_value: S,
    pub root_ip_value: S,
}

/// What one iteration gave.
#[derive(Clone, Copy, Debug)]
pub struct RealCfrIterationSummary<S> {
    pub iteration: u32,
    pub terminal_evals: usize,
    pub root_oop_value: S,
    pub root_ip_value: S,
}

/// A solver on a flop.
#[derive(Clone, Debug)]
pub struct RealCfrSolver<S> {
    pub setup: RealSetup<S>,
    pub tables: CfrTables<S>,
    pub completed_iterations: u32,
}

/// How many of the first `n` nodes have infosets.
pub open spec fn decisions_below(infosets: Seq<Option<RealInfoset>>, n: nat) -> nat
    decreases n,
{
    if n == 0 {
        0
    } else {
        decisions_below(infosets, (n - 1) as nat) + if infosets[n - 1] is Some {
            1nat
        } else {
            0
        }
    }
}

impl<S: Scalar> RealSetup<S> {
    /// The value of the root to a player: the average over the player's hands.
    pub open spec fn root_value(self, player: Player, values: ValuesView<S>) -> S {
        let oop_weight = sum_spec(weights_of(self.oop()));
        let ip_weight = sum_spec(weights_of(self.ip()));
        match player {
            Player::Oop => average_of(values.oop, self.oop(), oop_weight, ip_weight),
            Player::Ip => average_of(values.ip, self.ip(), ip_weight, oop_weight),
        }
    }

    /// The value of the root to a player.
    pub fn root_average(&self, player: Player, values: &Values<S>) -> (r: S)
        requires
            values@.sized(self.oop().len(), self.ip().len()),
        ensures
            r == self.root_value(player, values@),
    {
        let oop_weight: S = sum(combo_weights(self.oop_range.combos()).as_slice());
        let ip_weight: S = sum(combo_weights(self.ip_range.combos()).as_slice());
        match player {
            Player::Oop => weighted_average(
                &values.oop,
                self.oop_range.combos(),
                oop_weight,
                ip_weight,
            ),
            Player::Ip => weighted_average(&values.ip, self.ip_range.combos(), ip_weight, oop_weight),
        }
    }

    /// How many nodes have infosets.
    pub fn decision_nodes(&self) -> (r: usize)
        ensures
            r == decisions_below(self.infosets@, self.infosets@.len()),
    {
        let mut count: usize = 0;
        for i in 0..self.infosets.len()
            invariant
                count == decisions_below(self.infosets@, i as nat),
                count <= i,
        {
            if self.infosets[i].is_some() {
                count = count + 1;
            }
        }
        count
    }

    /// What stays the same in the walk that is the solver's so-and-so-many-th.
    pub open spec fn walk_step(iteration: u32, variant: RealCfrVariant<S>, limit: usize) -> CfrStep<S> {
        CfrStep { rule: UpdateRule::Direct { weight: S::from_u32_spec(iteration), variant }, limit }
    }

    /// What `n` walks from the root give, one after another.
    pub open spec fn walked(
        self,
        tables: TablesView<S>,
        completed: int,
        variant: RealCfrVariant<S>,
        limit: usize,
        n: nat,
    ) -> Outcome<S>
        decreases n,
    {
        if n == 0 {
            Outcome { values: ValuesView::zero(self.oop().len(), self.ip().len()), tables }
        } else {
            self.visit(
                0,
                self.flop_board@,
                weights_of(self.oop()),
                weights_of(self.ip()),
                self.walked(tables, completed, variant, limit, (n - 1) as nat).tables,
                Self::walk_step((completed + n) as u32, variant, limit),
            )
        }
    }
}

impl<S: Scalar> RealCfrSolver<S> {
    /// Whether the tables are as large as the setup calls for.
    pub open spec fn wf(self) -> bool {
        self.setup.wf() && self.tables@.sized(self.setup.action_slots as nat)
    }

    /// How large the tables are, in gibibytes.
    pub fn storage_gib<W: Scalar>(&self) -> (r: W)
        ensures
            r == W::from_count_spec(
                bounded((self.tables@.regrets.len() + self.tables@.sums.len()) as int) as usize,
            ).times_spec(W::from_count_spec(vstd::layout::size_of::<S>() as usize)).over_spec(
                W::from_u32_spec(1073741824),
            ),
    {
        W::from_count(
            bounded_sum(self.tables.regrets.len(), self.tables.strategy_sum.len()),
        ).times(W::from_count(core::mem::size_of::<S>())).over(W::from_u32(1073741824))
    }

    /// A solver that has learned nothing yet.
    pub fn new(tree: PublicTree, oop_range: RangeSpec<S>, ip_range: RangeSpec<S>) -> (r: Result<
        Self,
        String,
    >)
        requires
            tree.spot.board.wf(),
            tree.spot.board@.len() == 3 ==> is_shaped(tree) && is_preorder(tree.nodes@),
            oop_range.wf(),
            ip_range.wf(),
            tree.spot.board@.len() == 3 ==> RealSetup::<S>::slots_needed(
                tree,
                oop_range.combos_spec(),
                ip_range.combos_spec(),
            ) <= usize::MAX,
        ensures
            match r {
                Ok(solver) => {
                    &&& solver.wf()
                    &&& solver.setup.tree == tree
                    &&& solver.setup.oop_range == oop_range
                    &&& solver.setup.ip_range == ip_range
                    &&& solver.tables@.regrets == zeros_spec::<S>(solver.setup.action_slots as nat)
                    &&& solver.tables@.sums == zeros_spec::<S>(solver.setup.action_slots as nat)
                    &&& solver.completed_iterations == 0
                },
                Err(message) => if tree.spot.board@.len() != 3 {
                    message@ == "real CFR solver must start from a flop board"@
                } else {
                    exists|i: int|
                        0 <= i < tree.nodes@.len() && #[trigger] is_misplaced(tree.nodes@[i])
                            && message@ == around_spec(
                            "invalid public board length "@,
                            tree.nodes@[i].state.board@.len(),
                            ""@,
                        ) && forall|j: int| 0 <= j < i ==> !is_misplaced(#[trigger] tree.nodes@[j])
                },
            },
            r is Ok == (tree.spot.board@.len() == 3 && forall|i: int|
                0 <= i < tree.nodes@.len() ==> !is_misplaced(#[trigger] tree.nodes@[i])),
    {
        let setup: RealSetup<S> = match RealSetup::new(tree, oop_range, ip_range) {
            Ok(setup) => setup,
            Err(message) => return Err(message),
        };
        let slots: usize = setup.action_slots;
        Ok(
            RealCfrSolver {
                setup,
                tables: CfrTables { regrets: zeros(slots), strategy_sum: zeros(slots) },
                completed_iterations: 0,
            },
        )
    }

    /// How many regrets there are.
    pub fn regret_len(&self) -> (r: usize)
        ensures
            r == self.tables@.regrets.len(),
    {
        self.tables.regrets.len()
    }

    /// How many strategy sums there are.
    pub fn strategy_sum_len(&self) -> (r: usize)
        ensures
            r == self.tables@.sums.len(),
    {
        self.tables.strategy_sum.len()
    }

    /// Iterates, and says what the last iteration gave.
    pub fn run(&mut self, config: RealCfrConfig<S>) -> (r: Result<RealCfrSummary<S>, String>)
        requires
            old(self).wf(),
            old(self).completed_iterations + config.iterations <= u32::MAX,
        ensures
            final(self).wf(),
            final(self).setup == old(self).setup,
            final(self).completed_iterations == old(self).completed_iterations + config.iterations,
            final(self).tables@ == old(self).setup.walked(
                old(self).tables@,
                old(self).completed_iterations as int,
                config.variant,
                TERMINAL_SPARSE_NONZERO_LIMIT,
                config.iterations as nat,
            ).tables,
            r is Ok,
            r->Ok_0 == old(self).summary(
                old(self).setup.walked(
                    old(self).tables@,
                    old(self).completed_iterations as int,
                    config.variant,
                    TERMINAL_SPARSE_NONZERO_LIMIT,
                    config.iterations as nat,
                ).values,
                config.iterations,
            ),
    {
        match self.run_with_progress(config, TERMINAL_SPARSE_NONZERO_LIMIT) {
            Ok((summary, _)) => Ok(summary),
            Err(message) => Err(message),
        }
    }

    /// What a run of so many iterations says of the last one's values.
    pub open spec fn summary(self, values: ValuesView<S>, iterations: u32) -> RealCfrSummary<S> {
        RealCfrSummary {
            iterations,
            decision_nodes: decisions_below(
                self.setup.infosets@,
                self.setup.infosets@.len(),
            ) as usize,
            action_slots: self.setup.action_slots,
            terminal_evals: values.terminal_evals,
            root_oop_value: self.setup.root_value(Player::Oop, values),
            root_ip_value: self.setup.root_value(Player::Ip, values),
        }
    }

    /// What an iteration says of its values.
    pub open spec fn progress(self, values: ValuesView<S>, iteration: u32) -> RealCfrIterationSummary<S> {
        RealCfrIterationSummary {
            iteration,
            terminal_evals: values.terminal_evals,
            root_oop_value: self.setup.root_value(Player::Oop, values),
            root_ip_value: self.setup.root_value(Player::Ip, values),
        }
    }

    /// Iterates, and says what each iteration gave. Boards with at most so many hands of either player
    /// are evaluated hand by hand.
    pub fn run_with_progress(&mut self, config: RealCfrConfig<S>, sparse_limit: usize) -> (r: Result<
        (RealCfrSummary<S>, Vec<RealCfrIterationSummary<S>>),
        String,
    >)
        requires
            old(self).wf(),
            old(self).completed_iterations + config.iterations <= u32::MAX,
        ensures
            final(self).wf(),
            final(self).setup == old(self).setup,
            final(self).completed_iterations == old(self).completed_iterations + config.iterations,
            final(self).tables@ == old(self).setup.walked(
                old(self).tables@,
                old(self).completed_iterations as int,
                config.variant,
                sparse_limit,
                config.iterations as nat,
            ).tables,
            r is Ok,
            r->Ok_0.0 == old(self).summary(
                old(self).setup.walked(
                    old(self).tables@,
                    old(self).completed_iterations as int,
                    config.variant,
                    sparse_limit,
                    config.iterations as nat,
                ).values,
                config.iterations,
            ),
            r->Ok_0.1@.len() == config.iterations,
            forall|k: int|
                0 <= k < config.iterations ==> #[trigger] r->Ok_0.1@[k] == old(self).progress(
                    old(self).setup.walked(
                        old(self).tables@,
                        old(self).completed_iterations as int,
                        config.variant,
                        sparse_limit,
                        (k + 1) as nat,
                    ).values,
                    (k + 1) as u32,
                ),
    {
        let ghost start = *self;
        let oop_reach: Vec<S> = combo_weights(self.setup.oop_range.combos());
        let ip_reach: Vec<S> = combo_weights(self.setup.ip_range.combos());
        let board: Board = self.setup.flop_board;
        let mut root: Values<S> = Values::zero(oop_reach.len(), ip_reach.len());
        let mut caches: SolverCaches<S> = SolverCaches::new();
        let mut progress: Vec<RealCfrIterationSummary<S>> = Vec::new();
        proof {
            assert(caches.holds(self.setup));
        }
        for k in 0..config.iterations
            invariant
                start.wf(),
                start.completed_iterations + config.iterations <= u32::MAX,
                self.wf(),
                self.setup == start.setup,
                self.completed_iterations == start.completed_iterations + k,
                oop_reach@ == weights_of(self.setup.oop()),
                ip_reach@ == weights_of(self.setup.ip()),
                board == self.setup.flop_board,
                caches.holds(self.setup),
                root@.sized(self.setup.oop().len(), self.setup.ip().len()),
                root@ == start.setup.walked(
                    start.tables@,
                    start.completed_iterations as int,
                    config.variant,
                    sparse_limit,
                    k as nat,
                ).values,
                self.tables@ == start.setup.walked(
                    start.tables@,
                    start.completed_iterations as int,
                    config.variant,
                    sparse_limit,
                    k as nat,
                ).tables,
                progress@.len() == k,
                forall|j: int|
                    0 <= j < k ==> #[trigger] progress@[j] == start.progress(
                        start.setup.walked(
                            start.tables@,
                            start.completed_iterations as int,
                            config.variant,
                            sparse_limit,
                            (j + 1) as nat,
                        ).values,
                        (j + 1) as u32,
                    ),
        {
            self.completed_iterations = self.completed_iterations + 1;
            let step: CfrStep<S> = CfrStep {
                rule: UpdateRule::Direct {
                    weight: S::from_u32(self.completed_iterations),
                    variant: config.variant,
                },
                limit: sparse_limit,
            };
            root =
            self.setup.traverse(
                &mut self.tables,
                0,
                &board,
                &oop_reach,
                &ip_reach,
                &step,
                &mut caches,
            );
            let iteration: u32 = k + 1;
            progress.push(
                RealCfrIterationSummary {
                    iteration,
                    terminal_evals: root.terminal_evals,
                    root_oop_value: self.setup.root_average(Player::Oop, &root),
                    root_ip_value: self.setup.root_average(Player::Ip, &root),
                },
            );
        }
        let summary = RealCfrSummary {
            iterations: config.iterations,
            decision_nodes: self.setup.decision_nodes(),
            action_slots: self.setup.action_slots,
            terminal_evals: root.terminal_evals,
            root_oop_value: self.setup.root_average(Player::Oop, &root),
            root_ip_value: self.setup.root_average(Player::Ip, &root),
        };
        Ok((summary, progress))
    }
}

} // verus!
