//! One iteration in three phases over all states: how often they are reached, what finished hands are
//! worth, and what that makes of all other states.
use vstd::prelude::*;
use crate::arith::{bounded, bounded_sum, lesser};
use crate::cards::deck_without;
use crate::cfr_math::{
    acting_values, combine_acting, combine_nonacting, copy_of, current_spec, current_strategies,
    nonacting_values, rows_have, rows_of,
};
use crate::isomorphism::{class_facts, is_symmetry, next_card_classes};
use crate::boards::member_codes;
use crate::parallel::{effective_worker_count, map_in_parallel};
use crate::phase_plan::{
    are_chunks, chunk_length, covers, first_terminal_state_index, is_chunk, is_level_plan,
    is_level_run, parts, terminal_phase_partitions, BackupChunk, BackupLevelPlan, BackupRun,
};
use crate::phase_reach::{ReachTable, Reaches, StrategySource};
use crate::phase_states::{compares, goes_on, kids, level, level_facts, PhaseState};
use crate::real_cfr::{
    cell_updated, codes_added, row_updated, CfrTables, TablesView, UpdateRule,
};
use crate::real_setup::{infoset_of, RealSetup};
use crate::real_terminal::{
    ref_views, TerminalMode, TerminalWorkerProfile, Values, ValuesView,
};
use crate::scalar::Scalar;
use crate::side_cache::{hashed_keys, SideAsked, TerminalSideCacheKey, TerminalSideValueCache};
use crate::text::{around, around_spec};
use crate::tree::{Player, PublicNode, PublicNodeKind, TerminalReason};
use crate::tree_shape::is_shaped_at;

verus! {

/// How many actions a state can have, at most.
pub const BACKUP_ACTION_LIMIT: usize = 8;

/// What stays the same while states are worked on: the tables as they were, and the reaches.
pub ghost struct PhaseContext<S> {
    pub tables: TablesView<S>,
    pub reaches: Reaches<S>,
    pub limit: usize,
    pub mode: TerminalMode,
}

/// The values of the first states that follow a state.
pub ghost struct PhaseRows<S> {
    pub oop: Seq<Seq<S>>,
    pub ip: Seq<Seq<S>>,
    pub terminal_evals: usize,
}

impl<S> PhaseRows<S> {
    /// The values to a player.
    pub open spec fn side(self, player: Player) -> Seq<Seq<S>> {
        match player {
            Player::Oop => self.oop,
            Player::Ip => self.ip,
        }
    }
}

/// A count with another added so many times.
pub open spec fn added_times(start: usize, more: usize, n: nat) -> usize
    decreases n,
{
    if n == 0 {
        start
    } else {
        bounded(added_times(start, more, (n - 1) as nat) + more) as usize
    }
}

impl<S: Scalar> RealSetup<S> {
    /// The values of a state that nothing follows.
    pub open spec fn leaf_value(
        self,
        states: Seq<PhaseState>,
        reaches: Reaches<S>,
        limit: usize,
        mode: TerminalMode,
        i: int,
    ) -> ValuesView<S> {
        let node = self.tree.nodes@[states[i].node_id as int];
        match node.kind {
            PublicNodeKind::Terminal { reason } => self.terminal_spec(
                node,
                reason,
                states[i].board@,
                reaches.oop[i],
                reaches.ip[i],
                limit,
                mode,
            ),
            _ => ValuesView::zero(self.oop().len(), self.ip().len()),
        }
    }

    /// The current strategy of a state.
    pub open spec fn state_strategies(self, state: PhaseState, tables: TablesView<S>) -> Seq<S> {
        match self.tree.nodes@[state.node_id as int].kind {
            PublicNodeKind::Decision { player, actions } => current_spec(
                self.strategy_row(state, tables, StrategySource::Current),
                self.combos(player) as int,
                actions@.len() as int,
            ),
            _ => Seq::empty(),
        }
    }

    /// The values of a state: of a finished hand as it is evaluated, at a chance node the average over the
    /// cards to come, at a decision node the actions' values by the current strategy.
    pub open spec fn backed(self, states: Seq<PhaseState>, context: PhaseContext<S>, i: int) -> ValuesView<S>
        decreases states.len() - i, 1int, 0int,
    {
        let state = states[i];
        let count = state.children@.len();
        if count == 0 {
            self.leaf_value(states, context.reaches, context.limit, context.mode, i)
        } else {
            match self.tree.nodes@[state.node_id as int].kind {
                PublicNodeKind::Decision { player, actions } => if actions@.len() == 1 {
                    let child = state.children@[0] as int;
                    if i < child < states.len() {
                        self.backed(states, context, child)
                    } else {
                        ValuesView::zero(self.oop().len(), self.ip().len())
                    }
                } else {
                    self.weighed(
                        player,
                        actions@.len(),
                        self.state_strategies(state, context.tables),
                        self.backed_rows(states, context, i, count),
                    )
                },
                _ => self.backed_cards(states, context, i, count),
            }
        }
    }

    /// The values of a decision by those of its actions.
    pub open spec fn weighed(
        self,
        player: Player,
        actions: nat,
        strategies: Seq<S>,
        rows: PhaseRows<S>,
    ) -> ValuesView<S> {
        match player {
            Player::Oop => ValuesView {
                oop: acting_values(rows.oop, strategies, actions as int, self.oop().len()),
                ip: nonacting_values(rows.ip, actions as int, self.ip().len()),
                terminal_evals: rows.terminal_evals,
            },
            Player::Ip => ValuesView {
                oop: nonacting_values(rows.oop, actions as int, self.oop().len()),
                ip: acting_values(rows.ip, strategies, actions as int, self.ip().len()),
                terminal_evals: rows.terminal_evals,
            },
        }
    }

    /// The values of the first `n` states that follow a state.
    pub open spec fn backed_rows(
        self,
        states: Seq<PhaseState>,
        context: PhaseContext<S>,
        i: int,
        n: nat,
    ) -> PhaseRows<S>
        decreases states.len() - i, 0int, n,
    {
        if n == 0 {
            PhaseRows { oop: Seq::empty(), ip: Seq::empty(), terminal_evals: 0 }
        } else {
            let front = self.backed_rows(states, context, i, (n - 1) as nat);
            let child = states[i].children@[n - 1] as int;
            if i < child < states.len() {
                let below = self.backed(states, context, child);
                PhaseRows {
                    oop: front.oop.push(below.oop),
                    ip: front.ip.push(below.ip),
                    terminal_evals: bounded(front.terminal_evals + below.terminal_evals) as usize,
                }
            } else {
                front
            }
        }
    }

    /// The average over the first `n` classes of cards to come.
    pub open spec fn backed_cards(
        self,
        states: Seq<PhaseState>,
        context: PhaseContext<S>,
        i: int,
        n: nat,
    ) -> ValuesView<S>
        decreases states.len() - i, 0int, n,
    {
        if n == 0 {
            ValuesView::zero(self.oop().len(), self.ip().len())
        } else {
            let front = self.backed_cards(states, context, i, (n - 1) as nat);
            let child = states[i].children@[n - 1] as int;
            if i < child < states.len() {
                let below = self.backed(states, context, child);
                let codes = states[i].chance_member_permutation_codes@[n - 1]@;
                let weight = S::one_spec().over_spec(
                    S::from_count_spec(states[i].chance_concrete_events),
                );
                ValuesView {
                    oop: codes_added(
                        front.oop,
                        below.oop,
                        self.combo_permutations,
                        Player::Oop,
                        codes,
                        weight,
                        codes.len(),
                    ),
                    ip: codes_added(
                        front.ip,
                        below.ip,
                        self.combo_permutations,
                        Player::Ip,
                        codes,
                        weight,
                        codes.len(),
                    ),
                    terminal_evals: added_times(
                        front.terminal_evals,
                        below.terminal_evals,
                        codes.len(),
                    ),
                }
            } else {
                front
            }
        }
    }

    /// Whether a number belongs to a state.
    pub open spec fn owns(self, states: Seq<PhaseState>, i: int, slot: int) -> bool {
        match self.slot_range(states[i]) {
            Some((start, end)) => start <= slot < end,
            None => false,
        }
    }

    /// A number of a state after its update.
    pub open spec fn cell_backed(
        self,
        states: Seq<PhaseState>,
        context: PhaseContext<S>,
        rule: UpdateRule<S>,
        i: int,
        slot: int,
    ) -> (S, S) {
        let state = states[i];
        let player = self.tree.nodes@[state.node_id as int].kind->player;
        cell_updated(
            context.tables,
            self.row_start(state.node_id as int, state.board_slot as int),
            self.tree.nodes@[state.node_id as int].kind->actions@.len() as int,
            self.state_strategies(state, context.tables),
            self.backed(states, context, i).side(player),
            self.backed_rows(states, context, i, state.children@.len()).side(player),
            match player {
                Player::Oop => context.reaches.oop[i],
                Player::Ip => context.reaches.ip[i],
            },
            rule,
            slot,
        )
    }

    /// The state to which a number belongs, if any.
    pub open spec fn owner(self, states: Seq<PhaseState>, slot: int) -> Option<int> {
        if exists|i: int| 0 <= i < states.len() && #[trigger] self.owns(states, i, slot) {
            Some(choose|i: int| 0 <= i < states.len() && #[trigger] self.owns(states, i, slot))
        } else {
            None
        }
    }

    /// The tables after an iteration: every number that belongs to a state is updated once.
    pub open spec fn tables_backed(
        self,
        states: Seq<PhaseState>,
        context: PhaseContext<S>,
        rule: UpdateRule<S>,
    ) -> TablesView<S> {
        TablesView {
            regrets: Seq::new(
                context.tables.regrets.len(),
                |slot: int|
                    match self.owner(states, slot) {
                        Some(i) => self.cell_backed(states, context, rule, i, slot).0,
                        None => context.tables.regrets[slot],
                    },
            ),
            sums: Seq::new(
                context.tables.sums.len(),
                |slot: int|
                    match self.owner(states, slot) {
                        Some(i) => self.cell_backed(states, context, rule, i, slot).1,
                        None => context.tables.sums[slot],
                    },
            ),
        }
    }

    /// Whether a state is worked out before another: it stands at a lower level, or before it at the same.
    pub open spec fn is_worked_before(self, states: Seq<PhaseState>, j: int, i: int) -> bool {
        level(kids(states), j) < level(kids(states), i) || (level(kids(states), j) == level(
            kids(states),
            i,
        ) && j < i)
    }

    /// The tables when an iteration comes to a state: the numbers of the states that are worked out before
    /// it are updated, all others are as they were.
    pub open spec fn tables_backed_before(
        self,
        states: Seq<PhaseState>,
        context: PhaseContext<S>,
        rule: UpdateRule<S>,
        at: int,
    ) -> TablesView<S> {
        TablesView {
            regrets: Seq::new(
                context.tables.regrets.len(),
                |slot: int|
                    match self.owner(states, slot) {
                        Some(i) => if self.is_worked_before(states, i, at) {
                            self.cell_backed(states, context, rule, i, slot).0
                        } else {
                            context.tables.regrets[slot]
                        },
                        None => context.tables.regrets[slot],
                    },
            ),
            sums: Seq::new(
                context.tables.sums.len(),
                |slot: int|
                    match self.owner(states, slot) {
                        Some(i) => if self.is_worked_before(states, i, at) {
                            self.cell_backed(states, context, rule, i, slot).1
                        } else {
                            context.tables.sums[slot]
                        },
                        None => context.tables.sums[slot],
                    },
            ),
        }
    }

    /// Whether an iteration stops at a state: it is the first to be worked out that has more actions than
    /// can be worked on.
    pub open spec fn stops_at(self, states: Seq<PhaseState>, i: int) -> bool {
        &&& 0 <= i < states.len()
        &&& self.is_too_wide(states[i])
        &&& forall|j: int|
            0 <= j < states.len() && self.is_worked_before(states, j, i) ==> !self.is_too_wide(
                #[trigger] states[j],
            )
    }

    /// What is said of a state with more actions than can be worked on.
    pub open spec fn width_message(self, state: PhaseState) -> Seq<char> {
        around_spec(
            "real CFR backup supports at most 8 actions per node, got "@,
            self.infosets@[state.node_id as int]->Some_0.actions as nat,
            ""@,
        )
    }

    /// A number belongs to one state only.
    pub proof fn number_has_one_owner(self, states: Seq<PhaseState>, i: int, slot: int)
        requires
            self.wf(),
            self.is_phase(states),
            0 <= i < states.len(),
            self.owns(states, i, slot),
        ensures
            self.owner(states, slot) == Some(i),
    {
        let j = choose|j: int| 0 <= j < states.len() && #[trigger] self.owns(states, j, slot);
        if i != j {
            self.rows_apart(states, i, j);
        }
    }

    /// What was done for the states from one place to another.
    pub open spec fn worker_profile(
        self,
        states: Seq<PhaseState>,
        reaches: Reaches<S>,
        limit: usize,
        mode: TerminalMode,
        start: int,
        end: int,
    ) -> TerminalWorkerProfile
        decreases end - start,
    {
        if start >= end {
            TerminalWorkerProfile::none_spec()
        } else {
            let front = self.worker_profile(states, reaches, limit, mode, start, end - 1);
            let counted = TerminalWorkerProfile {
                terminal_states: bounded(front.terminal_states + 1) as usize,
                ..front
            };
            let i = end - 1;
            match self.tree.nodes@[states[i].node_id as int].kind {
                PublicNodeKind::Terminal { reason } => if reason == TerminalReason::Fold {
                    TerminalWorkerProfile {
                        fold_states: bounded(front.fold_states + 1) as usize,
                        ..counted
                    }
                } else {
                    let refs = ref_views(states[i].terminal_cache_refs@);
                    self.refs_profiled(
                        counted,
                        refs,
                        reaches.oop[i],
                        reaches.ip[i],
                        limit,
                        mode,
                        refs.len(),
                    )
                },
                _ => front,
            }
        }
    }

    /// What a cache was asked for after the states from one place to another.
    pub open spec fn worker_asked(
        self,
        states: Seq<PhaseState>,
        reaches: Reaches<S>,
        mode: TerminalMode,
        start: int,
        end: int,
    ) -> SideAsked
        decreases end - start,
    {
        if start >= end {
            SideAsked::none()
        } else {
            let front = self.worker_asked(states, reaches, mode, start, end - 1);
            let i = end - 1;
            match self.tree.nodes@[states[i].node_id as int].kind {
                PublicNodeKind::Terminal { reason } => if reason == TerminalReason::Fold {
                    front
                } else {
                    let refs = ref_views(states[i].terminal_cache_refs@);
                    self.refs_asked(front, refs, reaches.oop[i], reaches.ip[i], mode, refs.len())
                },
                _ => front,
            }
        }
    }

    /// A cache misses once for each thing that it is asked for.
    pub proof fn misses_are_new_keys(
        self,
        states: Seq<PhaseState>,
        reaches: Reaches<S>,
        mode: TerminalMode,
        start: int,
        end: int,
    )
        ensures
            self.worker_asked(states, reaches, mode, start, end).misses == bounded(
                self.worker_asked(states, reaches, mode, start, end).keys.len() as int,
            ),
        decreases end - start,
    {
        if start < end {
            self.misses_are_new_keys(states, reaches, mode, start, end - 1);
            let i = end - 1;
            let refs = ref_views(states[i].terminal_cache_refs@);
            self.lemma_misses(
                self.worker_asked(states, reaches, mode, start, end - 1),
                refs,
                reaches.oop[i],
                reaches.ip[i],
                mode,
                refs.len(),
            );
        }
    }

    /// What a worker did for the states from one place to another.
    pub open spec fn worker_report(
        self,
        worker_index: usize,
        states: Seq<PhaseState>,
        reaches: Reaches<S>,
        limit: usize,
        mode: TerminalMode,
        start: int,
        end: int,
    ) -> TerminalWorkerProfile {
        let asked = self.worker_asked(states, reaches, mode, start, end);
        TerminalWorkerProfile {
            worker_index,
            side_cache_hits: asked.hits as usize,
            side_cache_misses: asked.misses as usize,
            output_states: (end - start) as usize,
            ..self.worker_profile(states, reaches, limit, mode, start, end)
        }
    }

    /// Evaluates the finished hands from one place to another, with or without a cache of its own.
    pub fn terminal_phase_worker(
        &self,
        worker_index: usize,
        states: &Vec<PhaseState>,
        reaches: &ReachTable<S>,
        start: usize,
        end: usize,
        limit: usize,
        use_side_cache: bool,
    ) -> (r: (Vec<Values<S>>, TerminalWorkerProfile, Vec<TerminalSideCacheKey>))
        requires
            self.wf(),
            self.is_phase(states@),
            start <= end <= states@.len(),
            reaches@.sized(states@.len(), self.oop().len(), self.ip().len()),
        ensures
            r.0@.len() == end - start,
            forall|k: int|
                0 <= k < r.0@.len() ==> (#[trigger] r.0@[k])@ == self.leaf_value(
                    states@,
                    reaches@,
                    limit,
                    phase_mode(use_side_cache),
                    start + k,
                ) && r.0@[k]@.sized(self.oop().len(), self.ip().len()),
            r.1 == self.worker_report(
                worker_index,
                states@,
                reaches@,
                limit,
                phase_mode(use_side_cache),
                start as int,
                end as int,
            ),
            r.2@ == hashed_keys(
                self.worker_asked(
                    states@,
                    reaches@,
                    phase_mode(use_side_cache),
                    start as int,
                    end as int,
                ).keys,
            ),
    {
        let mode: TerminalMode = if use_side_cache {
            TerminalMode::PhaseCached
        } else {
            TerminalMode::PhaseDirect
        };
        let oop_len: usize = self.oop_range.combos().len();
        let ip_len: usize = self.ip_range.combos().len();
        let mut side_cache: TerminalSideValueCache<S> = TerminalSideValueCache::new();
        let mut profile: TerminalWorkerProfile = TerminalWorkerProfile::none();
        let mut values: Vec<Values<S>> = Vec::new();
        proof {
            assert(side_cache.holds(self.terminal_cache@));
        }
        let mut i: usize = start;
        while i < end
            invariant
                self.wf(),
                self.is_phase(states@),
                start <= i <= end <= states@.len(),
                reaches@.sized(states@.len(), self.oop().len(), self.ip().len()),
                mode == phase_mode(use_side_cache),
                oop_len == self.oop().len(),
                ip_len == self.ip().len(),
                side_cache.holds(self.terminal_cache@),
                side_cache.asked() == self.worker_asked(
                    states@,
                    reaches@,
                    mode,
                    start as int,
                    i as int,
                ),
                values@.len() == i - start,
                forall|k: int|
                    0 <= k < values@.len() ==> (#[trigger] values@[k])@ == self.leaf_value(
                        states@,
                        reaches@,
                        limit,
                        mode,
                        start + k,
                    ) && values@[k]@.sized(self.oop().len(), self.ip().len()),
                profile == self.worker_profile(
                    states@,
                    reaches@,
                    limit,
                    mode,
                    start as int,
                    i as int,
                ),
            decreases end - i,
        {
            let state: &PhaseState = &states[i];
            proof {
                assert(self.is_phase_state(states@, i as int));
                assert(reaches@.oop[i as int] == reaches.oop@[i as int]@);
                assert(reaches@.ip[i as int] == reaches.ip@[i as int]@);
                assert(reaches@.oop[i as int].len() == self.oop().len());
                assert(reaches@.ip[i as int].len() == self.ip().len());
            }
            let node: &PublicNode = &self.tree.nodes[state.node_id];
            let value: Values<S> = match &node.kind {
                PublicNodeKind::Terminal { reason } => match reason {
                    TerminalReason::Fold => {
                        profile.terminal_states = bounded_sum(profile.terminal_states, 1);
                        profile.fold_states = bounded_sum(profile.fold_states, 1);
                        self.fold_values(
                            &state.board,
                            node.state.pot,
                            node.state.player,
                            &reaches.oop[i],
                            &reaches.ip[i],
                        )
                    },
                    _ => {
                        profile.terminal_states = bounded_sum(profile.terminal_states, 1);
                        proof {
                            self.known_refs_are_held(state.board);
                            assert(compares(self.tree.nodes@[state.node_id as int]));
                        }
                        self.showdown_values(
                            &state.terminal_cache_refs,
                            &reaches.oop[i],
                            &reaches.ip[i],
                            node.state.pot,
                            limit,
                            mode,
                            &mut side_cache,
                            &mut profile,
                        )
                    },
                },
                _ => Values::zero(oop_len, ip_len),
            };
            let ghost was = values@;
            values.push(value);
            proof {
                assert forall|k: int| 0 <= k < values@.len() implies (#[trigger] values@[k])@
                    == self.leaf_value(states@, reaches@, limit, mode, start + k)
                    && values@[k]@.sized(self.oop().len(), self.ip().len()) by {
                    if k < was.len() {
                        assert(values@[k] == was[k]);
                    }
                }
            }
            i = i + 1;
        }
        profile.worker_index = worker_index;
        profile.side_cache_hits = side_cache.hits;
        profile.side_cache_misses = side_cache.misses;
        profile.output_states = end - start;
        let keys: Vec<TerminalSideCacheKey> = side_cache.keys();
        (values, profile, keys)
    }

    /// Whether a list holds the values of the finished hands of one part.
    pub open spec fn is_part(
        self,
        states: Seq<PhaseState>,
        reaches: Reaches<S>,
        limit: usize,
        mode: TerminalMode,
        part: (usize, usize),
        list: Vec<Values<S>>,
    ) -> bool {
        &&& list@.len() == part.1 - part.0
        &&& forall|k: int|
            0 <= k < list@.len() ==> (#[trigger] list@[k])@ == self.leaf_value(
                states,
                reaches,
                limit,
                mode,
                part.0 + k,
            ) && list@[k]@.sized(self.oop().len(), self.ip().len())
    }

    /// Evaluates all finished hands, the parts of them in parallel.
    pub fn terminal_phase(
        &self,
        states: &Vec<PhaseState>,
        reaches: &ReachTable<S>,
        threads: usize,
        limit: usize,
        use_side_cache: bool,
    ) -> (r: Vec<Values<S>>)
        requires
            self.wf(),
            self.is_phase(states@),
            reaches@.sized(states@.len(), self.oop().len(), self.ip().len()),
        ensures
            self.are_sized(states@, r@),
            forall|i: int|
                0 <= i < states@.len() ==> (#[trigger] r@[i])@ == (if states@[i].children@.len() == 0 {
                    self.leaf_value(states@, reaches@, limit, phase_mode(use_side_cache), i)
                } else {
                    ValuesView::zero(self.oop().len(), self.ip().len())
                }),
    {
        let count: usize = states.len();
        let oop_len: usize = self.oop_range.combos().len();
        let ip_len: usize = self.ip_range.combos().len();
        let terminal_start: usize = first_terminal_state_index(states);
        let mut values: Vec<Values<S>> = Vec::new();
        for i in 0..terminal_start
            invariant
                oop_len == self.oop().len(),
                ip_len == self.ip().len(),
                values@.len() == i,
                forall|k: int|
                    0 <= k < i ==> (#[trigger] values@[k])@ == ValuesView::<S>::zero(
                        self.oop().len(),
                        self.ip().len(),
                    ),
        {
            values.push(Values::zero(oop_len, ip_len));
        }
        let workers: usize = effective_worker_count(threads);
        let parts: Vec<(usize, usize)> = terminal_phase_partitions(states, terminal_start, workers);
        let ghost mode = phase_mode(use_side_cache);
        proof {
            assert(parts@.skip(0) =~= parts@);
            assert forall|i: int| terminal_start <= i < count implies (
            #[trigger] states@[i]).children@.len() == 0 by {
                self.levels_descend(states@, terminal_start as int, i);
                level_facts(kids(states@), terminal_start as int);
                level_facts(kids(states@), i);
                assert(kids(states@)[terminal_start as int].len() == 0);
                assert(kids(states@)[i] == states@[i].children@);
            }
        }
        let ghost all = parts@;
        proof {
            assert forall|p: int| 0 <= p < all.len() implies (#[trigger] all[p]).0 <= all[p].1
                <= count by {
                lemma_covers_inside(all, terminal_start as int, count as int, p);
            }
        }
        let work = |part: (usize, usize)| -> (done: Vec<Values<S>>)
            requires
                part.0 <= part.1 <= states@.len(),
            ensures
                self.is_part(states@, reaches@, limit, mode, part, done),
            {
                self.terminal_phase_worker(
                    0,
                    states,
                    reaches,
                    part.0,
                    part.1,
                    limit,
                    use_side_cache,
                ).0
            };
        let mut lists: Vec<Vec<Values<S>>> = map_in_parallel(parts, work);
        let list_count: usize = lists.len();
        for p in 0..list_count
            invariant
                mode == phase_mode(use_side_cache),
                count == states@.len(),
                lists@.len() == list_count == all.len(),
                forall|i: int|
                    p <= i < all.len() ==> self.is_part(
                        states@,
                        reaches@,
                        limit,
                        mode,
                        all[i],
                        #[trigger] lists@[i],
                    ),
                terminal_start <= values@.len() <= count,
                covers(all.skip(p as int), values@.len() as int, count as int),
                forall|i: int|
                    0 <= i < terminal_start ==> (#[trigger] values@[i])@ == ValuesView::<S>::zero(
                        self.oop().len(),
                        self.ip().len(),
                    ),
                forall|i: int|
                    terminal_start <= i < values@.len() ==> (#[trigger] values@[i])@
                        == self.leaf_value(states@, reaches@, limit, mode, i) && values@[i]@.sized(
                        self.oop().len(),
                        self.ip().len(),
                    ),
        {
            let ghost was = values@;
            let ghost list = lists@[p as int]@;
            proof {
                assert(self.is_part(states@, reaches@, limit, mode, all[p as int], lists@[p as int]));
                let rest = all.skip(p as int);
                assert(rest[0] == all[p as int]);
                assert(rest.drop_first() =~= all.skip(p + 1));
                lemma_covers_bound(rest.drop_first(), all[p as int].1 as int, count as int);
            }
            values.append(&mut lists[p]);
            proof {
                assert(values@ =~= was + list);
                assert forall|i: int| terminal_start <= i < values@.len() implies (
                #[trigger] values@[i])@ == self.leaf_value(states@, reaches@, limit, mode, i)
                    && values@[i]@.sized(self.oop().len(), self.ip().len()) by {
                    if i < was.len() {
                        assert(values@[i] == was[i]);
                    } else {
                        assert(values@[i] == list[i - was.len()]);
                    }
                }
                assert forall|i: int| 0 <= i < terminal_start implies (#[trigger] values@[i])@
                    == ValuesView::<S>::zero(self.oop().len(), self.ip().len()) by {
                    assert(values@[i] == was[i]);
                }
            }
        }
        proof {
            assert(all.skip(all.len() as int).len() == 0);
        }
        values
    }

    /// Whether there are values for each hand at each state.
    pub open spec fn are_sized(self, states: Seq<PhaseState>, values: Seq<Values<S>>) -> bool {
        &&& values.len() == states.len()
        &&& forall|i: int|
            0 <= i < values.len() ==> (#[trigger] values[i])@.sized(self.oop().len(), self.ip().len())
    }

    /// Whether a state has more actions than can be worked on.
    pub open spec fn is_too_wide(self, state: PhaseState) -> bool {
        match self.infosets@[state.node_id as int] {
            Some(infoset) => infoset.actions > BACKUP_ACTION_LIMIT && self.combos(infoset.player) > 0,
            None => false,
        }
    }

    /// The actions of a state if it has more than can be worked on.
    fn excess(&self, state: &PhaseState) -> (r: Option<usize>)
        requires
            self.wf(),
            state.node_id < self.tree.nodes@.len(),
        ensures
            match r {
                Some(actions) => self.is_too_wide(*state) && actions
                    == self.infosets@[state.node_id as int]->Some_0.actions,
                None => !self.is_too_wide(*state),
            },
    {
        if let Some(infoset) = self.infosets[state.node_id] {
            let combos: usize = match infoset.player {
                Player::Oop => self.oop_range.combos().len(),
                Player::Ip => self.ip_range.combos().len(),
            };
            if infoset.actions > BACKUP_ACTION_LIMIT && combos > 0 {
                return Some(infoset.actions);
            }
        }
        None
    }

    /// The average over the first `n` classes of cards to come, by the values of what follows.
    pub open spec fn cards_from(
        self,
        state: PhaseState,
        values: Seq<ValuesView<S>>,
        n: nat,
    ) -> ValuesView<S>
        decreases n,
    {
        if n == 0 {
            ValuesView::zero(self.oop().len(), self.ip().len())
        } else {
            let front = self.cards_from(state, values, (n - 1) as nat);
            let below = values[state.children@[n - 1] as int];
            let codes = state.chance_member_permutation_codes@[n - 1]@;
            let weight = S::one_spec().over_spec(S::from_count_spec(state.chance_concrete_events));
            ValuesView {
                oop: codes_added(
                    front.oop,
                    below.oop,
                    self.combo_permutations,
                    Player::Oop,
                    codes,
                    weight,
                    codes.len(),
                ),
                ip: codes_added(
                    front.ip,
                    below.ip,
                    self.combo_permutations,
                    Player::Ip,
                    codes,
                    weight,
                    codes.len(),
                ),
                terminal_evals: added_times(
                    front.terminal_evals,
                    below.terminal_evals,
                    codes.len(),
                ),
            }
        }
    }

    proof fn lemma_cards_from(
        self,
        states: Seq<PhaseState>,
        context: PhaseContext<S>,
        values: Seq<ValuesView<S>>,
        i: int,
        n: nat,
    )
        requires
            goes_on(kids(states)),
            0 <= i < states.len(),
            n <= states[i].children@.len(),
            forall|k: int|
                0 <= k < states[i].children@.len()
                    ==> values[#[trigger] states[i].children@[k] as int] == self.backed(
                    states,
                    context,
                    states[i].children@[k] as int,
                ),
        ensures
            self.cards_from(states[i], values, n) == self.backed_cards(states, context, i, n),
        decreases n,
    {
        if n > 0 {
            self.lemma_cards_from(states, context, values, i, (n - 1) as nat);
            assert(kids(states)[i][n - 1] == states[i].children@[n - 1]);
        }
    }

    /// The values of the first `n` states that follow a state.
    pub open spec fn rows_from(
        self,
        state: PhaseState,
        values: Seq<ValuesView<S>>,
        n: nat,
    ) -> PhaseRows<S>
        decreases n,
    {
        if n == 0 {
            PhaseRows { oop: Seq::empty(), ip: Seq::empty(), terminal_evals: 0 }
        } else {
            let front = self.rows_from(state, values, (n - 1) as nat);
            let below = values[state.children@[n - 1] as int];
            PhaseRows {
                oop: front.oop.push(below.oop),
                ip: front.ip.push(below.ip),
                terminal_evals: bounded(front.terminal_evals + below.terminal_evals) as usize,
            }
        }
    }

    proof fn lemma_rows_from(
        self,
        states: Seq<PhaseState>,
        context: PhaseContext<S>,
        values: Seq<ValuesView<S>>,
        i: int,
        n: nat,
    )
        requires
            goes_on(kids(states)),
            0 <= i < states.len(),
            n <= states[i].children@.len(),
            forall|k: int|
                0 <= k < states[i].children@.len()
                    ==> values[#[trigger] states[i].children@[k] as int] == self.backed(
                    states,
                    context,
                    states[i].children@[k] as int,
                ),
        ensures
            self.rows_from(states[i], values, n) == self.backed_rows(states, context, i, n),
        decreases n,
    {
        if n > 0 {
            self.lemma_rows_from(states, context, values, i, (n - 1) as nat);
            assert(kids(states)[i][n - 1] == states[i].children@[n - 1]);
        }
    }

    /// The values of a state without numbers of its own, by the values of what follows.
    pub open spec fn chance_from(self, state: PhaseState, values: Seq<ValuesView<S>>) -> ValuesView<S> {
        if self.tree.nodes@[state.node_id as int].kind is Decision {
            values[state.children@[0] as int]
        } else {
            self.cards_from(state, values, state.children@.len())
        }
    }

    /// Works out a state without numbers of its own: a chance node, or a decision without a choice.
    pub fn backup_chance_state(&self, states: &Vec<PhaseState>, values: &mut Vec<Values<S>>, i: usize)
        requires
            self.wf(),
            self.is_phase(states@),
            i < states@.len(),
            states@[i as int].children@.len() > 0,
            self.infosets@[states@[i as int].node_id as int] is None,
            self.are_sized(states@, old(values)@),
        ensures
            self.are_sized(states@, final(values)@),
            forall|j: int|
                0 <= j < states@.len() && j != i ==> #[trigger] final(values)@[j] == old(values)@[j],
            final(values)@[i as int]@ == self.chance_from(
                states@[i as int],
                value_views(old(values)@),
            ),
    {
        let state: &PhaseState = &states[i];
        let ghost before = values@;
        let ghost views = value_views(values@);
        proof {
            assert(self.is_phase_state(states@, i as int));
            assert(is_shaped_at(self.tree.nodes@, state.node_id as int));
            assert(kids(states@)[i as int] == state.children@);
            assert forall|k: int| 0 <= k < state.children@.len() implies i
                < #[trigger] state.children@[k] < states@.len() by {
                assert(i < kids(states@)[i as int][k] < kids(states@).len());
            }
        }
        match &self.tree.nodes[state.node_id].kind {
            PublicNodeKind::Decision { player, actions } => {
                let child: usize = state.children[0];
                proof {
                    assert(i < state.children@[0] < states@.len());
                    assert(before[child as int]@.sized(self.oop().len(), self.ip().len()));
                    assert(views[child as int] == before[child as int]@);
                }
                let value: Values<S> = values[child].copied();
                values.set(i, value);
            },
            _ => {
                let value: Values<S> = self.average_cards(states, values, i);
                values.set(i, value);
            },
        }
        proof {
            assert forall|j: int| 0 <= j < values@.len() implies (#[trigger] values@[j])@.sized(
                self.oop().len(),
                self.ip().len(),
            ) by {
                if j != i {
                    assert(values@[j] == before[j]);
                }
            }
        }
    }

    fn average_cards(&self, states: &Vec<PhaseState>, values: &Vec<Values<S>>, i: usize) -> (r: Values<S>)
        requires
            self.wf(),
            self.is_phase(states@),
            i < states@.len(),
            self.tree.nodes@[states@[i as int].node_id as int].kind is Chance,
            states@[i as int].children@.len() > 0,
            self.are_sized(states@, values@),
        ensures
            r@.sized(self.oop().len(), self.ip().len()),
            r@ == self.cards_from(
                states@[i as int],
                value_views(values@),
                states@[i as int].children@.len(),
            ),
    {
        let state: &PhaseState = &states[i];
        let ghost board = state.board@;
        let ghost views = value_views(values@);
        proof {
            assert(self.is_phase_state(states@, i as int));
            class_facts(board, self.oop(), self.ip(), deck_without(board).len());
        }
        let ghost classes = next_card_classes(board, self.oop(), self.ip());
        let weight: S = S::one().over(S::from_count(state.chance_concrete_events));
        let mut out: Values<S> = Values::zero(
            self.oop_range.combos().len(),
            self.ip_range.combos().len(),
        );
        for n in 0..state.children.len()
            invariant
                self.wf(),
                self.is_phase(states@),
                i < states@.len(),
                *state == states@[i as int],
                board == state.board@,
                views == value_views(values@),
                state.chance_member_permutation_codes@.len() == state.children@.len(),
                classes == next_card_classes(board, self.oop(), self.ip()),
                classes.len() == state.children@.len(),
                forall|k: int|
                    0 <= k < classes.len() ==> (#[trigger] state.chance_member_permutation_codes@[k])@
                        == member_codes(classes[k].members),
                forall|k: int|
                    0 <= k < classes.len() ==> forall|m: int|
                        0 <= m < (#[trigger] classes[k]).members.len() ==> {
                            let member = #[trigger] classes[k].members[m];
                            &&& member.permutation_to_representative.wf()
                            &&& is_symmetry(
                                board,
                                self.oop(),
                                self.ip(),
                                member.permutation_to_representative,
                            )
                        },
                self.are_sized(states@, values@),
                weight == S::one_spec().over_spec(S::from_count_spec(state.chance_concrete_events)),
                out@.sized(self.oop().len(), self.ip().len()),
                out@ == self.cards_from(*state, views, n as nat),
        {
            let child: usize = state.children[n];
            proof {
                assert(kids(states@)[i as int] == state.children@);
                assert(i < kids(states@)[i as int][n as int] < kids(states@).len());
                assert(values@[child as int]@.sized(self.oop().len(), self.ip().len()));
                assert(views[child as int] == values@[child as int]@);
            }
            let codes: &Vec<u8> = &state.chance_member_permutation_codes[n];
            proof {
                assert(codes@ == member_codes(classes[n as int].members));
                assert forall|m: int| 0 <= m < codes@.len() implies self.maps_code(
                    #[trigger] codes@[m],
                ) by {
                    let member = classes[n as int].members[m];
                    self.symmetry_is_mapped(board, member.permutation_to_representative);
                }
            }
            let ghost was = out@;
            self.add_codes(&mut out, &values[child], codes, weight);
            let more: usize = values[child].terminal_evals;
            let mut evals: usize = out.terminal_evals;
            for m in 0..codes.len()
                invariant
                    evals == added_times(was.terminal_evals, more, m as nat),
            {
                evals = bounded_sum(evals, more);
            }
            out.terminal_evals = evals;
        }
        out
    }

    /// Works out a decision with a choice, and learns from it.
    pub fn backup_decision_state(
        &self,
        states: &Vec<PhaseState>,
        tables: &mut CfrTables<S>,
        reaches: &ReachTable<S>,
        values: &mut Vec<Values<S>>,
        i: usize,
        rule: UpdateRule<S>,
    )
        requires
            self.wf(),
            self.is_phase(states@),
            i < states@.len(),
            self.infosets@[states@[i as int].node_id as int] is Some,
            old(tables)@.sized(self.action_slots as nat),
            reaches@.sized(states@.len(), self.oop().len(), self.ip().len()),
            self.are_sized(states@, old(values)@),
        ensures
            self.are_sized(states@, final(values)@),
            final(tables)@.sized(self.action_slots as nat),
            forall|j: int|
                0 <= j < states@.len() && j != i ==> #[trigger] final(values)@[j] == old(values)@[j],
            ({
                let state = states@[i as int];
                let player = self.tree.nodes@[state.node_id as int].kind->player;
                let actions = self.tree.nodes@[state.node_id as int].kind->actions@.len();
                let strategies = self.state_strategies(state, old(tables)@);
                let rows = self.rows_from(
                    state,
                    value_views(old(values)@),
                    state.children@.len(),
                );
                &&& final(values)@[i as int]@ == self.weighed(player, actions, strategies, rows)
                &&& final(tables)@ == row_updated(
                    old(tables)@,
                    self.row_start(state.node_id as int, state.board_slot as int),
                    self.combos(player) as int,
                    actions as int,
                    strategies,
                    self.weighed(player, actions, strategies, rows).side(player),
                    rows.side(player),
                    match player {
                        Player::Oop => reaches@.oop[i as int],
                        Player::Ip => reaches@.ip[i as int],
                    },
                    rule,
                )
            }),
    {
        let state: &PhaseState = &states[i];
        let ghost before = values@;
        let ghost views = value_views(values@);
        let ghost node = self.tree.nodes@[state.node_id as int];
        proof {
            assert(self.is_phase_state(states@, i as int));
            assert(is_shaped_at(self.tree.nodes@, state.node_id as int));
            self.knows_has_slot(state.board@);
            self.row_fits(state.node_id as int, state.board_slot as int);
            assert(reaches@.oop[i as int] == reaches.oop@[i as int]@);
            assert(reaches@.ip[i as int] == reaches.ip@[i as int]@);
            assert(reaches@.oop[i as int].len() == self.oop().len());
            assert(reaches@.ip[i as int].len() == self.ip().len());
        }
        let oop_len: usize = self.oop_range.combos().len();
        let ip_len: usize = self.ip_range.combos().len();
        let (player, actions): (Player, usize) = match &self.tree.nodes[state.node_id].kind {
            PublicNodeKind::Decision { player, actions } => (*player, actions.len()),
            _ => {
                proof {
                    assert(false);
                }
                (Player::Oop, 0)
            },
        };
        let combos: usize = match player {
            Player::Oop => oop_len,
            Player::Ip => ip_len,
        };
        let (start, row): (usize, usize) = self.row_of(state.node_id, state.board_slot);
        let strategies: Vec<S> = current_strategies(
            vstd::slice::slice_subrange(tables.regrets.as_slice(), start, start + row),
            combos,
            actions,
        );
        let mut oop_rows: Vec<Vec<S>> = Vec::new();
        let mut ip_rows: Vec<Vec<S>> = Vec::new();
        let mut terminal_evals: usize = 0;
        proof {
            assert(rows_of(oop_rows@) =~= Seq::<Seq<S>>::empty());
            assert(rows_of(ip_rows@) =~= Seq::<Seq<S>>::empty());
        }
        for k in 0..actions
            invariant
                self.is_phase(states@),
                i < states@.len(),
                *state == states@[i as int],
                state.children@.len() == actions,
                views == value_views(values@),
                self.are_sized(states@, values@),
                rows_have(oop_rows@, k as int, self.oop().len() as int),
                rows_have(ip_rows@, k as int, self.ip().len() as int),
                ({
                    let rows = self.rows_from(*state, views, k as nat);
                    &&& rows_of(oop_rows@) == rows.oop
                    &&& rows_of(ip_rows@) == rows.ip
                    &&& terminal_evals == rows.terminal_evals
                }),
        {
            let child: usize = state.children[k];
            proof {
                assert(kids(states@)[i as int] == state.children@);
                assert(i < kids(states@)[i as int][k as int] < kids(states@).len());
                assert(values@[child as int]@.sized(self.oop().len(), self.ip().len()));
                assert(views[child as int] == values@[child as int]@);
            }
            let ghost was_oop = rows_of(oop_rows@);
            let ghost was_ip = rows_of(ip_rows@);
            oop_rows.push(copy_of(&values[child].oop));
            ip_rows.push(copy_of(&values[child].ip));
            terminal_evals = bounded_sum(terminal_evals, values[child].terminal_evals);
            proof {
                assert(rows_of(oop_rows@) =~= was_oop.push(values@[child as int]@.oop));
                assert(rows_of(ip_rows@) =~= was_ip.push(values@[child as int]@.ip));
            }
        }
        let value: Values<S> = match player {
            Player::Oop => {
                let oop: Vec<S> = combine_acting(&oop_rows, &strategies, actions, oop_len);
                let ip: Vec<S> = combine_nonacting(&ip_rows, actions, ip_len);
                tables.update_row(
                    start,
                    combos,
                    actions,
                    &strategies,
                    &oop,
                    &oop_rows,
                    &reaches.oop[i],
                    rule,
                );
                Values { oop, ip, terminal_evals }
            },
            Player::Ip => {
                let oop: Vec<S> = combine_nonacting(&oop_rows, actions, oop_len);
                let ip: Vec<S> = combine_acting(&ip_rows, &strategies, actions, ip_len);
                tables.update_row(
                    start,
                    combos,
                    actions,
                    &strategies,
                    &ip,
                    &ip_rows,
                    &reaches.ip[i],
                    rule,
                );
                Values { oop, ip, terminal_evals }
            },
        };
        values.set(i, value);
        proof {
            assert forall|j: int| 0 <= j < values@.len() implies (#[trigger] values@[j])@.sized(
                self.oop().len(),
                self.ip().len(),
            ) by {
                if j != i {
                    assert(values@[j] == before[j]);
                }
            }
        }
    }

    /// Whether a state was worked on when all below a level were, and those at it up to a place.
    spec fn is_done(self, states: Seq<PhaseState>, at: nat, upto: int, i: int) -> bool {
        level(kids(states), i) < at || (level(kids(states), i) == at && i < upto)
    }

    /// Whether the states that were worked on have their values, and their numbers are updated, and all
    /// other numbers are as they were.
    spec fn is_backed_up(
        self,
        states: Seq<PhaseState>,
        context: PhaseContext<S>,
        rule: UpdateRule<S>,
        values: Seq<Values<S>>,
        tables: TablesView<S>,
        at: nat,
        upto: int,
    ) -> bool {
        &&& self.are_sized(states, values)
        &&& tables.sized(self.action_slots as nat)
        &&& forall|i: int|
            0 <= i < states.len() && self.is_done(states, at, upto, i) ==> (#[trigger] values[i])@
                == self.backed(states, context, i)
        &&& forall|slot: int|
            0 <= slot < self.action_slots ==> #[trigger] self.slot_backed_up(
                states,
                context,
                rule,
                tables,
                at,
                upto,
                slot,
            )
    }

    spec fn slot_backed_up(
        self,
        states: Seq<PhaseState>,
        context: PhaseContext<S>,
        rule: UpdateRule<S>,
        tables: TablesView<S>,
        at: nat,
        upto: int,
        slot: int,
    ) -> bool {
        let kept = (context.tables.regrets[slot], context.tables.sums[slot]);
        let expected = match self.owner(states, slot) {
            Some(i) => if self.is_done(states, at, upto, i) {
                self.cell_backed(states, context, rule, i, slot)
            } else {
                kept
            },
            None => kept,
        };
        tables.regrets[slot] == expected.0 && tables.sums[slot] == expected.1
    }

    /// A number's owner is a state.
    proof fn lemma_owner(self, states: Seq<PhaseState>, slot: int)
        ensures
            self.owner(states, slot) matches Some(i) ==> 0 <= i < states.len() && self.owns(
                states,
                i,
                slot,
            ),
    {
    }

    proof fn lemma_same_done(
        self,
        states: Seq<PhaseState>,
        context: PhaseContext<S>,
        rule: UpdateRule<S>,
        values: Seq<Values<S>>,
        tables: TablesView<S>,
        at: nat,
        upto: int,
        next_at: nat,
        next_upto: int,
    )
        requires
            self.is_backed_up(states, context, rule, values, tables, at, upto),
            forall|i: int|
                0 <= i < states.len() ==> self.is_done(states, at, upto, i) == #[trigger] self.is_done(
                    states,
                    next_at,
                    next_upto,
                    i,
                ),
        ensures
            self.is_backed_up(states, context, rule, values, tables, next_at, next_upto),
    {
        assert forall|slot: int| 0 <= slot < self.action_slots implies #[trigger] self.slot_backed_up(
            states,
            context,
            rule,
            tables,
            next_at,
            next_upto,
            slot,
        ) by {
            assert(self.slot_backed_up(states, context, rule, tables, at, upto, slot));
            self.lemma_owner(states, slot);
            match self.owner(states, slot) {
                Some(i) => {
                    assert(self.is_done(states, at, upto, i) == self.is_done(
                        states,
                        next_at,
                        next_upto,
                        i,
                    ));
                },
                None => {},
            }
        }
    }

    proof fn lemma_children_done(
        self,
        states: Seq<PhaseState>,
        context: PhaseContext<S>,
        rule: UpdateRule<S>,
        values: Seq<Values<S>>,
        tables: TablesView<S>,
        at: nat,
        i: int,
    )
        requires
            self.is_phase(states),
            self.is_backed_up(states, context, rule, values, tables, at, i),
            0 <= i < states.len(),
            level(kids(states), i) == at,
        ensures
            forall|k: int|
                0 <= k < states[i].children@.len()
                    ==> value_views(values)[#[trigger] states[i].children@[k] as int] == self.backed(
                    states,
                    context,
                    states[i].children@[k] as int,
                ),
    {
        assert forall|k: int| 0 <= k < states[i].children@.len() implies value_views(
            values,
        )[#[trigger] states[i].children@[k] as int] == self.backed(
            states,
            context,
            states[i].children@[k] as int,
        ) by {
            let child = states[i].children@[k] as int;
            level_facts(kids(states), i);
            assert(kids(states)[i][k] == states[i].children@[k]);
            assert(i < kids(states)[i][k] < kids(states).len());
            assert(level(kids(states), child) < at);
            assert(self.is_done(states, at, i, child));
            assert(values[child]@ == self.backed(states, context, child));
        }
    }

    proof fn lemma_chance_step(
        self,
        states: Seq<PhaseState>,
        context: PhaseContext<S>,
        rule: UpdateRule<S>,
        before: Seq<Values<S>>,
        after: Seq<Values<S>>,
        tables: TablesView<S>,
        at: nat,
        i: int,
    )
        requires
            self.wf(),
            self.is_phase(states),
            self.is_backed_up(states, context, rule, before, tables, at, i),
            0 <= i < states.len(),
            at > 0,
            level(kids(states), i) == at,
            self.infosets@[states[i].node_id as int] is None,
            self.are_sized(states, after),
            forall|j: int| 0 <= j < states.len() && j != i ==> #[trigger] after[j] == before[j],
            after[i]@ == self.chance_from(states[i], value_views(before)),
        ensures
            self.is_backed_up(states, context, rule, after, tables, at, i + 1),
    {
        let state = states[i];
        self.lemma_children_done(states, context, rule, before, tables, at, i);
        level_facts(kids(states), i);
        assert(kids(states)[i] == state.children@);
        assert(self.is_phase_state(states, i));
        assert(self.infosets@[state.node_id as int] == infoset_of(
            self.tree.nodes@,
            self.oop().len(),
            self.ip().len(),
            self.turns().len(),
            self.rivers().len(),
            state.node_id as int,
        ));
        assert(is_shaped_at(self.tree.nodes@, state.node_id as int));
        assert(after[i]@ == self.backed(states, context, i)) by {
            if self.tree.nodes@[state.node_id as int].kind is Decision {
                assert(i < kids(states)[i][0] < kids(states).len());
                assert(value_views(before)[state.children@[0] as int] == self.backed(
                    states,
                    context,
                    state.children@[0] as int,
                ));
            } else {
                self.lemma_cards_from(
                    states,
                    context,
                    value_views(before),
                    i,
                    state.children@.len(),
                );
            }
        }
        assert forall|j: int|
            0 <= j < states.len() && self.is_done(states, at, i + 1, j) implies (#[trigger] after[j])@
            == self.backed(states, context, j) by {
            if j != i {
                assert(after[j] == before[j]);
                assert(self.is_done(states, at, i, j));
            }
        }
        assert forall|slot: int| 0 <= slot < self.action_slots implies #[trigger] self.slot_backed_up(
            states,
            context,
            rule,
            tables,
            at,
            i + 1,
            slot,
        ) by {
            assert(self.slot_backed_up(states, context, rule, tables, at, i, slot));
            self.lemma_owner(states, slot);
        }
    }

    #[verifier::spinoff_prover]
    proof fn lemma_decision_step(
        self,
        states: Seq<PhaseState>,
        context: PhaseContext<S>,
        rule: UpdateRule<S>,
        before: Seq<Values<S>>,
        after: Seq<Values<S>>,
        tables: TablesView<S>,
        updated: TablesView<S>,
        at: nat,
        i: int,
    )
        requires
            self.wf(),
            self.is_phase(states),
            context.tables.sized(self.action_slots as nat),
            self.is_backed_up(states, context, rule, before, tables, at, i),
            0 <= i < states.len(),
            at > 0,
            level(kids(states), i) == at,
            self.infosets@[states[i].node_id as int] is Some,
            self.are_sized(states, after),
            updated.sized(self.action_slots as nat),
            forall|j: int| 0 <= j < states.len() && j != i ==> #[trigger] after[j] == before[j],
            ({
                let state = states[i];
                let player = self.tree.nodes@[state.node_id as int].kind->player;
                let actions = self.tree.nodes@[state.node_id as int].kind->actions@.len();
                let strategies = self.state_strategies(state, tables);
                let rows = self.rows_from(state, value_views(before), state.children@.len());
                &&& after[i]@ == self.weighed(player, actions, strategies, rows)
                &&& updated == row_updated(
                    tables,
                    self.row_start(state.node_id as int, state.board_slot as int),
                    self.combos(player) as int,
                    actions as int,
                    strategies,
                    self.weighed(player, actions, strategies, rows).side(player),
                    rows.side(player),
                    match player {
                        Player::Oop => context.reaches.oop[i],
                        Player::Ip => context.reaches.ip[i],
                    },
                    rule,
                )
            }),
        ensures
            self.is_backed_up(states, context, rule, after, updated, at, i + 1),
    {
        let state = states[i];
        let node = self.tree.nodes@[state.node_id as int];
        let player = node.kind->player;
        let actions = node.kind->actions@.len();
        self.lemma_children_done(states, context, rule, before, tables, at, i);
        self.lemma_rows_from(states, context, value_views(before), i, state.children@.len());
        level_facts(kids(states), i);
        assert(kids(states)[i] == state.children@);
        assert(self.is_phase_state(states, i));
        assert(is_shaped_at(self.tree.nodes@, state.node_id as int));
        assert(self.infosets@[state.node_id as int] == infoset_of(
            self.tree.nodes@,
            self.oop().len(),
            self.ip().len(),
            self.turns().len(),
            self.rivers().len(),
            state.node_id as int,
        ));
        self.knows_has_slot(state.board@);
        self.row_fits(state.node_id as int, state.board_slot as int);
        let (start, end) = self.slot_range(state)->Some_0;
        assert(end == start + self.combos(player) * actions);
        assert forall|slot: int| start <= slot < end implies #[trigger] tables.regrets[slot]
            == context.tables.regrets[slot] && tables.sums[slot] == context.tables.sums[slot] by {
            assert(self.owns(states, i, slot));
            self.number_has_one_owner(states, i, slot);
            assert(self.slot_backed_up(states, context, rule, tables, at, i, slot));
        }
        assert(self.strategy_row(state, tables, StrategySource::Current) =~= self.strategy_row(
            state,
            context.tables,
            StrategySource::Current,
        ));
        assert(after[i]@ == self.backed(states, context, i));
        assert forall|j: int|
            0 <= j < states.len() && self.is_done(states, at, i + 1, j) implies (#[trigger] after[j])@
            == self.backed(states, context, j) by {
            if j != i {
                assert(after[j] == before[j]);
                assert(self.is_done(states, at, i, j));
            }
        }
        assert forall|slot: int| 0 <= slot < self.action_slots implies #[trigger] self.slot_backed_up(
            states,
            context,
            rule,
            updated,
            at,
            i + 1,
            slot,
        ) by {
            assert(self.slot_backed_up(states, context, rule, tables, at, i, slot));
            self.lemma_owner(states, slot);
            if start <= slot < end {
                assert(tables.regrets[slot] == context.tables.regrets[slot]);
                assert(self.owns(states, i, slot));
                self.number_has_one_owner(states, i, slot);
            } else {
                assert(updated.regrets[slot] == tables.regrets[slot]);
                assert(updated.sums[slot] == tables.sums[slot]);
            }
        }
    }

    /// Works out all states that something follows, from the end on, and learns from them. At a state with
    /// more actions than can be worked on that is an error; what was learned before it stays.
    pub fn backup_phase(
        &self,
        states: &Vec<PhaseState>,
        plan: &BackupLevelPlan,
        tables: &mut CfrTables<S>,
        reaches: &ReachTable<S>,
        values: &mut Vec<Values<S>>,
        threads: usize,
        rule: UpdateRule<S>,
        limit: usize,
        use_side_cache: bool,
    ) -> (r: Result<usize, String>)
        requires
            self.wf(),
            self.is_phase(states@),
            is_level_plan(*self, states@, *plan),
            old(tables)@.sized(self.action_slots as nat),
            reaches@.sized(states@.len(), self.oop().len(), self.ip().len()),
            self.are_sized(states@, old(values)@),
            forall|i: int|
                0 <= i < states@.len() && states@[i].children@.len() == 0 ==> (
                #[trigger] old(values)@[i])@ == self.leaf_value(
                    states@,
                    reaches@,
                    limit,
                    phase_mode(use_side_cache),
                    i,
                ),
        ensures
            final(tables)@.sized(self.action_slots as nat),
            self.are_sized(states@, final(values)@),
            match r {
                Ok(terminal_evals) => {
                    let context = PhaseContext {
                        tables: old(tables)@,
                        reaches: reaches@,
                        limit,
                        mode: phase_mode(use_side_cache),
                    };
                    &&& final(tables)@ == self.tables_backed(states@, context, rule)
                    &&& forall|i: int|
                        0 <= i < states@.len() ==> (#[trigger] final(values)@[i])@ == self.backed(
                            states@,
                            context,
                            i,
                        )
                    &&& terminal_evals == self.backed(states@, context, 0).terminal_evals
                },
                Err(message) => {
                    let context = PhaseContext {
                        tables: old(tables)@,
                        reaches: reaches@,
                        limit,
                        mode: phase_mode(use_side_cache),
                    };
                    exists|i: int|
                        {
                            &&& #[trigger] self.stops_at(states@, i)
                            &&& message@ == self.width_message(states@[i])
                            &&& final(tables)@ == self.tables_backed_before(
                                states@,
                                context,
                                rule,
                                i,
                            )
                            &&& forall|j: int|
                                0 <= j < states@.len() && self.is_worked_before(states@, j, i) ==> (
                                #[trigger] final(values)@[j])@ == self.backed(states@, context, j)
                        }
                },
            },
            r is Ok == (forall|i: int|
                0 <= i < states@.len() ==> !self.is_too_wide(#[trigger] states@[i])),
    {
        let ghost context = PhaseContext {
            tables: tables@,
            reaches: reaches@,
            limit,
            mode: phase_mode(use_side_cache),
        };
        let ghost all = kids(states@);
        let count: usize = states.len();
        proof {
            assert(self.is_backed_up(states@, context, rule, values@, tables@, 0, count as int)) by {
                assert forall|i: int|
                    0 <= i < states@.len() && self.is_done(states@, 0, count as int, i) implies (
                #[trigger] values@[i])@ == self.backed(states@, context, i) by {
                    level_facts(all, i);
                    assert(all[i] == states@[i].children@);
                }
                assert forall|slot: int|
                    0 <= slot < self.action_slots implies #[trigger] self.slot_backed_up(
                    states@,
                    context,
                    rule,
                    tables@,
                    0,
                    count as int,
                    slot,
                ) by {
                    self.lemma_owner(states@, slot);
                    match self.owner(states@, slot) {
                        Some(i) => {
                            assert(self.is_phase_state(states@, i));
                            assert(is_shaped_at(self.tree.nodes@, states@[i].node_id as int));
                            self.knows_has_slot(states@[i].board@);
                            self.row_fits(states@[i].node_id as int, states@[i].board_slot as int);
                            level_facts(all, i);
                            assert(all[i] == states@[i].children@);
                        },
                        None => {},
                    }
                }
            }
        }
        proof {
            assert forall|j: int|
                0 <= j < states@.len() && self.is_done(states@, 0, count as int, j) implies !self.is_too_wide(
                #[trigger] states@[j],
            ) by {
                assert(self.is_phase_state(states@, j));
                assert(is_shaped_at(self.tree.nodes@, states@[j].node_id as int));
                level_facts(all, j);
                assert(all[j] == states@[j].children@);
            }
        }
        let depth: usize = plan.levels.len();
        let mut at: usize = 1;
        while at < depth
            invariant
                context == (PhaseContext {
                    tables: old(tables)@,
                    reaches: reaches@,
                    limit,
                    mode: phase_mode(use_side_cache),
                }),
                forall|j: int|
                    0 <= j < states@.len() && self.is_done(
                        states@,
                        (at - 1) as nat,
                        count as int,
                        j,
                    ) ==> !self.is_too_wide(#[trigger] states@[j]),
                self.wf(),
                self.is_phase(states@),
                is_level_plan(*self, states@, *plan),
                context.tables.sized(self.action_slots as nat),
                context.reaches == reaches@,
                reaches@.sized(states@.len(), self.oop().len(), self.ip().len()),
                all == kids(states@),
                count == states@.len(),
                depth == plan.levels@.len(),
                1 <= at <= depth,
                self.is_backed_up(
                    states@,
                    context,
                    rule,
                    values@,
                    tables@,
                    (at - 1) as nat,
                    count as int,
                ),
            decreases depth - at,
        {
            let run: BackupRun = plan.levels[at][0];
            proof {
                assert(plan.levels@[at as int]@.len() == 1);
                assert(is_level_run(all, run, at as nat, count as int));
                self.lemma_same_done(
                    states@,
                    context,
                    rule,
                    values@,
                    tables@,
                    (at - 1) as nat,
                    count as int,
                    at as nat,
                    run.start as int,
                );
            }
            let stop: Option<(usize, usize)> = self.backup_run(
                states,
                tables,
                reaches,
                values,
                threads,
                rule,
                &run,
                Ghost(context),
                Ghost(at as nat),
            );
            if let Some((i, actions)) = stop {
                proof {
                    self.lemma_stopped(
                        states@,
                        context,
                        rule,
                        values@,
                        tables@,
                        at as nat,
                        i as int,
                        run.start as int,
                        count as int,
                    );
                }
                return Err(
                    around("real CFR backup supports at most 8 actions per node, got ", actions, ""),
                );
            }
            proof {
                self.lemma_same_done(
                    states@,
                    context,
                    rule,
                    values@,
                    tables@,
                    at as nat,
                    run.end as int,
                    at as nat,
                    count as int,
                );
            }
            at = at + 1;
        }
        proof {
            level_facts(all, 0);
            let last = (depth - 1) as nat;
            assert forall|i: int| 0 <= i < states@.len() implies #[trigger] self.is_done(
                states@,
                last,
                count as int,
                i,
            ) by {
                self.levels_descend(states@, 0, i);
            }
            assert forall|i: int| 0 <= i < states@.len() implies (#[trigger] values@[i])@
                == self.backed(states@, context, i) by {
                assert(self.is_done(states@, last, count as int, i));
            }
            let goal = self.tables_backed(states@, context, rule);
            assert forall|slot: int| 0 <= slot < self.action_slots implies tables@.regrets[slot]
                == goal.regrets[slot] && tables@.sums[slot] == goal.sums[slot] by {
                assert(self.slot_backed_up(
                    states@,
                    context,
                    rule,
                    tables@,
                    last,
                    count as int,
                    slot,
                ));
                self.lemma_owner(states@, slot);
            }
            assert(tables@.regrets =~= goal.regrets);
            assert(tables@.sums =~= goal.sums);
        }
        Ok(values[0].terminal_evals)
    }

    /// An iteration that comes to a state with too many actions stops there.
    proof fn lemma_stopped(
        self,
        states: Seq<PhaseState>,
        context: PhaseContext<S>,
        rule: UpdateRule<S>,
        values: Seq<Values<S>>,
        tables: TablesView<S>,
        at: nat,
        i: int,
        start: int,
        count: int,
    )
        requires
            at > 0,
            count == states.len(),
            context.tables.sized(self.action_slots as nat),
            0 <= start <= i < states.len(),
            level(kids(states), i) == at,
            forall|j: int| 0 <= j < states.len() && level(kids(states), j) == at ==> start <= j,
            self.is_too_wide(states[i]),
            forall|j: int| start <= j < i ==> !self.is_too_wide(#[trigger] states[j]),
            forall|j: int|
                0 <= j < states.len() && self.is_done(states, (at - 1) as nat, count, j)
                    ==> !self.is_too_wide(#[trigger] states[j]),
            self.is_backed_up(states, context, rule, values, tables, at, i),
        ensures
            self.stops_at(states, i),
            tables == self.tables_backed_before(states, context, rule, i),
            forall|j: int|
                0 <= j < states.len() && self.is_worked_before(states, j, i) ==> (
                #[trigger] values[j])@ == self.backed(states, context, j),
    {
        assert forall|j: int|
            0 <= j < states.len() && self.is_worked_before(states, j, i) implies !self.is_too_wide(
            #[trigger] states[j],
        ) by {
            if level(kids(states), j) == at {
                assert(start <= j);
            } else {
                assert(self.is_done(states, (at - 1) as nat, count, j));
            }
        }
        let goal = self.tables_backed_before(states, context, rule, i);
        assert forall|slot: int| 0 <= slot < self.action_slots implies tables.regrets[slot]
            == goal.regrets[slot] && tables.sums[slot] == goal.sums[slot] by {
            assert(self.slot_backed_up(states, context, rule, tables, at, i, slot));
        }
        assert(tables.regrets =~= goal.regrets);
        assert(tables.sums =~= goal.sums);
        assert forall|j: int|
            0 <= j < states.len() && self.is_worked_before(states, j, i) implies (
        #[trigger] values[j])@ == self.backed(states, context, j) by {
            assert(self.is_done(states, at, i, j));
        }
    }

    /// Works out the states of one stretch: those with numbers chunk by chunk, then the others. Stops at a
    /// state with more actions than can be worked on, and gives its place and its actions.
    fn backup_run(
        &self,
        states: &Vec<PhaseState>,
        tables: &mut CfrTables<S>,
        reaches: &ReachTable<S>,
        values: &mut Vec<Values<S>>,
        threads: usize,
        rule: UpdateRule<S>,
        run: &BackupRun,
        Ghost(context): Ghost<PhaseContext<S>>,
        Ghost(at): Ghost<nat>,
    ) -> (r: Option<(usize, usize)>)
        requires
            self.wf(),
            self.is_phase(states@),
            context.tables.sized(self.action_slots as nat),
            context.reaches == reaches@,
            reaches@.sized(states@.len(), self.oop().len(), self.ip().len()),
            is_level_run(kids(states@), *run, at, states@.len() as int),
            at > 0,
            self.is_backed_up(
                states@,
                context,
                rule,
                old(values)@,
                old(tables)@,
                at,
                run.start as int,
            ),
        ensures
            match r {
                Some((i, actions)) => {
                    &&& run.start <= i < run.end
                    &&& self.is_too_wide(states@[i as int])
                    &&& actions == self.infosets@[states@[i as int].node_id as int]->Some_0.actions
                    &&& forall|j: int|
                        run.start <= j < i ==> !self.is_too_wide(#[trigger] states@[j])
                    &&& self.is_backed_up(
                        states@,
                        context,
                        rule,
                        final(values)@,
                        final(tables)@,
                        at,
                        i as int,
                    )
                },
                None => {
                    &&& forall|j: int|
                        run.start <= j < run.end ==> !self.is_too_wide(#[trigger] states@[j])
                    &&& self.is_backed_up(
                        states@,
                        context,
                        rule,
                        final(values)@,
                        final(tables)@,
                        at,
                        run.end as int,
                    )
                },
            },
    {
        let ghost all = kids(states@);
        let decision_end: usize = self.backup_run_decision_prefix_end(states, run);
        proof {
            assert forall|i: int| run.start <= i < run.end implies level(all, i) == at by {}
        }
        let workers: usize = effective_worker_count(threads);
        let chunks: Vec<BackupChunk> = self.backup_decision_chunks(
            states,
            run.start,
            decision_end,
            workers,
        );
        let ghost length = chunk_length(decision_end - run.start, workers as int);
        let mut done: usize = run.start;
        proof {
            assert(0int * length == 0);
        }
        for c in 0..chunks.len()
            invariant
                self.wf(),
                self.is_phase(states@),
                context.tables.sized(self.action_slots as nat),
                context.reaches == reaches@,
                reaches@.sized(states@.len(), self.oop().len(), self.ip().len()),
                all == kids(states@),
                is_level_run(all, *run, at, states@.len() as int),
                at > 0,
                run.start <= done <= decision_end <= run.end,
                forall|i: int|
                    run.start <= i < decision_end ==> self.infosets@[(
                    #[trigger] states@[i]).node_id as int] is Some,
                are_chunks(
                    *self,
                    states@,
                    run.start as int,
                    decision_end as int,
                    length,
                    chunks@,
                ),
                done == lesser(run.start + c * length, decision_end as int),
                forall|j: int| run.start <= j < done ==> !self.is_too_wide(#[trigger] states@[j]),
                self.is_backed_up(
                    states@,
                    context,
                    rule,
                    values@,
                    tables@,
                    at,
                    done as int,
                ),
        {
            let chunk: BackupChunk = chunks[c];
            proof {
                assert(is_chunk(
                    *self,
                    states@,
                    run.start as int,
                    decision_end as int,
                    length,
                    chunks@,
                    c as int,
                ));
            }
            let mut i: usize = chunk.state_start;
            while i < chunk.state_end
                invariant
                    self.wf(),
                    self.is_phase(states@),
                    context.tables.sized(self.action_slots as nat),
                    context.reaches == reaches@,
                    reaches@.sized(states@.len(), self.oop().len(), self.ip().len()),
                    all == kids(states@),
                    is_level_run(all, *run, at, states@.len() as int),
                    at > 0,
                    run.start <= chunk.state_start <= i <= chunk.state_end <= decision_end <= run.end,
                    forall|j: int|
                        run.start <= j < decision_end ==> self.infosets@[(
                        #[trigger] states@[j]).node_id as int] is Some,
                    forall|j: int| run.start <= j < i ==> !self.is_too_wide(#[trigger] states@[j]),
                    self.is_backed_up(states@, context, rule, values@, tables@, at, i as int),
                decreases chunk.state_end - i,
            {
                proof {
                    assert(self.is_phase_state(states@, i as int));
                }
                if let Some(actions) = self.excess(&states[i]) {
                    return Some((i, actions));
                }
                let ghost before = values@;
                let ghost was = tables@;
                proof {
                    assert(self.infosets@[states@[i as int].node_id as int] is Some);
                    assert(level(all, i as int) == at);
                }
                self.backup_decision_state(states, tables, reaches, values, i, rule);
                proof {
                    self.lemma_decision_step(
                        states@,
                        context,
                        rule,
                        before,
                        values@,
                        was,
                        tables@,
                        at,
                        i as int,
                    );
                }
                i = i + 1;
            }
            done = chunk.state_end;
        }
        proof {
            assert(done == decision_end);
        }
        let mut i: usize = decision_end;
        while i < run.end
            invariant
                self.wf(),
                self.is_phase(states@),
                all == kids(states@),
                is_level_run(all, *run, at, states@.len() as int),
                at > 0,
                run.start <= decision_end <= i <= run.end,
                decision_end < run.end ==> self.infosets@[states@[decision_end as int].node_id as int] is None,
                forall|j: int| run.start <= j < i ==> !self.is_too_wide(#[trigger] states@[j]),
                self.is_backed_up(states@, context, rule, values@, tables@, at, i as int),
            decreases run.end - i,
        {
            let ghost before = values@;
            proof {
                assert(level(all, i as int) == at);
                assert(level(all, decision_end as int) == at);
                if decision_end < i {
                    self.rows_in_order(states@, decision_end as int, i as int);
                }
                level_facts(all, i as int);
                assert(all[i as int] == states@[i as int].children@);
            }
            self.backup_chance_state(states, values, i);
            proof {
                self.lemma_chance_step(
                    states@,
                    context,
                    rule,
                    before,
                    values@,
                    tables@,
                    at,
                    i as int,
                );
            }
            i = i + 1;
        }
        None
    }
}

/// What values hold.
pub open spec fn value_views<S>(values: Seq<Values<S>>) -> Seq<ValuesView<S>> {
    values.map(|i: int, value: Values<S>| value@)
}

/// How finished hands are evaluated for a list of states.
pub open spec fn phase_mode(use_side_cache: bool) -> TerminalMode {
    if use_side_cache {
        TerminalMode::PhaseCached
    } else {
        TerminalMode::PhaseDirect
    }
}

proof fn lemma_covers_inside(parts: Seq<(usize, usize)>, start: int, end: int, p: int)
    requires
        covers(parts, start, end),
        0 <= p < parts.len(),
    ensures
        parts[p].0 <= parts[p].1 <= end,
    decreases parts.len(),
{
    let rest = parts.drop_first();
    lemma_covers_bound(rest, parts[0].1 as int, end);
    if p > 0 {
        lemma_covers_inside(rest, parts[0].1 as int, end, p - 1);
        assert(rest[p - 1] == parts[p]);
    }
}

proof fn lemma_covers_bound(parts: Seq<(usize, usize)>, start: int, end: int)
    requires
        covers(parts, start, end),
    ensures
        start <= end,
    decreases parts.len(),
{
    if parts.len() > 0 {
        lemma_covers_bound(parts.drop_first(), parts[0].1 as int, end);
    }
}

} // verus!
