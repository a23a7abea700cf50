//! Counterfactual regret minimization by walking a public tree over all boards.
use vstd::prelude::*;
use crate::arith::{bounded, bounded_product, bounded_sum};
use crate::boards::member_codes;
use crate::cards::{deck_without, Board, Card};
use crate::cfr_math::{
    acting_values, add_permuted_scaled_slice, apply_real_cfr_update, combine_acting,
    combine_nonacting, current_spec, current_strategies, direct_update, nonacting_values,
    permuted_added, reach_after, rows_have, rows_of, strategy_reach, RealCfrUpdateFactors,
    RealCfrVariant,
};
use crate::grid::cell_place;
use crate::index_map::KeyMap;
use crate::isomorphism::{
    class_facts, class_views, next_card_classes, next_card_isomorphism, CardClass,
    NextCardIsomorphism,
};
use crate::real_setup::{board_count_of, infoset_of, RealSetup};
use crate::real_terminal::{ref_views, TerminalMode, TerminalWorkerProfile, Values, ValuesView};
use crate::scalar::{sum, Scalar};
use crate::side_cache::TerminalSideValueCache;
use crate::state_graph::{
    key_bound, ordered_board_key, ordered_key, ordered_key_bound, ordered_keys_differ,
};
use crate::terminal_cache::{ComboPermutations, TerminalCacheRef};
use crate::tree::{Player, PublicNode, PublicNodeKind, TerminalReason};
use crate::tree_shape::is_shaped_at;

verus! {

/// The limit up to which boards are evaluated hand by hand.
pub const TERMINAL_SPARSE_NONZERO_LIMIT: usize = 64;

/// The numbers that a solver learns: regrets, and sums of strategies.
#[derive(Clone, Debug)]
pub struct CfrTables<S> {
    pub regrets: Vec<S>,
    pub strategy_sum: Vec<S>,
}

/// The numbers that a solver learns.
pub ghost struct TablesView<S> {
    pub regrets: Seq<S>,
    pub sums: Seq<S>,
}

impl<S> View for CfrTables<S> {
    type V = TablesView<S>;

    open spec fn view(&self) -> TablesView<S> {
        TablesView { regrets: self.regrets@, sums: self.strategy_sum@ }
    }
}

impl<S> TablesView<S> {
    /// Whether there are so many numbers of each kind.
    pub open spec fn sized(self, slots: nat) -> bool {
        self.regrets.len() == slots && self.sums.len() == slots
    }
}

/// How a number is updated: with the discounts worked out on the way, or once for an iteration.
#[derive(Clone, Copy, Debug)]
pub enum UpdateRule<S> {
    Direct { weight: S, variant: RealCfrVariant<S> },
    Factors(RealCfrUpdateFactors<S>),
}

impl<S: Scalar> UpdateRule<S> {
    /// A regret and a strategy sum after an update.
    pub open spec fn update(self, regret: S, sum: S, regret_delta: S, average_delta: S) -> (S, S) {
        match self {
            UpdateRule::Direct { weight, variant } => direct_update(
                variant,
                weight,
                regret,
                sum,
                regret_delta,
                average_delta,
            ),
            UpdateRule::Factors(factors) => (
                factors.regret(regret, regret_delta),
                factors.strategy(sum, average_delta),
            ),
        }
    }

    /// A regret and a strategy sum after an update.
    pub fn apply(&self, regret: S, sum: S, regret_delta: S, average_delta: S) -> (r: (S, S))
        ensures
            r == self.update(regret, sum, regret_delta, average_delta),
    {
        match self {
            UpdateRule::Direct { weight, variant } => apply_real_cfr_update(
                regret,
                sum,
                regret_delta,
                average_delta,
                *weight,
                *variant,
            ),
            UpdateRule::Factors(factors) => factors.updated(regret, sum, regret_delta, average_delta),
        }
    }
}

/// The number of an action of a hand after an update: the regret moves by how much better the action is
/// than the node, the sum by how often the hand takes the action.
pub open spec fn cell_updated<S: Scalar>(
    tables: TablesView<S>,
    start: int,
    actions: int,
    strategies: Seq<S>,
    values: Seq<S>,
    rows: Seq<Seq<S>>,
    reach: Seq<S>,
    rule: UpdateRule<S>,
    slot: int,
) -> (S, S) {
    let combo = (slot - start) / actions;
    let action = (slot - start) % actions;
    rule.update(
        tables.regrets[slot],
        tables.sums[slot],
        rows[action][combo].minus_spec(values[combo]),
        reach[combo].times_spec(strategies[slot - start]),
    )
}

/// The tables with the numbers of one node on one board updated.
pub open spec fn row_updated<S: Scalar>(
    tables: TablesView<S>,
    start: int,
    combos: int,
    actions: int,
    strategies: Seq<S>,
    values: Seq<S>,
    rows: Seq<Seq<S>>,
    reach: Seq<S>,
    rule: UpdateRule<S>,
) -> TablesView<S> {
    TablesView {
        regrets: Seq::new(
            tables.regrets.len(),
            |slot: int|
                if start <= slot < start + combos * actions {
                    cell_updated(
                        tables,
                        start,
                        actions,
                        strategies,
                        values,
                        rows,
                        reach,
                        rule,
                        slot,
                    ).0
                } else {
                    tables.regrets[slot]
                },
        ),
        sums: Seq::new(
            tables.sums.len(),
            |slot: int|
                if start <= slot < start + combos * actions {
                    cell_updated(
                        tables,
                        start,
                        actions,
                        strategies,
                        values,
                        rows,
                        reach,
                        rule,
                        slot,
                    ).1
                } else {
                    tables.sums[slot]
                },
        ),
    }
}

impl<S: Scalar> CfrTables<S> {
    /// Updates the numbers of one node on one board.
    pub fn update_row(
        &mut self,
        start: usize,
        combos: usize,
        actions: usize,
        strategies: &Vec<S>,
        values: &Vec<S>,
        rows: &Vec<Vec<S>>,
        reach: &Vec<S>,
        rule: UpdateRule<S>,
    )
        requires
            start + combos * actions <= old(self)@.regrets.len(),
            old(self)@.sums.len() == old(self)@.regrets.len(),
            strategies@.len() == combos * actions,
            values@.len() == combos,
            reach@.len() == combos,
            rows_have(rows@, actions as int, combos as int),
        ensures
            final(self)@ == row_updated(
                old(self)@,
                start as int,
                combos as int,
                actions as int,
                strategies@,
                values@,
                rows_of(rows@),
                reach@,
                rule,
            ),
    {
        let ghost before = self@;
        let ghost all = rows_of(rows@);
        let ghost goal = row_updated(
            before,
            start as int,
            combos as int,
            actions as int,
            strategies@,
            values@,
            all,
            reach@,
            rule,
        );
        let size: usize = strategies.len();
        let total: usize = self.regrets.len();
        proof {
            assert(0int * (actions as int) == 0);
        }
        for combo in 0..combos
            invariant
                start + combos * actions <= total,
                total == before.regrets.len(),
                before.sums.len() == before.regrets.len(),
                strategies@.len() == combos * actions,
                size == combos * actions,
                values@.len() == combos,
                reach@.len() == combos,
                rows_have(rows@, actions as int, combos as int),
                all == rows_of(rows@),
                goal == row_updated(
                    before,
                    start as int,
                    combos as int,
                    actions as int,
                    strategies@,
                    values@,
                    all,
                    reach@,
                    rule,
                ),
                self@.regrets.len() == before.regrets.len(),
                self@.sums.len() == before.sums.len(),
                forall|s: int|
                    0 <= s < start + combo * actions ==> #[trigger] self.regrets@[s]
                        == goal.regrets[s],
                forall|s: int|
                    0 <= s < start + combo * actions ==> #[trigger] self.strategy_sum@[s]
                        == goal.sums[s],
                forall|s: int|
                    start + combo * actions <= s < total ==> #[trigger] self.regrets@[s]
                        == before.regrets[s],
                forall|s: int|
                    start + combo * actions <= s < total ==> #[trigger] self.strategy_sum@[s]
                        == before.sums[s],
        {
            for action in 0..actions
                invariant
                    combo < combos,
                    start + combos * actions <= total,
                    total == before.regrets.len(),
                    before.sums.len() == before.regrets.len(),
                    strategies@.len() == combos * actions,
                    size == combos * actions,
                    values@.len() == combos,
                    reach@.len() == combos,
                    rows_have(rows@, actions as int, combos as int),
                    all == rows_of(rows@),
                    goal == row_updated(
                        before,
                        start as int,
                        combos as int,
                        actions as int,
                        strategies@,
                        values@,
                        all,
                        reach@,
                        rule,
                    ),
                    self@.regrets.len() == before.regrets.len(),
                    self@.sums.len() == before.sums.len(),
                    forall|s: int|
                        0 <= s < start + combo * actions + action ==> #[trigger] self.regrets@[s]
                            == goal.regrets[s],
                    forall|s: int|
                        0 <= s < start + combo * actions + action ==> #[trigger] self.strategy_sum@[s]
                            == goal.sums[s],
                    forall|s: int|
                        start + combo * actions + action <= s < total ==> #[trigger] self.regrets@[s]
                            == before.regrets[s],
                    forall|s: int|
                        start + combo * actions + action <= s < total
                            ==> #[trigger] self.strategy_sum@[s] == before.sums[s],
            {
                proof {
                    cell_place(combos as int, actions as int, combo as int, action as int);
                    assert(rows@[action as int]@.len() == combos);
                    assert(all[action as int] == rows@[action as int]@);
                }
                let local: usize = combo * actions + action;
                let slot: usize = start + local;
                let (regret, sum): (S, S) = rule.apply(
                    self.regrets[slot],
                    self.strategy_sum[slot],
                    rows[action][combo].minus(values[combo]),
                    reach[combo].times(strategies[local]),
                );
                proof {
                    assert(goal.regrets[slot as int] == regret);
                    assert(goal.sums[slot as int] == sum);
                }
                self.regrets.set(slot, regret);
                self.strategy_sum.set(slot, sum);
            }
            proof {
                assert((combo + 1) * actions == combo * actions + actions) by (nonlinear_arith);
            }
        }
        proof {
            assert(self.regrets@ =~= goal.regrets);
            assert(self.strategy_sum@ =~= goal.sums);
        }
    }
}

/// Values with those of a child added, once for each code, taken where the code's permutation takes each
/// hand.
pub open spec fn codes_added<S: Scalar>(
    out: Seq<S>,
    child: Seq<S>,
    permutations: ComboPermutations,
    player: Player,
    codes: Seq<u8>,
    weight: S,
    n: nat,
) -> Seq<S>
    decreases n,
{
    if n == 0 {
        out
    } else {
        permuted_added(
            codes_added(out, child, permutations, player, codes, weight, (n - 1) as nat),
            child,
            permutations.map_of(player, codes[n - 1]),
            weight,
        )
    }
}

/// What stays the same in one iteration.
#[derive(Clone, Copy, Debug)]
pub struct CfrStep<S> {
    pub rule: UpdateRule<S>,
    pub limit: usize,
}

/// What a walk through a part of a tree gives: values, and tables.
pub ghost struct Outcome<S> {
    pub values: ValuesView<S>,
    pub tables: TablesView<S>,
}

/// What walks through the first actions of a node give.
pub ghost struct ActionRows<S> {
    pub oop: Seq<Seq<S>>,
    pub ip: Seq<Seq<S>>,
    pub tables: TablesView<S>,
    pub terminal_evals: usize,
}

impl<S: Scalar> RealSetup<S> {
    /// The values of a terminal node.
    pub open spec fn terminal_spec(
        self,
        node: PublicNode,
        reason: TerminalReason,
        board: Seq<Card>,
        oop_reach: Seq<S>,
        ip_reach: Seq<S>,
        limit: usize,
        mode: TerminalMode,
    ) -> ValuesView<S> {
        match reason {
            TerminalReason::Fold => self.fold_spec(
                board,
                node.state.pot,
                node.state.player,
                oop_reach,
                ip_reach,
            ),
            _ => self.showdown_spec(
                self.refs(board),
                oop_reach,
                ip_reach,
                node.state.pot,
                limit,
                mode,
            ),
        }
    }

    /// The probabilities of a node on a board by its regrets.
    pub open spec fn strategies_spec(
        self,
        node_id: int,
        board_slot: int,
        regrets: Seq<S>,
        combos: nat,
        actions: nat,
    ) -> Seq<S> {
        let start = self.row_start(node_id, board_slot);
        current_spec(
            regrets.subrange(start, start + self.row_len(node_id)),
            combos as int,
            actions as int,
        )
    }

    /// What a walk from a node on a board gives: terminal nodes are evaluated, chance nodes average over
    /// the cards to come, decision nodes weigh their actions and learn from them.
    pub open spec fn visit(
        self,
        node_id: int,
        board: Seq<Card>,
        oop_reach: Seq<S>,
        ip_reach: Seq<S>,
        tables: TablesView<S>,
        step: CfrStep<S>,
    ) -> Outcome<S>
        decreases self.tree.nodes@.len() - node_id, 1int, 0int,
    {
        let node = self.tree.nodes@[node_id];
        let nothing = Outcome {
            values: ValuesView::zero(self.oop().len(), self.ip().len()),
            tables,
        };
        match node.kind {
            PublicNodeKind::Terminal { reason } => Outcome {
                values: self.terminal_spec(
                    node,
                    reason,
                    board,
                    oop_reach,
                    ip_reach,
                    step.limit,
                    TerminalMode::Traverse,
                ),
                tables,
            },
            PublicNodeKind::Chance(chance) => if node.children@.len() == 0 {
                nothing
            } else {
                self.visit_cards(
                    node_id,
                    board,
                    oop_reach,
                    ip_reach,
                    tables,
                    step,
                    next_card_classes(board, self.oop(), self.ip()).len(),
                )
            },
            PublicNodeKind::Decision { player, actions } => if actions@.len() == 1 {
                let child = node.children@[0] as int;
                if node_id < child < self.tree.nodes@.len() {
                    self.visit(child, board, oop_reach, ip_reach, tables, step)
                } else {
                    nothing
                }
            } else {
                let slot = self.slot(board) as int;
                let strategies = self.strategies_spec(
                    node_id,
                    slot,
                    tables.regrets,
                    self.combos(player),
                    actions@.len(),
                );
                let rows = self.visit_actions(
                    node_id,
                    player,
                    strategies,
                    board,
                    oop_reach,
                    ip_reach,
                    tables,
                    step,
                    actions@.len(),
                );
                self.decided(node_id, slot, player, actions@.len(), strategies, rows, oop_reach, ip_reach, step)
            },
        }
    }

    /// What a decision node makes of its actions' values.
    pub open spec fn decided(
        self,
        node_id: int,
        board_slot: int,
        player: Player,
        actions: nat,
        strategies: Seq<S>,
        rows: ActionRows<S>,
        oop_reach: Seq<S>,
        ip_reach: Seq<S>,
        step: CfrStep<S>,
    ) -> Outcome<S> {
        let values = match player {
            Player::Oop => ValuesView {
                oop: acting_values(rows.oop, strategies, actions as int, self.oop().len()),
                ip: nonacting_values(rows.ip, actions as int, self.ip().len()),
                terminal_evals: rows.terminal_evals,
            },
            Player::Ip => ValuesView {
                oop: nonacting_values(rows.oop, actions as int, self.oop().len()),
                ip: acting_values(rows.ip, strategies, actions as int, self.ip().len()),
                terminal_evals: rows.terminal_evals,
            },
        };
        Outcome {
            values,
            tables: row_updated(
                rows.tables,
                self.row_start(node_id, board_slot),
                self.combos(player) as int,
                actions as int,
                strategies,
                values.side(player),
                match player {
                    Player::Oop => rows.oop,
                    Player::Ip => rows.ip,
                },
                match player {
                    Player::Oop => oop_reach,
                    Player::Ip => ip_reach,
                },
                step.rule,
            ),
        }
    }

    /// What walks through the first `n` classes of cards give.
    pub open spec fn visit_cards(
        self,
        node_id: int,
        board: Seq<Card>,
        oop_reach: Seq<S>,
        ip_reach: Seq<S>,
        tables: TablesView<S>,
        step: CfrStep<S>,
        n: nat,
    ) -> Outcome<S>
        decreases self.tree.nodes@.len() - node_id, 0int, n,
    {
        if n == 0 {
            Outcome { values: ValuesView::zero(self.oop().len(), self.ip().len()), tables }
        } else {
            let front = self.visit_cards(
                node_id,
                board,
                oop_reach,
                ip_reach,
                tables,
                step,
                (n - 1) as nat,
            );
            let class = next_card_classes(board, self.oop(), self.ip())[n - 1];
            let child = self.tree.nodes@[node_id].children@[0] as int;
            if node_id < child < self.tree.nodes@.len() {
                let below = self.visit(
                    child,
                    board.push(class.representative),
                    oop_reach,
                    ip_reach,
                    front.tables,
                    step,
                );
                let codes = member_codes(class.members);
                let weight = S::one_spec().over_spec(
                    S::from_count_spec(deck_without(board).len() as usize),
                );
                Outcome {
                    values: ValuesView {
                        oop: codes_added(
                            front.values.oop,
                            below.values.oop,
                            self.combo_permutations,
                            Player::Oop,
                            codes,
                            weight,
                            codes.len(),
                        ),
                        ip: codes_added(
                            front.values.ip,
                            below.values.ip,
                            self.combo_permutations,
                            Player::Ip,
                            codes,
                            weight,
                            codes.len(),
                        ),
                        terminal_evals: bounded(
                            front.values.terminal_evals + bounded(
                                below.values.terminal_evals * codes.len(),
                            ),
                        ) as usize,
                    },
                    tables: below.tables,
                }
            } else {
                front
            }
        }
    }

    /// What walks through the first `n` actions give.
    pub open spec fn visit_actions(
        self,
        node_id: int,
        player: Player,
        strategies: Seq<S>,
        board: Seq<Card>,
        oop_reach: Seq<S>,
        ip_reach: Seq<S>,
        tables: TablesView<S>,
        step: CfrStep<S>,
        n: nat,
    ) -> ActionRows<S>
        decreases self.tree.nodes@.len() - node_id, 0int, n,
    {
        if n == 0 {
            ActionRows { oop: Seq::empty(), ip: Seq::empty(), tables, terminal_evals: 0 }
        } else {
            let front = self.visit_actions(
                node_id,
                player,
                strategies,
                board,
                oop_reach,
                ip_reach,
                tables,
                step,
                (n - 1) as nat,
            );
            let node = self.tree.nodes@[node_id];
            let actions = node.children@.len() as int;
            let child = node.children@[n - 1] as int;
            if node_id < child < self.tree.nodes@.len() {
                let below = match player {
                    Player::Oop => self.visit(
                        child,
                        board,
                        reach_after(oop_reach, strategies, actions, n - 1),
                        ip_reach,
                        front.tables,
                        step,
                    ),
                    Player::Ip => self.visit(
                        child,
                        board,
                        oop_reach,
                        reach_after(ip_reach, strategies, actions, n - 1),
                        front.tables,
                        step,
                    ),
                };
                ActionRows {
                    oop: front.oop.push(below.values.oop),
                    ip: front.ip.push(below.values.ip),
                    tables: below.tables,
                    terminal_evals: bounded(
                        front.terminal_evals + below.values.terminal_evals,
                    ) as usize,
                }
            } else {
                front
            }
        }
    }
}

/// Classes of finished boards that were worked out before, by the cards of the boards in their order.
#[derive(Clone, Debug)]
pub struct TerminalRefCache {
    pub by_cards: Vec<KeyMap<Vec<TerminalCacheRef>>>,
}

impl TerminalRefCache {
    /// Whether classes are those of every board of so many cards with a key.
    pub open spec fn entry_holds<S: Scalar>(
        setup: RealSetup<S>,
        cards: int,
        key: u64,
        refs: Seq<TerminalCacheRef>,
    ) -> bool {
        forall|board: Seq<Card>| #[trigger]
            setup.knows(board) && board.len() == cards && ordered_key(board) as u64 == key
                ==> ref_views(refs) == setup.refs(board)
    }

    /// Whether all classes are those of their boards.
    pub open spec fn holds<S: Scalar>(self, setup: RealSetup<S>) -> bool {
        &&& self.by_cards@.len() == 6
        &&& forall|cards: int, key: u64|
            0 <= cards < 6 && #[trigger] self.by_cards@[cards]@.contains_key(key)
                ==> Self::entry_holds(setup, cards, key, self.by_cards@[cards]@[key]@)
    }

    /// A cache without classes.
    pub fn new() -> (r: Self)
        ensures
            r.by_cards@.len() == 6,
            forall|cards: int|
                0 <= cards < 6 ==> (#[trigger] r.by_cards@[cards])@ == Map::<
                    u64,
                    Vec<TerminalCacheRef>,
                >::empty(),
    {
        let mut by_cards: Vec<KeyMap<Vec<TerminalCacheRef>>> = Vec::new();
        for i in 0..6
            invariant
                by_cards@.len() == i,
                forall|cards: int|
                    0 <= cards < i ==> (#[trigger] by_cards@[cards])@ == Map::<
                        u64,
                        Vec<TerminalCacheRef>,
                    >::empty(),
        {
            by_cards.push(KeyMap::new());
        }
        TerminalRefCache { by_cards }
    }

    /// Works out the classes of a board if they were not yet.
    pub fn prepare<S: Scalar>(&mut self, setup: &RealSetup<S>, board: &Board)
        requires
            setup.wf(),
            board.wf(),
            setup.knows(board@),
            old(self).holds(*setup),
        ensures
            final(self).holds(*setup),
            final(self).by_cards@[board@.len() as int]@.contains_key(ordered_key(board@) as u64),
    {
        proof {
            board.wf_facts();
        }
        let cards: usize = board.len();
        let key: u64 = ordered_board_key(board);
        if self.by_cards[cards].get(key).is_none() {
            let refs: Vec<TerminalCacheRef> = setup.terminal_cache_refs(board);
            let ghost was = self.by_cards@;
            proof {
                assert forall|other: Seq<Card>| #[trigger]
                    setup.knows(other) && other.len() == cards && ordered_key(other) as u64
                        == key implies ref_views(refs@) == setup.refs(other) by {
                    ordered_key_bound(other);
                    ordered_key_bound(board@);
                    reveal_with_fuel(key_bound, 6);
                    ordered_keys_differ(other, board@);
                }
            }
            self.by_cards[cards].insert(key, refs);
            proof {
                assert forall|c: int, k: u64|
                    0 <= c < 6 && #[trigger] self.by_cards@[c]@.contains_key(k) implies Self::entry_holds(
                    *setup,
                    c,
                    k,
                    self.by_cards@[c]@[k]@,
                ) by {
                    if c == cards && k == key {
                    } else {
                        assert(was[c]@.contains_key(k));
                        assert(self.by_cards@[c]@[k] == was[c]@[k]);
                    }
                }
            }
        }
    }
}

/// What a walk works out once and uses again.
#[derive(Clone, Debug)]
pub struct SolverCaches<S> {
    pub refs: TerminalRefCache,
    pub sides: TerminalSideValueCache<S>,
    pub profile: TerminalWorkerProfile,
}

impl<S: Scalar> SolverCaches<S> {
    /// Whether what was worked out is right.
    pub open spec fn holds(self, setup: RealSetup<S>) -> bool {
        self.refs.holds(setup) && self.sides.holds(setup.terminal_cache@)
    }

    /// Nothing was worked out yet.
    pub fn new() -> (r: Self)
        ensures
            forall|setup: RealSetup<S>| r.holds(setup),
    {
        SolverCaches {
            refs: TerminalRefCache::new(),
            sides: TerminalSideValueCache::new(),
            profile: TerminalWorkerProfile::none(),
        }
    }
}

impl<S: Scalar> RealSetup<S> {
    /// Whether a board can be where a node is played.
    pub open spec fn plays(self, node_id: int, board: Board) -> bool {
        &&& 0 <= node_id < self.tree.nodes@.len()
        &&& board.wf()
        &&& self.knows(board@)
        &&& board@.len() == self.tree.nodes@[node_id].state.board@.len()
    }

    /// Adds a child's values once for each code of a class.
    pub fn add_codes(&self, out: &mut Values<S>, child: &Values<S>, codes: &Vec<u8>, weight: S)
        requires
            self.wf(),
            old(out)@.sized(self.oop().len(), self.ip().len()),
            child@.sized(self.oop().len(), self.ip().len()),
            forall|m: int| 0 <= m < codes@.len() ==> self.maps_code(#[trigger] codes@[m]),
        ensures
            final(out)@.sized(self.oop().len(), self.ip().len()),
            final(out)@.oop == codes_added(
                old(out)@.oop,
                child@.oop,
                self.combo_permutations,
                Player::Oop,
                codes@,
                weight,
                codes@.len(),
            ),
            final(out)@.ip == codes_added(
                old(out)@.ip,
                child@.ip,
                self.combo_permutations,
                Player::Ip,
                codes@,
                weight,
                codes@.len(),
            ),
            final(out)@.terminal_evals == old(out)@.terminal_evals,
    {
        let ghost before = out@;
        for m in 0..codes.len()
            invariant
                self.wf(),
                out@.sized(self.oop().len(), self.ip().len()),
                child@.sized(self.oop().len(), self.ip().len()),
                forall|k: int| 0 <= k < codes@.len() ==> self.maps_code(#[trigger] codes@[k]),
                out@.oop == codes_added(
                    before.oop,
                    child@.oop,
                    self.combo_permutations,
                    Player::Oop,
                    codes@,
                    weight,
                    m as nat,
                ),
                out@.ip == codes_added(
                    before.ip,
                    child@.ip,
                    self.combo_permutations,
                    Player::Ip,
                    codes@,
                    weight,
                    m as nat,
                ),
                out@.terminal_evals == before.terminal_evals,
        {
            let code: usize = codes[m] as usize;
            proof {
                assert(self.combo_permutations.fits(self.oop(), self.ip()));
                assert(self.maps_code(codes@[m as int]));
            }
            match &self.combo_permutations.maps[code] {
                Some(maps) => {
                    add_permuted_scaled_slice(
                        &mut out.oop,
                        &child.oop,
                        &maps.oop_source_to_target,
                        weight,
                    );
                    add_permuted_scaled_slice(
                        &mut out.ip,
                        &child.ip,
                        &maps.ip_source_to_target,
                        weight,
                    );
                },
                None => {},
            }
        }
    }

    /// Walks from a node on a board: terminal nodes are evaluated, chance nodes average over the cards to
    /// come, decision nodes weigh their actions and learn from them.
    pub fn traverse(
        &self,
        tables: &mut CfrTables<S>,
        node_id: usize,
        board: &Board,
        oop_reach: &Vec<S>,
        ip_reach: &Vec<S>,
        step: &CfrStep<S>,
        caches: &mut SolverCaches<S>,
    ) -> (r: Values<S>)
        requires
            self.wf(),
            self.plays(node_id as int, *board),
            oop_reach@.len() == self.oop().len(),
            ip_reach@.len() == self.ip().len(),
            old(tables)@.sized(self.action_slots as nat),
            old(caches).holds(*self),
        ensures
            r@ == self.visit(
                node_id as int,
                board@,
                oop_reach@,
                ip_reach@,
                old(tables)@,
                *step,
            ).values,
            final(tables)@ == self.visit(
                node_id as int,
                board@,
                oop_reach@,
                ip_reach@,
                old(tables)@,
                *step,
            ).tables,
            r@.sized(self.oop().len(), self.ip().len()),
            final(tables)@.sized(self.action_slots as nat),
            final(caches).holds(*self),
        decreases self.tree.nodes@.len() - node_id,
    {
        proof {
            assert(is_shaped_at(self.tree.nodes@, node_id as int));
            self.knows_starts_with_flop(board@);
        }
        let node: &PublicNode = &self.tree.nodes[node_id];
        match &node.kind {
            PublicNodeKind::Terminal { reason } => match reason {
                TerminalReason::Fold => self.fold_values(
                    board,
                    node.state.pot,
                    node.state.player,
                    oop_reach,
                    ip_reach,
                ),
                _ => self.traverse_showdown(board, node.state.pot, oop_reach, ip_reach, step, caches),
            },
            PublicNodeKind::Chance(_) => {
                if node.children.len() == 0 {
                    return Values::zero(oop_reach.len(), ip_reach.len());
                }
                self.traverse_cards(tables, node_id, board, oop_reach, ip_reach, step, caches)
            },
            PublicNodeKind::Decision { player, actions } => {
                if actions.len() == 1 {
                    let child: usize = node.children[0];
                    proof {
                        assert(node_id < node.children@[0] < self.tree.nodes@.len());
                    }
                    return self.traverse(tables, child, board, oop_reach, ip_reach, step, caches);
                }
                self.traverse_actions(
                    tables,
                    node_id,
                    *player,
                    actions.len(),
                    board,
                    oop_reach,
                    ip_reach,
                    step,
                    caches,
                )
            },
        }
    }

    fn traverse_showdown(
        &self,
        board: &Board,
        pot: u32,
        oop_reach: &Vec<S>,
        ip_reach: &Vec<S>,
        step: &CfrStep<S>,
        caches: &mut SolverCaches<S>,
    ) -> (r: Values<S>)
        requires
            self.wf(),
            board.wf(),
            self.knows(board@),
            oop_reach@.len() == self.oop().len(),
            ip_reach@.len() == self.ip().len(),
            old(caches).holds(*self),
        ensures
            r@ == self.showdown_spec(
                self.refs(board@),
                oop_reach@,
                ip_reach@,
                pot,
                step.limit,
                TerminalMode::Traverse,
            ),
            r@.sized(self.oop().len(), self.ip().len()),
            final(caches).holds(*self),
    {
        proof {
            board.wf_facts();
            self.known_refs_are_held(*board);
        }
        caches.refs.prepare(self, board);
        let key: u64 = ordered_board_key(board);
        proof {
            let cards = board@.len() as int;
            assert(caches.refs.by_cards@[cards]@.contains_key(key));
            assert(TerminalRefCache::entry_holds(
                *self,
                cards,
                key,
                caches.refs.by_cards@[cards]@[key]@,
            ));
        }
        match caches.refs.by_cards[board.len()].get(key) {
            Some(refs) => self.showdown_values(
                refs,
                oop_reach,
                ip_reach,
                pot,
                step.limit,
                TerminalMode::Traverse,
                &mut caches.sides,
                &mut caches.profile,
            ),
            None => {
                proof {
                    assert(false);
                }
                Values::zero(oop_reach.len(), ip_reach.len())
            },
        }
    }

    fn traverse_cards(
        &self,
        tables: &mut CfrTables<S>,
        node_id: usize,
        board: &Board,
        oop_reach: &Vec<S>,
        ip_reach: &Vec<S>,
        step: &CfrStep<S>,
        caches: &mut SolverCaches<S>,
    ) -> (r: Values<S>)
        requires
            self.wf(),
            self.plays(node_id as int, *board),
            self.tree.nodes@[node_id as int].kind is Chance,
            self.tree.nodes@[node_id as int].children@.len() > 0,
            oop_reach@.len() == self.oop().len(),
            ip_reach@.len() == self.ip().len(),
            old(tables)@.sized(self.action_slots as nat),
            old(caches).holds(*self),
        ensures
            r@ == self.visit_cards(
                node_id as int,
                board@,
                oop_reach@,
                ip_reach@,
                old(tables)@,
                *step,
                next_card_classes(board@, self.oop(), self.ip()).len(),
            ).values,
            final(tables)@ == self.visit_cards(
                node_id as int,
                board@,
                oop_reach@,
                ip_reach@,
                old(tables)@,
                *step,
                next_card_classes(board@, self.oop(), self.ip()).len(),
            ).tables,
            r@.sized(self.oop().len(), self.ip().len()),
            final(tables)@.sized(self.action_slots as nat),
            final(caches).holds(*self),
        decreases self.tree.nodes@.len() - node_id, 0int,
    {
        let ghost before = tables@;
        let ghost (oop, ip) = (self.oop(), self.ip());
        let ghost views = next_card_classes(board@, oop, ip);
        proof {
            assert(is_shaped_at(self.tree.nodes@, node_id as int));
            self.knows_starts_with_flop(board@);
            class_facts(board@, oop, ip, deck_without(board@).len());
        }
        let child: usize = self.tree.nodes[node_id].children[0];
        proof {
            assert(node_id < self.tree.nodes@[node_id as int].children@[0] < self.tree.nodes@.len());
        }
        let isomorphism: NextCardIsomorphism = next_card_isomorphism(
            board,
            &self.oop_range,
            &self.ip_range,
        );
        let weight: S = S::one().over(S::from_count(isomorphism.concrete_events));
        let mut out: Values<S> = Values::zero(oop_reach.len(), ip_reach.len());
        for k in 0..isomorphism.classes.len()
            invariant
                self.wf(),
                self.plays(node_id as int, *board),
                board@.len() < 5,
                oop == self.oop(),
                ip == self.ip(),
                views == next_card_classes(board@, oop, ip),
                views == class_views(isomorphism.classes@),
                views.len() == isomorphism.classes@.len(),
                forall|i: int|
                    0 <= i < views.len() ==> {
                        let class = #[trigger] views[i];
                        &&& !board@.contains(class.representative)
                        &&& forall|j: int|
                            0 <= j < class.members.len() ==> {
                                let member = #[trigger] class.members[j];
                                &&& member.permutation_to_representative.wf()
                                &&& crate::isomorphism::is_symmetry(
                                    board@,
                                    oop,
                                    ip,
                                    member.permutation_to_representative,
                                )
                            }
                    },
                child == self.tree.nodes@[node_id as int].children@[0],
                node_id < child < self.tree.nodes@.len(),
                self.tree.nodes@[child as int].state.board@.len() == board@.len() + 1,
                weight == S::one_spec().over_spec(
                    S::from_count_spec(deck_without(board@).len() as usize),
                ),
                oop_reach@.len() == self.oop().len(),
                ip_reach@.len() == self.ip().len(),
                tables@.sized(self.action_slots as nat),
                caches.holds(*self),
                out@.sized(self.oop().len(), self.ip().len()),
                out@ == self.visit_cards(
                    node_id as int,
                    board@,
                    oop_reach@,
                    ip_reach@,
                    before,
                    *step,
                    k as nat,
                ).values,
                tables@ == self.visit_cards(
                    node_id as int,
                    board@,
                    oop_reach@,
                    ip_reach@,
                    before,
                    *step,
                    k as nat,
                ).tables,
        {
            let class: &CardClass = &isomorphism.classes[k];
            proof {
                assert(class_views(isomorphism.classes@)[k as int] == isomorphism.classes@[k as int]@);
                assert(!board@.contains(views[k as int].representative));
                self.knows_next(board@, k as int);
            }
            let next: Board = board.with_card(class.representative);
            let below: Values<S> = self.traverse(
                tables,
                child,
                &next,
                oop_reach,
                ip_reach,
                step,
                caches,
            );
            let codes: Vec<u8> = codes_of_class(class);
            proof {
                assert(codes@ =~= member_codes(views[k as int].members));
                assert forall|m: int| 0 <= m < codes@.len() implies self.maps_code(
                    #[trigger] codes@[m],
                ) by {
                    let member = views[k as int].members[m];
                    self.symmetry_is_mapped(board@, member.permutation_to_representative);
                }
            }
            self.add_codes(&mut out, &below, &codes, weight);
            out.terminal_evals =
            bounded_sum(
                out.terminal_evals,
                bounded_product(below.terminal_evals, codes.len()),
            );
        }
        out
    }

    fn traverse_actions(
        &self,
        tables: &mut CfrTables<S>,
        node_id: usize,
        player: Player,
        actions: usize,
        board: &Board,
        oop_reach: &Vec<S>,
        ip_reach: &Vec<S>,
        step: &CfrStep<S>,
        caches: &mut SolverCaches<S>,
    ) -> (r: Values<S>)
        requires
            self.wf(),
            self.plays(node_id as int, *board),
            self.tree.nodes@[node_id as int].kind is Decision,
            self.tree.nodes@[node_id as int].kind->player == player,
            self.tree.nodes@[node_id as int].kind->actions@.len() == actions,
            actions > 1,
            oop_reach@.len() == self.oop().len(),
            ip_reach@.len() == self.ip().len(),
            old(tables)@.sized(self.action_slots as nat),
            old(caches).holds(*self),
        ensures
            r@ == self.visit(
                node_id as int,
                board@,
                oop_reach@,
                ip_reach@,
                old(tables)@,
                *step,
            ).values,
            final(tables)@ == self.visit(
                node_id as int,
                board@,
                oop_reach@,
                ip_reach@,
                old(tables)@,
                *step,
            ).tables,
            r@.sized(self.oop().len(), self.ip().len()),
            final(tables)@.sized(self.action_slots as nat),
            final(caches).holds(*self),
        decreases self.tree.nodes@.len() - node_id, 0int,
    {
        let ghost before = tables@;
        let ghost node = self.tree.nodes@[node_id as int];
        proof {
            assert(is_shaped_at(self.tree.nodes@, node_id as int));
            self.knows_has_slot(board@);
            assert(self.infosets@[node_id as int] == infoset_of(
                self.tree.nodes@,
                self.oop().len(),
                self.ip().len(),
                self.turns().len(),
                self.rivers().len(),
                node_id as int,
            ));
            self.row_fits(node_id as int, self.slot(board@) as int);
        }
        let slot: usize = match self.board_slot(board) {
            Ok(slot) => slot,
            Err(_) => {
                proof {
                    assert(false);
                }
                0
            },
        };
        let combos: usize = match player {
            Player::Oop => oop_reach.len(),
            Player::Ip => ip_reach.len(),
        };
        let (start, row): (usize, usize) = self.row_of(node_id, slot);
        let end: usize = start + row;
        let strategies: Vec<S> = current_strategies(
            vstd::slice::slice_subrange(tables.regrets.as_slice(), start, end),
            combos,
            actions,
        );
        let ghost own = self.strategies_spec(
            node_id as int,
            slot as int,
            before.regrets,
            self.combos(player),
            actions as nat,
        );
        proof {
            assert(strategies@ == own);
        }
        let mut oop_rows: Vec<Vec<S>> = Vec::new();
        let mut ip_rows: Vec<Vec<S>> = Vec::new();
        let mut terminal_evals: usize = 0;
        proof {
            assert(rows_of(oop_rows@) =~= Seq::<Seq<S>>::empty());
            assert(rows_of(ip_rows@) =~= Seq::<Seq<S>>::empty());
        }
        for k in 0..actions
            invariant
                self.wf(),
                self.plays(node_id as int, *board),
                node == self.tree.nodes@[node_id as int],
                is_shaped_at(self.tree.nodes@, node_id as int),
                node.kind is Decision,
                node.kind->actions@.len() == actions,
                combos == self.combos(player),
                strategies@.len() == combos * actions,
                strategies@ == own,
                oop_reach@.len() == self.oop().len(),
                ip_reach@.len() == self.ip().len(),
                tables@.sized(self.action_slots as nat),
                caches.holds(*self),
                rows_have(oop_rows@, k as int, self.oop().len() as int),
                rows_have(ip_rows@, k as int, self.ip().len() as int),
                ({
                    let rows = self.visit_actions(
                        node_id as int,
                        player,
                        own,
                        board@,
                        oop_reach@,
                        ip_reach@,
                        before,
                        *step,
                        k as nat,
                    );
                    &&& rows_of(oop_rows@) == rows.oop
                    &&& rows_of(ip_rows@) == rows.ip
                    &&& terminal_evals == rows.terminal_evals
                    &&& tables@ == rows.tables
                }),
        {
            let child: usize = self.tree.nodes[node_id].children[k];
            proof {
                assert(node_id < node.children@[k as int] < self.tree.nodes@.len());
                assert(self.tree.nodes@[node.children@[k as int] as int].state.board@.len()
                    == node.state.board@.len());
            }
            let below: Values<S> = match player {
                Player::Oop => {
                    let next: Vec<S> = strategy_reach(oop_reach, &strategies, actions, k);
                    self.traverse(tables, child, board, &next, ip_reach, step, caches)
                },
                Player::Ip => {
                    let next: Vec<S> = strategy_reach(ip_reach, &strategies, actions, k);
                    self.traverse(tables, child, board, oop_reach, &next, step, caches)
                },
            };
            let ghost was_oop = rows_of(oop_rows@);
            let ghost was_ip = rows_of(ip_rows@);
            terminal_evals = bounded_sum(terminal_evals, below.terminal_evals);
            let ghost below_view = below@;
            oop_rows.push(below.oop);
            ip_rows.push(below.ip);
            proof {
                assert(rows_of(oop_rows@) =~= was_oop.push(below_view.oop));
                assert(rows_of(ip_rows@) =~= was_ip.push(below_view.ip));
            }
        }
        let oop_len: usize = oop_reach.len();
        let ip_len: usize = ip_reach.len();
        let rule: UpdateRule<S> = step.rule;
        match player {
            Player::Oop => {
                let oop: Vec<S> = combine_acting(&oop_rows, &strategies, actions, oop_len);
                let ip: Vec<S> = combine_nonacting(&ip_rows, actions, ip_len);
                tables.update_row(start, combos, actions, &strategies, &oop, &oop_rows, oop_reach, rule);
                Values { oop, ip, terminal_evals }
            },
            Player::Ip => {
                let oop: Vec<S> = combine_nonacting(&oop_rows, actions, oop_len);
                let ip: Vec<S> = combine_acting(&ip_rows, &strategies, actions, ip_len);
                tables.update_row(start, combos, actions, &strategies, &ip, &ip_rows, ip_reach, rule);
                Values { oop, ip, terminal_evals }
            },
        }
    }

    /// Where the numbers of a node on a board start, and how many they are.
    pub fn row_of(&self, node_id: usize, board_slot: usize) -> (r: (usize, usize))
        requires
            self.wf(),
            node_id < self.tree.nodes@.len(),
            self.infosets@[node_id as int] is Some,
            board_slot < board_count_of(
                self.tree.nodes@[node_id as int].state.board@.len(),
                self.turns().len(),
                self.rivers().len(),
            ),
        ensures
            r.0 == self.row_start(node_id as int, board_slot as int),
            r.1 == self.row_len(node_id as int),
            r.0 + r.1 <= self.action_slots,
    {
        proof {
            self.row_fits(node_id as int, board_slot as int);
        }
        match self.infosets[node_id] {
            Some(infoset) => {
                let combos: usize = match infoset.player {
                    Player::Oop => self.oop_range.combos().len(),
                    Player::Ip => self.ip_range.combos().len(),
                };
                let row: usize = combos * infoset.actions;
                (infoset.slots_start + board_slot * row, row)
            },
            None => (0, 0),
        }
    }
}

/// The codes of the permutations of a class's members.
pub fn codes_of_class(class: &CardClass) -> (r: Vec<u8>)
    ensures
        r@ == member_codes(class.members@),
{
    let mut codes: Vec<u8> = Vec::new();
    for m in 0..class.members.len()
        invariant
            codes@ =~= member_codes(class.members@).take(m as int),
    {
        codes.push(class.members[m].permutation_to_representative.code());
    }
    proof {
        let all = member_codes(class.members@);
        assert(all.take(all.len() as int) =~= all);
    }
    codes
}

} // verus!
