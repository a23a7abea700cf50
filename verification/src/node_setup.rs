//! What a solver with tables at every node knows before it starts.
use vstd::prelude::*;
use crate::arith::{bounded, bounded_sum};
use crate::cards::{Board, Card};
use crate::fold_weights::{
    live_combo_indices, live_combo_targets, live_indices, live_targets, PreparedLiveTarget,
};
use crate::index_map::KeyMap;
use crate::node_sweep::{
    are_hands, are_rising, are_sorted_targets, lemma_targets_are_hands, prepared_river_targets,
    rivers_swept, sort_combo_targets_by_strength, sorted_targets_rise, targets_swept,
    PreparedRiverTarget, SweepTarget,
};
use crate::phase_states::{compares, lemma_graph_knows};
use crate::range::{ComboWeight, RangeSpec};
use crate::real_setup::RealSetup;
use crate::scalar::Scalar;
use crate::state_graph::{
    collect_states, is_graph, ordered_board_key, ordered_key, ordered_keys_differ, GraphState,
};
use crate::terminal_cache::{targets_below, PreparedComboTarget, TerminalEvalCache};
use crate::tree::{Player, PublicNode, PublicNodeKind, PublicTree, TerminalReason};
use crate::tree_shape::{boards_are_streets, is_preorder, is_shaped, is_shaped_at};

verus! {

/// The hands of both players on a finished board, from the weakest to the strongest.
#[derive(Clone, Debug)]
pub struct NodeLocalTerminalCache {
    pub oop_targets_sorted: Vec<PreparedComboTarget>,
    pub ip_targets_sorted: Vec<PreparedComboTarget>,
    pub oop_river_targets_sorted: Vec<PreparedRiverTarget>,
    pub ip_river_targets_sorted: Vec<PreparedRiverTarget>,
}

/// Whether lists are the hands of a player on a board, sorted.
pub open spec fn are_sorted_hands(
    cache: TerminalEvalCache,
    player: Player,
    sorted: Seq<PreparedComboTarget>,
    rivers: Seq<PreparedRiverTarget>,
    count: nat,
) -> bool {
    &&& are_sorted_targets(cache.prepared, cache.targets(player), sorted)
    &&& are_rising(targets_swept(cache.prepared, sorted))
    &&& rivers_swept(rivers) == targets_swept(cache.prepared, sorted)
    &&& are_hands(targets_swept(cache.prepared, sorted), count)
    &&& forall|k: int|
        0 <= k < sorted.len() ==> {
            let target = #[trigger] sorted[k];
            target.range_index < count && target.board_index < cache.prepared.count()
        }
}

impl NodeLocalTerminalCache {
    /// Whether the lists are those of a finished board.
    pub open spec fn fits(self, cache: TerminalEvalCache, oop: nat, ip: nat) -> bool {
        &&& are_sorted_hands(
            cache,
            Player::Oop,
            self.oop_targets_sorted@,
            self.oop_river_targets_sorted@,
            oop,
        )
        &&& are_sorted_hands(
            cache,
            Player::Ip,
            self.ip_targets_sorted@,
            self.ip_river_targets_sorted@,
            ip,
        )
    }

    /// The hands of a player from the weakest to the strongest.
    pub open spec fn hands(self, cache: TerminalEvalCache, player: Player) -> Seq<SweepTarget> {
        match player {
            Player::Oop => targets_swept(cache.prepared, self.oop_targets_sorted@),
            Player::Ip => targets_swept(cache.prepared, self.ip_targets_sorted@),
        }
    }
}

/// The hands of both players off a board.
#[derive(Clone, Debug)]
pub struct NodeLocalFoldCache {
    pub board: Board,
    pub oop_live_targets: Vec<PreparedLiveTarget>,
    pub ip_live_targets: Vec<PreparedLiveTarget>,
}

impl NodeLocalFoldCache {
    /// Whether the lists are those of a board.
    pub open spec fn fits<S>(self, board: Seq<Card>, oop: Seq<ComboWeight<S>>, ip: Seq<ComboWeight<S>>) -> bool {
        &&& self.board.wf()
        &&& self.board@ == board
        &&& self.oop_live_targets@ == live_targets(oop, board, oop.len())
        &&& self.ip_live_targets@ == live_targets(ip, board, ip.len())
    }
}

/// How often each hand wins against each other over all boards that a flop can become.
#[derive(Clone, Debug)]
pub struct NodeLocalAllInOracle<S> {
    pub oop_payoffs: Vec<Vec<S>>,
    pub ip_payoffs: Vec<Vec<S>>,
    pub oop_live_indices: Vec<usize>,
    pub ip_live_indices: Vec<usize>,
    pub divisor: S,
}

/// How many boards a hand off a board of so many cards can be compared on against a given opponent hand's
/// holder: all that its two cards leave.
pub open spec fn runouts<S: Scalar>(cards: nat) -> S {
    if cards == 3 {
        S::from_u32_spec(1081)
    } else if cards == 4 {
        S::from_u32_spec(46)
    } else {
        S::one_spec()
    }
}

/// How many boards a hand off a board of so many cards can be compared on.
pub fn terminal_runout_count_for_live_combo<S: Scalar>(board_cards: usize) -> (r: S)
    ensures
        r == runouts::<S>(board_cards as nat),
{
    match board_cards {
        3 => S::from_u32(1081),
        4 => S::from_u32(46),
        _ => S::one(),
    }
}

/// What a hand of the player out of position gets on a finished board from one of the other player: one
/// chip, none or minus one; nothing is said if both cannot be held.
pub open spec fn outcome<S: Scalar>(cache: TerminalEvalCache, oop: int, ip: int) -> Option<S> {
    match (cache.oop_combo_indices@[oop], cache.ip_combo_indices@[ip]) {
        (Some(a), Some(b)) => if cache.prepared.combos_spec()[a as int].collides_spec(
            cache.prepared.combos_spec()[b as int],
        ) {
            None
        } else if cache.prepared.strengths_spec()[a as int]
            > cache.prepared.strengths_spec()[b as int] {
            Some(S::one_spec())
        } else if cache.prepared.strengths_spec()[a as int]
            < cache.prepared.strengths_spec()[b as int] {
            Some(S::one_spec().negate_spec())
        } else {
            Some(S::zero_spec())
        },
        _ => None,
    }
}

/// What a hand gets from one of the other player over the first `n` finished boards.
pub open spec fn payoff<S: Scalar>(
    caches: Seq<TerminalEvalCache>,
    player: Player,
    own: int,
    opponent: int,
    n: nat,
) -> S
    decreases n,
{
    if n == 0 {
        S::zero_spec()
    } else {
        let front = payoff::<S>(caches, player, own, opponent, (n - 1) as nat);
        match player {
            Player::Oop => match outcome::<S>(caches[n - 1], own, opponent) {
                Some(value) => front.plus_spec(value),
                None => front,
            },
            Player::Ip => match outcome::<S>(caches[n - 1], opponent, own) {
                Some(value) => front.minus_spec(value),
                None => front,
            },
        }
    }
}

/// Whether rows hold what each hand gets from each of the other player.
pub open spec fn are_payoffs<S: Scalar>(
    caches: Seq<TerminalEvalCache>,
    player: Player,
    rows: Seq<Vec<S>>,
    own: nat,
    opponents: nat,
) -> bool {
    &&& rows.len() == own
    &&& forall|i: int|
        0 <= i < own ==> (#[trigger] rows[i])@ == Seq::new(
            opponents,
            |j: int| payoff::<S>(caches, player, i, j, caches.len()),
        )
}

/// Whether rows of payoffs may take so much memory.
pub open spec fn oracle_is_allowed(limit_mib: int, oop: nat, ip: nat) -> bool {
    limit_mib > 0 && oop * ip * 8 <= limit_mib * 1024 * 1024
}

/// Whether a node ends in a fold.
pub open spec fn folds(node: PublicNode) -> bool {
    node.kind matches PublicNodeKind::Terminal { reason } && reason == TerminalReason::Fold
}

/// How many regrets a state has.
pub open spec fn state_slots<S: Scalar>(setup: RealSetup<S>, state: GraphState) -> nat {
    match setup.tree.nodes@[state.node_id as int].kind {
        PublicNodeKind::Decision { player, actions } => if actions@.len() > 1 {
            setup.combos(player) * actions@.len()
        } else {
            0
        },
        _ => 0,
    }
}

/// How many regrets the first `n` states have.
pub open spec fn graph_slots<S: Scalar>(setup: RealSetup<S>, states: Seq<GraphState>, n: nat) -> int
    decreases n,
{
    if n == 0 {
        0
    } else {
        bounded(
            graph_slots(setup, states, (n - 1) as nat) + state_slots(setup, states[n - 1]),
        )
    }
}

/// Whether a state leaves a choice.
pub open spec fn chooses<S: Scalar>(setup: RealSetup<S>, state: GraphState) -> bool {
    setup.tree.nodes@[state.node_id as int].kind matches PublicNodeKind::Decision { player, actions }
        && actions@.len() > 1
}

/// How many of the first `n` states leave a choice.
pub open spec fn graph_choices<S: Scalar>(setup: RealSetup<S>, states: Seq<GraphState>, n: nat) -> nat
    decreases n,
{
    if n == 0 {
        0
    } else {
        graph_choices(setup, states, (n - 1) as nat) + (if chooses(setup, states[n - 1]) {
            1nat
        } else {
            0
        })
    }
}

/// Everything about a solver with tables at every node that does not change while it runs.
#[derive(Clone, Debug)]
pub struct NodeSetup<S> {
    pub base: RealSetup<S>,
    pub states: Vec<GraphState>,
    pub terminal_targets: Vec<NodeLocalTerminalCache>,
    pub terminal_cache_indices: Vec<Vec<usize>>,
    pub fold_cache_index: Vec<Option<usize>>,
    pub fold_cache: Vec<NodeLocalFoldCache>,
    pub allin_oracle: Option<NodeLocalAllInOracle<S>>,
    pub action_slots: usize,
    pub decision_states: usize,
}

impl<S: Scalar> NodeSetup<S> {
    /// The node of a state.
    pub open spec fn node(self, i: int) -> PublicNode {
        self.base.tree.nodes@[self.states@[i].node_id as int]
    }

    /// Whether a state is an all-in on the flop whose payoffs were worked out.
    pub open spec fn asks_oracle(self, i: int) -> bool {
        &&& self.allin_oracle is Some
        &&& self.states@[i].board@.len() == 3
        &&& self.node(i).kind matches PublicNodeKind::Terminal { reason } && reason
            == TerminalReason::AllIn
    }

    /// The finished boards that a state is compared on.
    pub open spec fn boards_of(self, i: int) -> Seq<usize> {
        if compares(self.node(i)) && !self.asks_oracle(i) {
            self.base.cache_indices(self.states@[i].board@)
        } else {
            Seq::empty()
        }
    }

    /// Whether a state's lists are those of its board.
    pub open spec fn state_fits(self, i: int) -> bool {
        let state = self.states@[i];
        &&& self.base.plays(state.node_id as int, state.board)
        &&& self.terminal_cache_indices@[i]@ == self.boards_of(i)
        &&& forall|k: int|
            0 <= k < self.terminal_cache_indices@[i]@.len()
                ==> #[trigger] self.terminal_cache_indices@[i]@[k] < self.base.terminal_cache@.len()
        &&& folds(self.node(i)) ==> {
            &&& self.fold_cache_index@[i] is Some
            &&& self.fold_cache_index@[i]->Some_0 < self.fold_cache@.len()
            &&& self.fold_cache@[self.fold_cache_index@[i]->Some_0 as int].fits(
                state.board@,
                self.base.oop(),
                self.base.ip(),
            )
        }
    }

    /// Whether payoffs are those of the flop.
    pub open spec fn oracle_fits(self, oracle: NodeLocalAllInOracle<S>) -> bool {
        let (oop, ip) = (self.base.oop(), self.base.ip());
        let board = self.base.flop_board@;
        &&& are_payoffs(
            self.base.terminal_cache@,
            Player::Oop,
            oracle.oop_payoffs@,
            oop.len(),
            ip.len(),
        )
        &&& are_payoffs(
            self.base.terminal_cache@,
            Player::Ip,
            oracle.ip_payoffs@,
            ip.len(),
            oop.len(),
        )
        &&& oracle.oop_live_indices@ == live_indices(oop, board, oop.len())
        &&& oracle.ip_live_indices@ == live_indices(ip, board, ip.len())
        &&& forall|k: int|
            0 <= k < oracle.oop_live_indices@.len() ==> #[trigger] oracle.oop_live_indices@[k]
                < oop.len()
        &&& forall|k: int|
            0 <= k < oracle.ip_live_indices@.len() ==> #[trigger] oracle.ip_live_indices@[k] < ip.len()
        &&& oracle.divisor == runouts::<S>(3)
    }

    /// Whether every table is that of the tree and the ranges.
    pub open spec fn wf(self) -> bool {
        &&& self.base.wf()
        &&& self.base.oop().len() <= 65536
        &&& self.base.ip().len() <= 65536
        &&& is_graph(
            true,
            self.base.tree,
            self.base.oop(),
            self.base.ip(),
            self.states@,
        )
        &&& self.terminal_targets@.len() == self.base.terminal_cache@.len()
        &&& forall|k: int|
            0 <= k < self.terminal_targets@.len() ==> (#[trigger] self.terminal_targets@[k]).fits(
                self.base.terminal_cache@[k],
                self.base.oop().len(),
                self.base.ip().len(),
            )
        &&& self.terminal_cache_indices@.len() == self.states@.len()
        &&& self.fold_cache_index@.len() == self.states@.len()
        &&& forall|i: int| 0 <= i < self.states@.len() ==> #[trigger] self.state_fits(i)
        &&& self.allin_oracle matches Some(oracle) ==> self.oracle_fits(oracle)
        &&& self.action_slots == graph_slots(self.base, self.states@, self.states@.len())
        &&& self.decision_states == graph_choices(self.base, self.states@, self.states@.len())
    }
}

proof fn lemma_targets_bound(indices: Seq<Option<usize>>, n: nat)
    ensures
        targets_below(indices, n).len() <= n,
    decreases n,
{
    if n > 0 {
        lemma_targets_bound(indices, (n - 1) as nat);
    }
}

fn sorted_hands(cache: &TerminalEvalCache, targets: &Vec<PreparedComboTarget>, player: Player, count: usize) -> (r: (
    Vec<PreparedComboTarget>,
    Vec<PreparedRiverTarget>,
))
    requires
        cache.prepared.wf(),
        count <= 65536,
        cache.indices(player).len() == count,
        targets@ == cache.targets(player),
        forall|k: int|
            0 <= k < targets@.len() ==> {
                let target = #[trigger] targets@[k];
                target.range_index < count && target.board_index < cache.prepared.count()
            },
    ensures
        are_sorted_hands(*cache, player, r.0@, r.1@, count as nat),
{
    let sorted: Vec<PreparedComboTarget> = sort_combo_targets_by_strength(&cache.prepared, targets);
    proof {
        lemma_targets_bound(cache.indices(player), cache.indices(player).len());
        sorted_targets_rise(cache.prepared, targets@, sorted@);
        assert forall|k: int| 0 <= k < sorted@.len() implies {
            let target = #[trigger] sorted@[k];
            target.range_index < count && target.board_index < cache.prepared.count()
        } by {
            assert(targets@.contains(sorted@[k]));
            let p = choose|p: int| 0 <= p < targets@.len() && targets@[p] == sorted@[k];
            assert(targets@[p].range_index < count);
        }
        lemma_targets_are_hands(cache.prepared, sorted@, count as nat);
    }
    let rivers: Vec<PreparedRiverTarget> = prepared_river_targets(&cache.prepared, &sorted);
    (sorted, rivers)
}

impl<S: Scalar> RealSetup<S> {
    /// The hands of both players on every finished board, sorted.
    fn sorted_terminal_targets(&self) -> (r: Vec<NodeLocalTerminalCache>)
        requires
            self.wf(),
            self.oop().len() <= 65536,
            self.ip().len() <= 65536,
        ensures
            r@.len() == self.terminal_cache@.len(),
            forall|k: int|
                0 <= k < r@.len() ==> (#[trigger] r@[k]).fits(
                    self.terminal_cache@[k],
                    self.oop().len(),
                    self.ip().len(),
                ),
    {
        let mut list: Vec<NodeLocalTerminalCache> = Vec::new();
        let oop_count: usize = self.oop_range.combos().len();
        let ip_count: usize = self.ip_range.combos().len();
        for k in 0..self.terminal_cache.len()
            invariant
                self.wf(),
                oop_count == self.oop().len(),
                ip_count == self.ip().len(),
                oop_count <= 65536,
                ip_count <= 65536,
                list@.len() == k,
                forall|m: int|
                    0 <= m < k ==> (#[trigger] list@[m]).fits(
                        self.terminal_cache@[m],
                        self.oop().len(),
                        self.ip().len(),
                    ),
        {
            let cache: &TerminalEvalCache = &self.terminal_cache[k];
            proof {
                assert(self.terminal_cache@[k as int].fits(self.oop(), self.ip()));
            }
            let (oop_targets_sorted, oop_river_targets_sorted) = sorted_hands(
                cache,
                &cache.oop_targets,
                Player::Oop,
                oop_count,
            );
            let (ip_targets_sorted, ip_river_targets_sorted) = sorted_hands(
                cache,
                &cache.ip_targets,
                Player::Ip,
                ip_count,
            );
            list.push(
                NodeLocalTerminalCache {
                    oop_targets_sorted,
                    ip_targets_sorted,
                    oop_river_targets_sorted,
                    ip_river_targets_sorted,
                },
            );
        }
        list
    }

    /// What a hand gets from one of the other player over all finished boards.
    fn pair_payoff(&self, player: Player, own: usize, opponent: usize) -> (r: S)
        requires
            self.wf(),
            own < self.combos(player),
            player == Player::Oop ==> opponent < self.ip().len(),
            player == Player::Ip ==> opponent < self.oop().len(),
        ensures
            r == payoff::<S>(
                self.terminal_cache@,
                player,
                own as int,
                opponent as int,
                self.terminal_cache@.len(),
            ),
    {
        let (oop, ip): (usize, usize) = match player {
            Player::Oop => (own, opponent),
            Player::Ip => (opponent, own),
        };
        let mut total: S = S::zero();
        for k in 0..self.terminal_cache.len()
            invariant
                self.wf(),
                oop < self.oop().len(),
                ip < self.ip().len(),
                (oop, ip) == (match player {
                    Player::Oop => (own, opponent),
                    Player::Ip => (opponent, own),
                }),
                total == payoff::<S>(
                    self.terminal_cache@,
                    player,
                    own as int,
                    opponent as int,
                    k as nat,
                ),
        {
            let cache: &TerminalEvalCache = &self.terminal_cache[k];
            proof {
                assert(self.terminal_cache@[k as int].fits(self.oop(), self.ip()));
                cache.prepared.wf_facts();
                let a = cache.oop_combo_indices@[oop as int];
                let b = cache.ip_combo_indices@[ip as int];
            }
            if let Some(a) = cache.oop_combo_indices[oop] {
                if let Some(b) = cache.ip_combo_indices[ip] {
                    if !cache.prepared.combo(a).collides(cache.prepared.combo(b)) {
                        let left: u64 = cache.prepared.strength(a);
                        let right: u64 = cache.prepared.strength(b);
                        let value: S = if left > right {
                            S::one()
                        } else if left < right {
                            S::one().negate()
                        } else {
                            S::zero()
                        };
                        total = match player {
                            Player::Oop => total.plus(value),
                            Player::Ip => total.minus(value),
                        };
                    }
                }
            }
        }
        total
    }

    fn payoff_rows(&self, player: Player) -> (r: Vec<Vec<S>>)
        requires
            self.wf(),
        ensures
            are_payoffs(
                self.terminal_cache@,
                player,
                r@,
                self.combos(player),
                self.combos(player.other_spec()),
            ),
    {
        let (own, opponents): (usize, usize) = match player {
            Player::Oop => (self.oop_range.combos().len(), self.ip_range.combos().len()),
            Player::Ip => (self.ip_range.combos().len(), self.oop_range.combos().len()),
        };
        let mut rows: Vec<Vec<S>> = Vec::new();
        for i in 0..own
            invariant
                self.wf(),
                own == self.combos(player),
                opponents == self.combos(player.other_spec()),
                rows@.len() == i,
                forall|m: int|
                    0 <= m < i ==> (#[trigger] rows@[m])@ == Seq::new(
                        opponents as nat,
                        |j: int|
                            payoff::<S>(
                                self.terminal_cache@,
                                player,
                                m,
                                j,
                                self.terminal_cache@.len(),
                            ),
                    ),
        {
            let mut row: Vec<S> = Vec::new();
            for j in 0..opponents
                invariant
                    self.wf(),
                    i < own,
                    own == self.combos(player),
                    opponents == self.combos(player.other_spec()),
                    row@ =~= Seq::new(
                        j as nat,
                        |j: int|
                            payoff::<S>(
                                self.terminal_cache@,
                                player,
                                i as int,
                                j,
                                self.terminal_cache@.len(),
                            ),
                    ),
            {
                row.push(self.pair_payoff(player, i, j));
            }
            rows.push(row);
        }
        rows
    }

    /// How often each hand wins against each other over all boards that the flop can become.
    fn build_allin_oracle(&self) -> (r: NodeLocalAllInOracle<S>)
        requires
            self.wf(),
        ensures
            are_payoffs(
                self.terminal_cache@,
                Player::Oop,
                r.oop_payoffs@,
                self.oop().len(),
                self.ip().len(),
            ),
            are_payoffs(
                self.terminal_cache@,
                Player::Ip,
                r.ip_payoffs@,
                self.ip().len(),
                self.oop().len(),
            ),
            r.oop_live_indices@ == live_indices(self.oop(), self.flop_board@, self.oop().len()),
            r.ip_live_indices@ == live_indices(self.ip(), self.flop_board@, self.ip().len()),
            forall|k: int|
                0 <= k < r.oop_live_indices@.len() ==> #[trigger] r.oop_live_indices@[k]
                    < self.oop().len(),
            forall|k: int|
                0 <= k < r.ip_live_indices@.len() ==> #[trigger] r.ip_live_indices@[k]
                    < self.ip().len(),
            r.divisor == runouts::<S>(3),
    {
        let oop_payoffs: Vec<Vec<S>> = self.payoff_rows(Player::Oop);
        let ip_payoffs: Vec<Vec<S>> = self.payoff_rows(Player::Ip);
        NodeLocalAllInOracle {
            oop_payoffs,
            ip_payoffs,
            oop_live_indices: live_combo_indices(self.oop_range.combos(), &self.flop_board),
            ip_live_indices: live_combo_indices(self.ip_range.combos(), &self.flop_board),
            divisor: terminal_runout_count_for_live_combo(3),
        }
    }
}

/// Whether places in a list of boards are found by the boards' lengths and cards.
spec fn finds_folds(index: Seq<KeyMap<usize>>, folds: Seq<NodeLocalFoldCache>) -> bool {
    &&& index.len() == 6
    &&& forall|cards: int, key: u64|
        0 <= cards < 6 && #[trigger] index[cards]@.contains_key(key) ==> {
            let k = index[cards]@[key] as int;
            &&& 0 <= k < folds.len()
            &&& folds[k].board@.len() == cards
            &&& ordered_key(folds[k].board@) == key
        }
}

/// The place of the hands off a board, which are listed if they were not yet.
fn fold_cache_index<S: Scalar>(
    index: &mut Vec<KeyMap<usize>>,
    folds: &mut Vec<NodeLocalFoldCache>,
    board: &Board,
    oop: &[ComboWeight<S>],
    ip: &[ComboWeight<S>],
) -> (r: usize)
    requires
        board.wf(),
        board@.len() <= 5,
        oop@.len() <= 65536,
        ip@.len() <= 65536,
        finds_folds(old(index)@, old(folds)@),
        forall|k: int|
            0 <= k < old(folds)@.len() ==> (#[trigger] old(folds)@[k]).fits(
                old(folds)@[k].board@,
                oop@,
                ip@,
            ),
    ensures
        finds_folds(final(index)@, final(folds)@),
        forall|k: int|
            0 <= k < final(folds)@.len() ==> (#[trigger] final(folds)@[k]).fits(
                final(folds)@[k].board@,
                oop@,
                ip@,
            ),
        old(folds)@.len() <= final(folds)@.len(),
        forall|k: int| 0 <= k < old(folds)@.len() ==> #[trigger] final(folds)@[k] == old(folds)@[k],
        r < final(folds)@.len(),
        final(folds)@[r as int].fits(board@, oop@, ip@),
{
    let cards: usize = board.len();
    let key: u64 = ordered_board_key(board);
    if let Some(place) = index[cards].get(key) {
        let place: usize = *place;
        proof {
            assert(index@[cards as int]@.contains_key(key));
            ordered_keys_differ(folds@[place as int].board@, board@);
        }
        return place;
    }
    let place: usize = folds.len();
    let ghost before = folds@;
    folds.push(
        NodeLocalFoldCache {
            board: *board,
            oop_live_targets: live_combo_targets(oop, board),
            ip_live_targets: live_combo_targets(ip, board),
        },
    );
    let ghost was = index@;
    index[cards].insert(key, place);
    proof {
        assert forall|c: int, k: u64|
            0 <= c < 6 && #[trigger] index@[c]@.contains_key(k) implies {
            let p = index@[c]@[k] as int;
            &&& 0 <= p < folds@.len()
            &&& folds@[p].board@.len() == c
            &&& ordered_key(folds@[p].board@) == k
        } by {
            if !(c == cards && k == key) {
                assert(was[c]@.contains_key(k));
                assert(folds@[was[c]@[k] as int] == before[was[c]@[k] as int]);
            }
        }
        assert forall|k: int| 0 <= k < folds@.len() implies (#[trigger] folds@[k]).fits(
            folds@[k].board@,
            oop@,
            ip@,
        ) by {
            if k < before.len() {
                assert(folds@[k] == before[k]);
            }
        }
    }
    place
}

impl<S: Scalar> NodeSetup<S> {
    /// What a solver of a tree knows. Payoffs of all-ins on the flop are worked out before if they take no
    /// more than so many mebibytes.
    pub fn new(
        tree: PublicTree,
        oop_range: RangeSpec<S>,
        ip_range: RangeSpec<S>,
        oracle_limit_mib: usize,
    ) -> (r: Result<Self, String>)
        requires
            tree.spot.board.wf(),
            tree.spot.board@.len() == 3 ==> is_shaped(tree) && is_preorder(tree.nodes@),
            oop_range.wf(),
            ip_range.wf(),
            oop_range.combos_spec().len() <= 65536,
            ip_range.combos_spec().len() <= 65536,
            tree.spot.board@.len() == 3 ==> RealSetup::<S>::slots_needed(
                tree,
                oop_range.combos_spec(),
                ip_range.combos_spec(),
            ) <= usize::MAX,
        ensures
            r is Ok == (tree.spot.board@.len() == 3),
            match r {
                Ok(setup) => {
                    &&& setup.wf()
                    &&& setup.base.tree == tree
                    &&& setup.base.oop_range == oop_range
                    &&& setup.base.ip_range == ip_range
                    &&& setup.allin_oracle is Some == oracle_is_allowed(
                        oracle_limit_mib as int,
                        oop_range.combos_spec().len(),
                        ip_range.combos_spec().len(),
                    )
                },
                Err(message) => message@ == "node-local CFR solver must start from a flop board"@,
            },
    {
        proof {
            if tree.spot.board@.len() == 3 {
                boards_are_streets(tree);
            }
        }
        let base: RealSetup<S> = match RealSetup::new(tree, oop_range, ip_range) {
            Ok(base) => base,
            Err(_) => return Err("node-local CFR solver must start from a flop board".to_owned()),
        };
        let oop: &[ComboWeight<S>] = base.oop_range.combos();
        let ip: &[ComboWeight<S>] = base.ip_range.combos();
        let states: Vec<GraphState> = collect_states(&base.tree, &base.oop_range, &base.ip_range, true);
        let count: usize = states.len();
        let terminal_targets: Vec<NodeLocalTerminalCache> = base.sorted_terminal_targets();
        proof {
            let (a, b) = (oop@.len() as int, ip@.len() as int);
            assert(a * b <= 65536 * 65536) by (nonlinear_arith)
                requires
                    0 <= a <= 65536,
                    0 <= b <= 65536,
            ;
            assert(0 <= a * b) by (nonlinear_arith)
                requires
                    0 <= a,
                    0 <= b,
            ;
        }
        let bytes: u128 = (oop.len() as u128) * (ip.len() as u128) * 8;
        let allowed: bool = oracle_limit_mib > 0 && bytes <= (oracle_limit_mib as u128) * 1024 * 1024;
        let allin_oracle: Option<NodeLocalAllInOracle<S>> = if allowed {
            Some(base.build_allin_oracle())
        } else {
            None
        };
        let mut terminal_cache_indices: Vec<Vec<usize>> = Vec::new();
        let mut fold_places: Vec<Option<usize>> = Vec::new();
        let mut fold_cache: Vec<NodeLocalFoldCache> = Vec::new();
        let mut index: Vec<KeyMap<usize>> = Vec::new();
        for c in 0..6
            invariant
                index@.len() == c,
                forall|k: int| 0 <= k < c ==> (#[trigger] index@[k])@ == Map::<u64, usize>::empty(),
        {
            index.push(KeyMap::new());
        }
        proof {
            assert(finds_folds(index@, fold_cache@)) by {
                assert forall|cards: int, key: u64|
                    0 <= cards < 6 && #[trigger] index@[cards]@.contains_key(key) implies false by {
                    assert(index@[cards]@ == Map::<u64, usize>::empty());
                }
            }
        }
        let mut action_slots: usize = 0;
        let mut decision_states: usize = 0;
        for i in 0..count
            invariant
                base.wf(),
                count == states@.len(),
                oop@ == base.oop(),
                ip@ == base.ip(),
                oop@.len() <= 65536,
                ip@.len() <= 65536,
                is_graph(true, base.tree, base.oop(), base.ip(), states@),
                finds_folds(index@, fold_cache@),
                forall|k: int|
                    0 <= k < fold_cache@.len() ==> (#[trigger] fold_cache@[k]).fits(
                        fold_cache@[k].board@,
                        oop@,
                        ip@,
                    ),
                terminal_cache_indices@.len() == i,
                fold_places@.len() == i,
                forall|j: int|
                    0 <= j < i ==> #[trigger] is_listed(
                        base,
                        allin_oracle is Some,
                        states@[j],
                        terminal_cache_indices@[j]@,
                        fold_places@[j],
                        fold_cache@,
                    ),
                action_slots == graph_slots(base, states@, i as nat),
                decision_states == graph_choices(base, states@, i as nat),
                decision_states <= i,
        {
            let ghost earlier = fold_cache@;
            let ghost was_indices = terminal_cache_indices@;
            let ghost was_places = fold_places@;
            let state: &GraphState = &states[i];
            proof {
                lemma_graph_knows(base, states@, i as int);
                base.knows_starts_with_flop(state.board@);
                assert(is_shaped_at(base.tree.nodes@, state.node_id as int));
            }
            let mut indices: Vec<usize> = Vec::new();
            let mut place: Option<usize> = None;
            match &base.tree.nodes[state.node_id].kind {
                PublicNodeKind::Terminal { reason } => {
                    if *reason == TerminalReason::Fold {
                        place = Some(
                            fold_cache_index(&mut index, &mut fold_cache, &state.board, oop, ip),
                        );
                    } else if !(*reason == TerminalReason::AllIn && state.board.len() == 3
                        && allin_oracle.is_some()) {
                        indices = base.terminal_cache_indices(&state.board);
                    }
                },
                PublicNodeKind::Chance(_) => {},
                PublicNodeKind::Decision { player, actions } => {
                    if actions.len() > 1 {
                        let combos: usize = match player {
                            Player::Oop => oop.len(),
                            Player::Ip => ip.len(),
                        };
                        proof {
                            base.knows_has_slot(state.board@);
                            base.row_fits(state.node_id as int, base.slot(state.board@) as int);
                        }
                        action_slots = bounded_sum(action_slots, combos * actions.len());
                        decision_states = decision_states + 1;
                    }
                },
            }
            terminal_cache_indices.push(indices);
            fold_places.push(place);
            proof {
                assert forall|j: int| 0 <= j < i + 1 implies #[trigger] is_listed(
                    base,
                    allin_oracle is Some,
                    states@[j],
                    terminal_cache_indices@[j]@,
                    fold_places@[j],
                    fold_cache@,
                ) by {
                    if j < i {
                        assert(is_listed(
                            base,
                            allin_oracle is Some,
                            states@[j],
                            was_indices[j]@,
                            was_places[j],
                            earlier,
                        ));
                        assert(terminal_cache_indices@[j] == was_indices[j]);
                        assert(fold_places@[j] == was_places[j]);
                        if let Some(p) = fold_places@[j] {
                            if p < earlier.len() {
                                assert(fold_cache@[p as int] == earlier[p as int]);
                            }
                        }
                    }
                }
            }
        }
        let setup = NodeSetup {
            base,
            states,
            terminal_targets,
            terminal_cache_indices,
            fold_cache_index: fold_places,
            fold_cache,
            allin_oracle,
            action_slots,
            decision_states,
        };
        proof {
            assert forall|i: int| 0 <= i < setup.states@.len() implies #[trigger] setup.state_fits(
                i,
            ) by {
                assert(is_listed(
                    setup.base,
                    setup.allin_oracle is Some,
                    setup.states@[i],
                    setup.terminal_cache_indices@[i]@,
                    setup.fold_cache_index@[i],
                    setup.fold_cache@,
                ));
                lemma_graph_knows(setup.base, setup.states@, i);
            }
        }
        Ok(setup)
    }
}

/// Whether lists are those that a state calls for.
spec fn is_listed<S: Scalar>(
    base: RealSetup<S>,
    oracle: bool,
    state: GraphState,
    indices: Seq<usize>,
    place: Option<usize>,
    fold_cache: Seq<NodeLocalFoldCache>,
) -> bool {
    let node = base.tree.nodes@[state.node_id as int];
    let asks = oracle && state.board@.len() == 3 && (node.kind matches PublicNodeKind::Terminal {
        reason,
    } && reason == TerminalReason::AllIn);
    &&& indices == if compares(node) && !asks {
        base.cache_indices(state.board@)
    } else {
        Seq::empty()
    }
    &&& forall|k: int| 0 <= k < indices.len() ==> #[trigger] indices[k] < base.terminal_cache@.len()
    &&& folds(node) ==> {
        &&& place is Some
        &&& place->Some_0 < fold_cache.len()
        &&& fold_cache[place->Some_0 as int].fits(state.board@, base.oop(), base.ip())
    }
}

} // verus!
