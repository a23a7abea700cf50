//! Iterations in three phases and walks through the tree give the same, over numbers that are not
//! rounded.
use vstd::prelude::*;
use crate::arith::bounded;
use crate::cards::Board;
use crate::cfr_math::{
    added, current_cell, factors_match_direct_update, matched, positive_sum, reach_after, weights_of,
    zeros_spec, RealCfrVariant,
};
use crate::isomorphism::{classes_are_apart, next_card_classes};
use crate::phase_reach::{acted, share_of, EvaluationMode, Reaches, StrategySource};
use crate::phase_states::{follows, is_followed, kids, PhaseState};
use crate::range::ComboWeight;
use crate::real_cfr::{ActionRows, CfrStep, Outcome, TablesView};
use crate::real_phase::{added_times, phase_mode, PhaseContext};
use crate::real_run::phase_rule;
use crate::real_setup::{infoset_of, RealSetup};
use crate::real_terminal::{board_values, live_on, places_on, RefView, TerminalMode};
use crate::scalar::{ExactScalar, Scalar};
use crate::terminal_cache::{
    board_added, compact_values, live_places, live_reach, members_gathered, PreparedComboTarget,
    SideSums, TerminalEvalCache,
};
use crate::terminal_laws::sparse_matches_prefix_blocker;
use crate::tree::{Player, PublicNode, PublicNodeKind, TerminalReason};
use crate::tree_build::{child_placed, placed, tree_end};
use crate::tree_shape::{is_preorder, is_shaped_at, tree_end_bounds};

verus! {

/// Whether numbers behave as they do where nothing is rounded: zero times a number is zero, sharing a
/// number out gives the same in any order, and what is cut off at zero is not below zero.
pub open spec fn rounds_nothing<S: Scalar>() -> bool {
    &&& forall|a: S| #[trigger] S::zero_spec().times_spec(a) == S::zero_spec()
    &&& forall|a: S, b: S, total: S|
        total.exceeds_spec(S::zero_spec()) ==> #[trigger] b.times_spec(a.over_spec(total))
            == a.times_spec(b.over_spec(total))
    &&& forall|a: S, count: usize|
        #[trigger] a.over_spec(S::from_count_spec(count)) == a.times_spec(
            S::one_spec().over_spec(S::from_count_spec(count)),
        )
    &&& forall|a: S| (#[trigger] a.max_spec(S::zero_spec())).at_least_spec(S::zero_spec())
}

proof fn lemma_nothing_lives<S: ExactScalar>(
    targets: Seq<PreparedComboTarget>,
    reach: Seq<S>,
    count: nat,
    n: nat,
)
    requires
        n <= targets.len(),
        live_places(targets, reach, count, n).len() == 0,
        forall|k: int| 0 <= k < targets.len() ==> (#[trigger] targets[k]).board_index < count,
    ensures
        live_reach(targets, reach, count, n) == zeros_spec::<S>(count),
    decreases n,
{
    if n > 0 {
        lemma_nothing_lives(targets, reach, count, (n - 1) as nat);
        let target = targets[n - 1];
        S::same_is_equality(S::zero_spec(), S::zero_spec());
        assert(zeros_spec::<S>(count)[target.board_index as int] == S::zero_spec());
    }
}

proof fn lemma_no_opponent<S: ExactScalar>(
    cache: TerminalEvalCache,
    oop: Seq<ComboWeight<S>>,
    ip: Seq<ComboWeight<S>>,
    opponent: Player,
    reach: Seq<S>,
    sparse: bool,
)
    requires
        cache.fits(oop, ip),
        places_on(cache, opponent, reach).len() == 0,
    ensures
        compact_values(
            cache.prepared,
            cache.indices(opponent.other_spec()),
            live_on(cache, opponent, reach),
            places_on(cache, opponent, reach),
            sparse,
        ) == zeros_spec::<S>(cache.indices(opponent.other_spec()).len()),
{
    let count = cache.prepared.count();
    let targets = cache.targets(opponent);
    let indices = cache.indices(opponent.other_spec());
    let live = live_on(cache, opponent, reach);
    let places = places_on(cache, opponent, reach);
    assert forall|k: int| 0 <= k < targets.len() implies (#[trigger] targets[k]).board_index
        < count by {
        match opponent {
            Player::Oop => {
                assert(cache.oop_targets@[k] == targets[k]);
            },
            Player::Ip => {
                assert(cache.ip_targets@[k] == targets[k]);
            },
        }
    }
    lemma_nothing_lives(targets, reach, count, targets.len());
    assert(live == zeros_spec::<S>(count));
    let values = compact_values(cache.prepared, indices, live, places, sparse);
    assert forall|i: int| 0 <= i < values.len() implies values[i] == S::zero_spec() by {
        if let Some(b) = indices[i] {
            assert(b < count);
            sparse_matches_prefix_blocker(&cache.prepared, live, places, b as int);
        }
    }
    assert(values =~= zeros_spec::<S>(indices.len()));
}

proof fn lemma_added_alike<S: ExactScalar>(
    sums: SideSums<S>,
    indices: Seq<Option<usize>>,
    map: Seq<usize>,
    pot: S,
)
    requires
        rounds_nothing::<S>(),
        sums.values.len() == map.len(),
        forall|s: int| 0 <= s < map.len() ==> #[trigger] map[s] < indices.len(),
    ensures
        board_added(sums, Some(zeros_spec::<S>(indices.len())), indices, map, pot) == board_added(
            sums,
            None,
            indices,
            map,
            pot,
        ),
{
    let zeros = zeros_spec::<S>(indices.len());
    let left = board_added(sums, Some(zeros), indices, map, pot);
    let right = board_added(sums, None, indices, map, pot);
    assert forall|s: int| 0 <= s < left.values.len() implies left.values[s] == right.values[s] by {
        assert(map[s] < indices.len());
        assert(zeros[map[s] as int] == S::zero_spec());
        assert(S::zero_spec().times_spec(pot) == S::zero_spec());
        S::plus_zero(sums.values[s]);
    }
    assert(left.values =~= right.values);
    assert(left.counts =~= right.counts);
}

impl<S: ExactScalar> RealSetup<S> {
    /// A player's values on a board count the same however the board is evaluated.
    proof fn lemma_members_alike(
        self,
        sums: SideSums<S>,
        class: RefView,
        player: Player,
        oop_reach: Seq<S>,
        ip_reach: Seq<S>,
        limit: usize,
        mode: TerminalMode,
        pot: S,
        n: nat,
    )
        requires
            self.wf(),
            rounds_nothing::<S>(),
            0 <= class.cache_index < self.terminal_cache@.len(),
            n <= class.codes.len(),
            forall|m: int| 0 <= m < class.codes.len() ==> self.maps_code(#[trigger] class.codes[m]),
            sums.values.len() == self.combos(player),
            sums.counts.len() == self.combos(player),
        ensures
            ({
                let cache = self.terminal_cache@[class.cache_index];
                let gathered = |how: TerminalMode|
                    members_gathered(
                        sums,
                        board_values(cache, player, oop_reach, ip_reach, limit, how),
                        cache.indices(player),
                        self.combo_permutations,
                        player,
                        class.codes,
                        pot,
                        n,
                    );
                &&& gathered(mode) == gathered(TerminalMode::Traverse)
                &&& gathered(mode).values.len() == self.combos(player)
                &&& gathered(mode).counts.len() == self.combos(player)
            }),
        decreases n,
    {
        let cache = self.terminal_cache@[class.cache_index];
        assert(cache.fits(self.oop(), self.ip()));
        if n > 0 {
            self.lemma_members_alike(
                sums,
                class,
                player,
                oop_reach,
                ip_reach,
                limit,
                mode,
                pot,
                (n - 1) as nat,
            );
            let front = members_gathered(
                sums,
                board_values(cache, player, oop_reach, ip_reach, limit, mode),
                cache.indices(player),
                self.combo_permutations,
                player,
                class.codes,
                pot,
                (n - 1) as nat,
            );
            let code = class.codes[n - 1];
            assert(self.maps_code(code));
            let map = self.combo_permutations.map_of(player, code);
            lemma_added_alike(front, cache.indices(player), map, pot);
            let (opponent, reach) = match player {
                Player::Oop => (Player::Ip, ip_reach),
                Player::Ip => (Player::Oop, oop_reach),
            };
            let sparse = places_on(cache, Player::Oop, oop_reach).len() <= limit && places_on(
                cache,
                Player::Ip,
                ip_reach,
            ).len() <= limit;
            if places_on(cache, opponent, reach).len() == 0 {
                lemma_no_opponent(cache, self.oop(), self.ip(), opponent, reach, sparse);
            }
        }
    }

    proof fn lemma_refs_alike(
        self,
        player: Player,
        refs: Seq<RefView>,
        oop_reach: Seq<S>,
        ip_reach: Seq<S>,
        pot: u32,
        limit: usize,
        mode: TerminalMode,
        n: nat,
    )
        requires
            self.wf(),
            rounds_nothing::<S>(),
            self.holds_refs(refs),
            n <= refs.len(),
        ensures
            ({
                let gathered = |how: TerminalMode|
                    self.refs_gathered(player, refs, oop_reach, ip_reach, pot, limit, how, n);
                &&& gathered(mode) == gathered(TerminalMode::Traverse)
                &&& gathered(mode).values.len() == self.combos(player)
                &&& gathered(mode).counts.len() == self.combos(player)
            }),
        decreases n,
    {
        if n > 0 {
            self.lemma_refs_alike(
                player,
                refs,
                oop_reach,
                ip_reach,
                pot,
                limit,
                mode,
                (n - 1) as nat,
            );
            let class = refs[n - 1];
            assert(0 <= class.cache_index < self.terminal_cache@.len());
            self.lemma_members_alike(
                self.refs_gathered(
                    player,
                    refs,
                    oop_reach,
                    ip_reach,
                    pot,
                    limit,
                    mode,
                    (n - 1) as nat,
                ),
                class,
                player,
                oop_reach,
                ip_reach,
                limit,
                mode,
                S::from_u32_spec(pot),
                class.codes.len(),
            );
        }
    }

    /// Over numbers that are not rounded, a finished hand has the same values in a walk and in a phase,
    /// with or without a cache.
    pub proof fn finished_hands_are_alike(
        self,
        node: PublicNode,
        reason: TerminalReason,
        board: Board,
        oop_reach: Seq<S>,
        ip_reach: Seq<S>,
        limit: usize,
        mode: TerminalMode,
    )
        requires
            self.wf(),
            rounds_nothing::<S>(),
            board.wf(),
            self.knows(board@),
        ensures
            self.terminal_spec(node, reason, board@, oop_reach, ip_reach, limit, mode)
                == self.terminal_spec(
                node,
                reason,
                board@,
                oop_reach,
                ip_reach,
                limit,
                TerminalMode::Traverse,
            ),
    {
        self.known_refs_are_held(board);
        let refs = self.refs(board@);
        self.lemma_refs_alike(
            Player::Oop,
            refs,
            oop_reach,
            ip_reach,
            node.state.pot,
            limit,
            mode,
            refs.len(),
        );
        self.lemma_refs_alike(
            Player::Ip,
            refs,
            oop_reach,
            ip_reach,
            node.state.pot,
            limit,
            mode,
            refs.len(),
        );
    }
}

/// The children of a node divide what is below it, one after the other.
proof fn lemma_children_divide(nodes: Seq<PublicNode>, i: int, k: int, l: int)
    requires
        is_preorder(nodes),
        0 <= i < nodes.len(),
        0 <= k < l < nodes[i].children@.len(),
    ensures
        tree_end(nodes, nodes[i].children@[k] as int) <= nodes[i].children@[l],
    decreases l - k,
{
    assert(placed(nodes, i));
    assert(child_placed(nodes, i, l));
    if k + 1 < l {
        lemma_children_divide(nodes, i, k, l - 1);
        assert(child_placed(nodes, i, l - 1));
        tree_end_bounds(nodes, nodes[i].children@[l - 1] as int);
    }
}

proof fn lemma_child_ends(nodes: Seq<PublicNode>, i: int, k: int)
    requires
        is_preorder(nodes),
        0 <= i < nodes.len(),
        0 <= k < nodes[i].children@.len(),
    ensures
        i < nodes[i].children@[k] < nodes.len(),
        tree_end(nodes, nodes[i].children@[k] as int) <= tree_end(nodes, i),
{
    let children = nodes[i].children@;
    assert(placed(nodes, i));
    assert(child_placed(nodes, i, k));
    assert(child_placed(nodes, i, children.len() - 1));
    if k < children.len() - 1 {
        lemma_children_divide(nodes, i, k, children.len() - 1);
        tree_end_bounds(nodes, children.last() as int);
    }
}

/// The child below which a node is that is below another.
proof fn lemma_find_child(nodes: Seq<PublicNode>, i: int, b: int, n: int) -> (m: int)
    requires
        is_preorder(nodes),
        0 <= i < b,
        0 < n <= nodes[i].children@.len(),
        i < nodes.len(),
        b < tree_end(nodes, nodes[i].children@[n - 1] as int),
    ensures
        0 <= m < n,
        nodes[i].children@[m] <= b < tree_end(nodes, nodes[i].children@[m] as int),
    decreases n,
{
    assert(placed(nodes, i));
    assert(child_placed(nodes, i, n - 1));
    if nodes[i].children@[n - 1] <= b {
        n - 1
    } else {
        lemma_find_child(nodes, i, b, n - 1)
    }
}

/// What is below a node ends where the node ends, or before.
proof fn lemma_within(nodes: Seq<PublicNode>, x: int, b: int)
    requires
        is_preorder(nodes),
        0 <= x < nodes.len(),
        x <= b < tree_end(nodes, x),
    ensures
        tree_end(nodes, b) <= tree_end(nodes, x),
    decreases nodes.len() - x,
{
    if x < b {
        let count = nodes[x].children@.len() as int;
        assert(placed(nodes, x));
        assert(count > 0);
        assert(child_placed(nodes, x, count - 1));
        let m = lemma_find_child(nodes, x, b, count);
        assert(child_placed(nodes, x, m));
        lemma_within(nodes, nodes[x].children@[m] as int, b);
        lemma_child_ends(nodes, x, m);
    }
}

proof fn lemma_parents_agree(nodes: Seq<PublicNode>, a: int, k: int, b: int, l: int)
    requires
        is_preorder(nodes),
        0 <= a <= b < nodes.len(),
        0 <= k < nodes[a].children@.len(),
        0 <= l < nodes[b].children@.len(),
        nodes[a].children@[k] == nodes[b].children@[l],
    ensures
        a == b,
{
    if a < b {
        let c = nodes[a].children@[k] as int;
        lemma_child_ends(nodes, a, k);
        lemma_child_ends(nodes, b, l);
        assert(placed(nodes, a));
        assert(child_placed(nodes, a, 0));
        assert(child_placed(nodes, a, k));
        assert(k > 0);
        let m = lemma_find_child(nodes, a, b, k);
        lemma_children_divide(nodes, a, m, k);
        lemma_child_ends(nodes, a, m);
        lemma_within(nodes, nodes[a].children@[m] as int, b);
        tree_end_bounds(nodes, c);
    }
}

/// Whether a state is another or comes below it.
pub open spec fn comes_below(states: Seq<PhaseState>, i: int, j: int) -> bool
    decreases states.len() - i,
{
    i == j || exists|k: int|
        0 <= k < states[i].children@.len() && i < #[trigger] states[i].children@[k] < states.len()
            && comes_below(states, states[i].children@[k] as int, j)
}

impl<S: Scalar> RealSetup<S> {
    /// What follows a state: behind it, the next node of the tree, on the board or on the board with a
    /// card.
    proof fn lemma_follower(self, states: Seq<PhaseState>, i: int, k: int)
        requires
            self.wf(),
            self.is_phase(states),
            0 <= i < states.len(),
            0 <= k < states[i].children@.len(),
        ensures
            ({
                let child = states[i].children@[k] as int;
                let node = self.tree.nodes@[states[i].node_id as int];
                &&& i < child < states.len()
                &&& self.is_phase_state(states, i)
                &&& self.is_phase_state(states, child)
                &&& states[i].node_id < states[child].node_id < self.tree.nodes@.len()
                &&& tree_end(self.tree.nodes@, states[child].node_id as int) <= tree_end(
                    self.tree.nodes@,
                    states[i].node_id as int,
                )
                &&& node.kind is Decision || node.kind is Chance
                &&& node.kind is Decision ==> k < node.children@.len() && states[child].node_id
                    == node.children@[k] && states[child].board@ == states[i].board@
                &&& node.kind is Chance ==> node.children@.len() > 0 && states[child].node_id
                    == node.children@[0] && states[child].board@ == states[i].board@.push(
                    next_card_classes(states[i].board@, self.oop(), self.ip())[k].representative,
                )
            }),
    {
        let child = states[i].children@[k] as int;
        assert(self.is_phase_state(states, i));
        assert(kids(states)[i] == states[i].children@);
        assert(i < kids(states)[i][k] < kids(states).len());
        assert(self.is_phase_state(states, child));
        let node = self.tree.nodes@[states[i].node_id as int];
        match node.kind {
            PublicNodeKind::Decision { player, actions } => {
                assert(follows(states, states[i].children@[k] as int, node.children@[k], states[i].board@));
                lemma_child_ends(self.tree.nodes@, states[i].node_id as int, k);
            },
            PublicNodeKind::Chance(chance) => {
                let classes = next_card_classes(states[i].board@, self.oop(), self.ip());
                assert(follows(
                    states,
                    states[i].children@[k] as int,
                    node.children@[0],
                    states[i].board@.push(classes[k].representative),
                ));
                lemma_child_ends(self.tree.nodes@, states[i].node_id as int, 0);
            },
            PublicNodeKind::Terminal { reason } => {},
        }
    }

    /// A state below another is behind it, of a node below its node, on a board that starts with its
    /// board.
    proof fn lemma_below(self, states: Seq<PhaseState>, i: int, j: int)
        requires
            self.wf(),
            self.is_phase(states),
            0 <= i < states.len(),
            comes_below(states, i, j),
        ensures
            i <= j < states.len(),
            states[i].node_id <= states[j].node_id < tree_end(
                self.tree.nodes@,
                states[i].node_id as int,
            ),
            states[i].board@.len() <= states[j].board@.len(),
            states[j].board@.take(states[i].board@.len() as int) == states[i].board@,
        decreases states.len() - i,
    {
        assert(self.is_phase_state(states, i));
        tree_end_bounds(self.tree.nodes@, states[i].node_id as int);
        if i == j {
            assert(states[j].board@.take(states[i].board@.len() as int) =~= states[i].board@);
        } else {
            let k = choose|k: int|
                0 <= k < states[i].children@.len() && i < #[trigger] states[i].children@[k]
                    < states.len() && comes_below(states, states[i].children@[k] as int, j);
            let child = states[i].children@[k] as int;
            self.lemma_follower(states, i, k);
            self.lemma_below(states, child, j);
            assert(states[j].board@.take(states[i].board@.len() as int) =~= states[child].board@.take(
                states[i].board@.len() as int,
            ));
            assert(states[child].board@.take(states[i].board@.len() as int) =~= states[i].board@);
        }
    }

    /// No state is below two of the states that follow a state.
    proof fn lemma_below_one(self, states: Seq<PhaseState>, i: int, k: int, l: int, j: int)
        requires
            self.wf(),
            self.is_phase(states),
            0 <= i < states.len(),
            0 <= k <= l < states[i].children@.len(),
            comes_below(states, states[i].children@[k] as int, j),
            comes_below(states, states[i].children@[l] as int, j),
        ensures
            k == l,
    {
        let (left, right) = (states[i].children@[k] as int, states[i].children@[l] as int);
        self.lemma_follower(states, i, k);
        self.lemma_follower(states, i, l);
        self.lemma_below(states, left, j);
        self.lemma_below(states, right, j);
        let node = self.tree.nodes@[states[i].node_id as int];
        if node.kind is Decision {
            if k < l {
                lemma_children_divide(self.tree.nodes@, states[i].node_id as int, k, l);
            }
        } else {
            classes_are_apart(states[i].board@, self.oop(), self.ip());
            let classes = next_card_classes(states[i].board@, self.oop(), self.ip());
            let place = states[i].board@.len() as int;
            assert(states[left].board@[place] == classes[k].representative);
            assert(states[right].board@[place] == classes[l].representative);
            assert(states[j].board@.take(place + 1)[place] == states[j].board@[place]);
        }
    }

    /// A state follows one state only, and only once.
    proof fn lemma_one_parent(self, states: Seq<PhaseState>, i: int, k: int, j: int, l: int)
        requires
            self.wf(),
            self.is_phase(states),
            0 <= i < states.len(),
            0 <= j < states.len(),
            0 <= k < states[i].children@.len(),
            0 <= l < states[j].children@.len(),
            states[i].children@[k] == states[j].children@[l],
        ensures
            i == j,
            k == l,
    {
        let nodes = self.tree.nodes@;
        self.lemma_follower(states, i, k);
        self.lemma_follower(states, j, l);
        let child = states[i].children@[k] as int;
        let (a, b) = (states[i].node_id as int, states[j].node_id as int);
        let ka = if nodes[a].kind is Decision { k } else { 0 };
        let lb = if nodes[b].kind is Decision { l } else { 0 };
        if a <= b {
            lemma_parents_agree(nodes, a, ka, b, lb);
        } else {
            lemma_parents_agree(nodes, b, lb, a, ka);
        }
        assert(states[i].board@ =~= states[j].board@) by {
            if nodes[a].kind is Chance {
                let (left, right) = (states[i].board@, states[j].board@);
                assert(states[child].board@.drop_last() =~= left);
                assert(states[child].board@.drop_last() =~= right);
            }
        }
        if i < j {
            assert(!(states[i].node_id == states[j].node_id && states[i].board@
                == states[j].board@));
        } else if j < i {
            assert(!(states[j].node_id == states[i].node_id && states[j].board@
                == states[i].board@));
        }
        assert(comes_below(states, child, child));
        if k <= l {
            self.lemma_below_one(states, i, k, l, child);
        } else {
            self.lemma_below_one(states, i, l, k, child);
        }
    }
}

impl<S: Scalar> RealSetup<S> {
    /// The reaches after the first `n` states passed theirs on by the current strategies.
    spec fn flow(self, states: Seq<PhaseState>, tables: TablesView<S>, n: nat) -> Reaches<S> {
        self.reached(
            states,
            tables,
            EvaluationMode::Profile,
            StrategySource::Current,
            true,
            n,
        )
    }

    /// The reaches after a state passed its own on to the first `m` that follow it.
    spec fn flow_on(
        self,
        states: Seq<PhaseState>,
        tables: TablesView<S>,
        i: int,
        reaches: Reaches<S>,
        m: nat,
    ) -> Reaches<S> {
        self.passed_on(
            states,
            tables,
            EvaluationMode::Profile,
            StrategySource::Current,
            true,
            i,
            reaches,
            m,
        )
    }

    /// A player's reach at the state that follows by the `k`-th way.
    spec fn handed(
        self,
        states: Seq<PhaseState>,
        tables: TablesView<S>,
        i: int,
        k: int,
        player: Player,
        out: Seq<S>,
        parent: Seq<S>,
    ) -> Seq<S> {
        match self.tree.nodes@[states[i].node_id as int].kind {
            PublicNodeKind::Decision { player: acting, actions } => if acting == player
                && actions@.len() > 1 {
                acted(
                    out,
                    parent,
                    self.strategy_row(states[i], tables, StrategySource::Current),
                    actions@.len() as int,
                    k,
                    StrategySource::Current,
                    true,
                )
            } else {
                added(out, parent)
            },
            _ => added(out, parent),
        }
    }

    proof fn lemma_flow_on(
        self,
        states: Seq<PhaseState>,
        tables: TablesView<S>,
        i: int,
        reaches: Reaches<S>,
        m: nat,
        p: int,
    )
        requires
            self.wf(),
            self.is_phase(states),
            0 <= i < states.len(),
            m <= states[i].children@.len(),
            reaches.sized(states.len(), self.oop().len(), self.ip().len()),
            0 <= p < states.len(),
        ensures
            self.flow_on(states, tables, i, reaches, m).sized(
                states.len(),
                self.oop().len(),
                self.ip().len(),
            ),
            (forall|k: int| 0 <= k < m ==> states[i].children@[k] != p) ==> {
                &&& self.flow_on(states, tables, i, reaches, m).oop[p] == reaches.oop[p]
                &&& self.flow_on(states, tables, i, reaches, m).ip[p] == reaches.ip[p]
            },
            forall|k: int|
                0 <= k < m && #[trigger] states[i].children@[k] == p ==> {
                    &&& self.flow_on(states, tables, i, reaches, m).oop[p] == self.handed(
                        states,
                        tables,
                        i,
                        k,
                        Player::Oop,
                        reaches.oop[p],
                        reaches.oop[i],
                    )
                    &&& self.flow_on(states, tables, i, reaches, m).ip[p] == self.handed(
                        states,
                        tables,
                        i,
                        k,
                        Player::Ip,
                        reaches.ip[p],
                        reaches.ip[i],
                    )
                },
        decreases m,
    {
        if m > 0 {
            self.lemma_flow_on(states, tables, i, reaches, (m - 1) as nat, p);
            self.lemma_follower(states, i, m - 1);
            let child = states[i].children@[m - 1] as int;
            let front = self.flow_on(states, tables, i, reaches, (m - 1) as nat);
            let whole = self.flow_on(states, tables, i, reaches, m);
            assert(front.oop[child].len() == self.oop().len());
            assert(front.ip[child].len() == self.ip().len());
            assert forall|k: int| 0 <= k < m && #[trigger] states[i].children@[k] == p implies {
                &&& whole.oop[p] == self.handed(
                    states,
                    tables,
                    i,
                    k,
                    Player::Oop,
                    reaches.oop[p],
                    reaches.oop[i],
                )
                &&& whole.ip[p] == self.handed(
                    states,
                    tables,
                    i,
                    k,
                    Player::Ip,
                    reaches.ip[p],
                    reaches.ip[i],
                )
            } by {
                if k < m - 1 {
                    if child == p {
                        self.lemma_one_parent(states, i, k, i, m - 1);
                    }
                } else {
                    assert forall|l: int| 0 <= l < m - 1 implies states[i].children@[l] != p by {
                        if states[i].children@[l] == p {
                            self.lemma_one_parent(states, i, l, i, m - 1);
                        }
                    }
                }
            }
        }
    }

    proof fn lemma_flow_sized(self, states: Seq<PhaseState>, tables: TablesView<S>, n: nat)
        requires
            self.wf(),
            self.is_phase(states),
            n <= states.len(),
        ensures
            self.flow(states, tables, n).sized(states.len(), self.oop().len(), self.ip().len()),
        decreases n,
    {
        if n > 0 {
            self.lemma_flow_sized(states, tables, (n - 1) as nat);
            self.lemma_flow_on(
                states,
                tables,
                n - 1,
                self.flow(states, tables, (n - 1) as nat),
                states[n - 1].children@.len(),
                0,
            );
        }
    }

    /// A state's reach does not change once all states before it have passed theirs on.
    proof fn lemma_flow_settles(self, states: Seq<PhaseState>, tables: TablesView<S>, n: nat, p: int)
        requires
            self.wf(),
            self.is_phase(states),
            0 <= p <= n <= states.len(),
            p < states.len(),
        ensures
            self.flow(states, tables, n).oop[p] == self.flow(states, tables, p as nat).oop[p],
            self.flow(states, tables, n).ip[p] == self.flow(states, tables, p as nat).ip[p],
        decreases n,
    {
        if p < n {
            self.lemma_flow_settles(states, tables, (n - 1) as nat, p);
            self.lemma_flow_sized(states, tables, (n - 1) as nat);
            let i = n - 1;
            assert forall|k: int| 0 <= k < states[i].children@.len() implies states[i].children@[k]
                != p by {
                self.lemma_follower(states, i, k);
            }
            self.lemma_flow_on(
                states,
                tables,
                i,
                self.flow(states, tables, i as nat),
                states[i].children@.len(),
                p,
            );
        }
    }

    /// A state has no reach before the state that it follows has passed its own on.
    proof fn lemma_flow_waits(
        self,
        states: Seq<PhaseState>,
        tables: TablesView<S>,
        i: int,
        k: int,
        n: nat,
    )
        requires
            self.wf(),
            self.is_phase(states),
            0 <= i < states.len(),
            0 <= k < states[i].children@.len(),
            n <= i,
        ensures
            self.flow(states, tables, n).oop[states[i].children@[k] as int] == zeros_spec::<S>(
                self.oop().len(),
            ),
            self.flow(states, tables, n).ip[states[i].children@[k] as int] == zeros_spec::<S>(
                self.ip().len(),
            ),
        decreases n,
    {
        let p = states[i].children@[k] as int;
        self.lemma_follower(states, i, k);
        if n > 0 {
            let j = n - 1;
            self.lemma_flow_waits(states, tables, i, k, j as nat);
            self.lemma_flow_sized(states, tables, j as nat);
            assert forall|l: int| 0 <= l < states[j].children@.len() implies states[j].children@[l]
                != p by {
                if states[j].children@[l] == p {
                    self.lemma_one_parent(states, i, k, j, l);
                }
            }
            self.lemma_flow_on(
                states,
                tables,
                j,
                self.flow(states, tables, j as nat),
                states[j].children@.len(),
                p,
            );
        }
    }
}

impl<S: ExactScalar> RealSetup<S> {
    /// What a state hands to the `k`-th that follows it: to the player to act the part that the strategy
    /// gives the action, to the other all.
    proof fn lemma_child_reach(
        self,
        states: Seq<PhaseState>,
        tables: TablesView<S>,
        i: int,
        k: int,
        player: Player,
    )
        requires
            self.wf(),
            self.is_phase(states),
            rounds_nothing::<S>(),
            0 <= i < states.len(),
            0 <= k < states[i].children@.len(),
        ensures
            ({
                let reaches = self.flow(states, tables, states.len());
                let node = self.tree.nodes@[states[i].node_id as int];
                let at = |s: int|
                    match player {
                        Player::Oop => reaches.oop[s],
                        Player::Ip => reaches.ip[s],
                    };
                at(states[i].children@[k] as int) == (if node.kind is Decision && node.kind->player
                    == player && node.kind->actions@.len() > 1 {
                    reach_after(
                        at(i),
                        self.state_strategies(states[i], tables),
                        node.kind->actions@.len() as int,
                        k,
                    )
                } else {
                    at(i)
                })
            }),
    {
        let p = states[i].children@[k] as int;
        let all = states.len();
        let reaches = self.flow(states, tables, all);
        let before = self.flow(states, tables, i as nat);
        self.lemma_follower(states, i, k);
        self.lemma_flow_sized(states, tables, i as nat);
        self.lemma_flow_sized(states, tables, all);
        self.lemma_flow_waits(states, tables, i, k, i as nat);
        self.lemma_flow_on(states, tables, i, before, states[i].children@.len(), p);
        self.lemma_flow_settles(states, tables, all, i);
        self.lemma_flow_settles(states, tables, all, p);
        self.lemma_flow_settles(states, tables, p as nat, p);
        self.lemma_flow_keeps(states, tables, i, k, p as nat);
        let (from, count) = match player {
            Player::Oop => (reaches.oop[i], self.oop().len()),
            Player::Ip => (reaches.ip[i], self.ip().len()),
        };
        assert(from.len() == count);
        let out = zeros_spec::<S>(count);
        let got = self.handed(states, tables, i, k, player, out, from);
        assert(added(out, from) =~= from) by {
            assert forall|c: int| 0 <= c < count implies added(out, from)[c] == from[c] by {
                S::plus_commutes(S::zero_spec(), from[c]);
                S::plus_zero(from[c]);
            }
        }
        let node = self.tree.nodes@[states[i].node_id as int];
        if node.kind is Decision && node.kind->player == player && node.kind->actions@.len() > 1 {
            let actions = node.kind->actions@.len() as int;
            assert(is_shaped_at(self.tree.nodes@, states[i].node_id as int));
            let strategies = self.state_strategies(states[i], tables);
            let row = self.strategy_row(states[i], tables, StrategySource::Current);
            let goal = reach_after(from, strategies, actions, k);
            assert(self.combos(player) == count);
            assert forall|c: int| 0 <= c < count implies got[c] == goal[c] by {
                current_cell(row, count as int, actions, c, k);
                lemma_share(from[c], row, c * actions, actions, k);
            }
            assert(got =~= goal);
        }
    }
}

proof fn lemma_share<S: ExactScalar>(input: S, row: Seq<S>, start: int, actions: int, action: int)
    requires
        rounds_nothing::<S>(),
    ensures
        share_of(S::zero_spec(), input, row, start, actions, action, StrategySource::Current)
            == input.times_spec(matched(row, start, actions, action)),
{
    S::same_is_equality(input, S::zero_spec());
    let zero = S::zero_spec();
    let total = positive_sum(row, start, actions as nat);
    let number = row[start + action].max_spec(zero);
    let shared = number.times_spec(input.over_spec(total));
    let even = input.over_spec(S::from_count_spec(actions as usize));
    S::plus_commutes(zero, shared);
    S::plus_zero(shared);
    S::plus_commutes(zero, even);
    S::plus_zero(even);
    assert(zero.times_spec(matched(row, start, actions, action)) == zero);
}

impl<S: Scalar> RealSetup<S> {
    /// What a state was handed stays.
    proof fn lemma_flow_keeps(
        self,
        states: Seq<PhaseState>,
        tables: TablesView<S>,
        i: int,
        k: int,
        n: nat,
    )
        requires
            self.wf(),
            self.is_phase(states),
            0 <= i < n <= states.len(),
            0 <= k < states[i].children@.len(),
        ensures
            self.flow(states, tables, n).oop[states[i].children@[k] as int] == self.flow(
                states,
                tables,
                (i + 1) as nat,
            ).oop[states[i].children@[k] as int],
            self.flow(states, tables, n).ip[states[i].children@[k] as int] == self.flow(
                states,
                tables,
                (i + 1) as nat,
            ).ip[states[i].children@[k] as int],
        decreases n,
    {
        let p = states[i].children@[k] as int;
        self.lemma_follower(states, i, k);
        if n > i + 1 {
            let j = n - 1;
            self.lemma_flow_keeps(states, tables, i, k, j as nat);
            self.lemma_flow_sized(states, tables, j as nat);
            assert forall|l: int| 0 <= l < states[j].children@.len() implies states[j].children@[l]
                != p by {
                if states[j].children@[l] == p {
                    self.lemma_one_parent(states, i, k, j, l);
                }
            }
            self.lemma_flow_on(
                states,
                tables,
                j,
                self.flow(states, tables, j as nat),
                states[j].children@.len(),
                p,
            );
        }
    }
}

/// One iteration: the states, the tables before it, and how it goes.
pub ghost struct Iteration<S> {
    pub states: Seq<PhaseState>,
    pub tables: TablesView<S>,
    pub number: u32,
    pub variant: RealCfrVariant<S>,
    pub limit: usize,
    pub use_side_cache: bool,
}

proof fn lemma_added_times(start: usize, more: usize, n: nat)
    ensures
        added_times(start, more, n) == bounded(start + bounded(more * n)),
    decreases n,
{
    if n > 0 {
        lemma_added_times(start, more, (n - 1) as nat);
        assert(more * n == more * (n - 1) + more) by (nonlinear_arith)
            requires
                n > 0,
        ;
        assert(more * (n - 1) >= 0) by (nonlinear_arith)
            requires
                n > 0,
        ;
    } else {
        assert(more * n == 0) by (nonlinear_arith)
            requires
                n == 0,
        ;
    }
}

impl<S: Scalar> RealSetup<S> {
    spec fn context(self, pass: Iteration<S>) -> PhaseContext<S> {
        PhaseContext {
            tables: pass.tables,
            reaches: self.flow(pass.states, pass.tables, pass.states.len()),
            limit: pass.limit,
            mode: phase_mode(pass.use_side_cache),
        }
    }

    spec fn step(self, pass: Iteration<S>) -> CfrStep<S> {
        Self::walk_step(pass.number, pass.variant, pass.limit)
    }

    /// Whether an iteration can be compared: where regrets are cut off at zero, none is below.
    spec fn is_pass(self, pass: Iteration<S>) -> bool {
        &&& self.wf()
        &&& self.is_phase(pass.states)
        &&& pass.tables.sized(self.action_slots as nat)
        &&& pass.variant is DcfrPlus ==> forall|slot: int|
            0 <= slot < pass.tables.regrets.len() ==> (
            #[trigger] pass.tables.regrets[slot]).at_least_spec(S::zero_spec())
    }

    /// A number after the iteration, if its state is one of those that are done.
    spec fn cell_learned(self, pass: Iteration<S>, done: spec_fn(int) -> bool, slot: int, was: (S, S)) -> (
        S,
        S,
    ) {
        match self.owner(pass.states, slot) {
            Some(j) => if done(j) {
                self.cell_backed(
                    pass.states,
                    self.context(pass),
                    phase_rule(pass.number, pass.variant),
                    j,
                    slot,
                )
            } else {
                was
            },
            None => was,
        }
    }

    /// The tables with the numbers of the states that are done learned.
    spec fn learned(self, pass: Iteration<S>, done: spec_fn(int) -> bool, tables: TablesView<S>) -> TablesView<
        S,
    > {
        TablesView {
            regrets: Seq::new(
                tables.regrets.len(),
                |slot: int|
                    self.cell_learned(
                        pass,
                        done,
                        slot,
                        (tables.regrets[slot], tables.sums[slot]),
                    ).0,
            ),
            sums: Seq::new(
                tables.sums.len(),
                |slot: int|
                    self.cell_learned(
                        pass,
                        done,
                        slot,
                        (tables.regrets[slot], tables.sums[slot]),
                    ).1,
            ),
        }
    }

    /// The states from a state on.
    spec fn from(self, pass: Iteration<S>, i: int) -> spec_fn(int) -> bool {
        |j: int| comes_below(pass.states, i, j)
    }

    /// The states from the first `n` on that follow a state.
    spec fn from_first(self, pass: Iteration<S>, i: int, n: nat) -> spec_fn(int) -> bool {
        |j: int|
            exists|k: int|
                0 <= k < n && comes_below(
                    pass.states,
                    #[trigger] pass.states[i].children@[k] as int,
                    j,
                )
    }

    /// Whether tables still hold the numbers from before the iteration for a state and all below it.
    spec fn is_fresh(self, pass: Iteration<S>, i: int, tables: TablesView<S>) -> bool {
        &&& tables.sized(self.action_slots as nat)
        &&& forall|j: int, slot: int|
            comes_below(pass.states, i, j) && #[trigger] self.owns(pass.states, j, slot) && 0 <= slot
                < self.action_slots ==> tables.regrets[slot] == pass.tables.regrets[slot]
                && tables.sums[slot] == pass.tables.sums[slot]
    }

    proof fn lemma_child_is_below(self, pass: Iteration<S>, i: int, k: int, j: int)
        requires
            self.is_pass(pass),
            0 <= i < pass.states.len(),
            0 <= k < pass.states[i].children@.len(),
            comes_below(pass.states, pass.states[i].children@[k] as int, j),
        ensures
            comes_below(pass.states, i, j),
            i < j < pass.states.len(),
    {
        self.lemma_follower(pass.states, i, k);
        self.lemma_below(pass.states, pass.states[i].children@[k] as int, j);
        assert(i < pass.states[i].children@[k] < pass.states.len());
    }

    /// What was learned below the first states leaves the next one fresh.
    proof fn lemma_next_is_fresh(self, pass: Iteration<S>, i: int, n: int, tables: TablesView<S>)
        requires
            self.is_pass(pass),
            0 <= i < pass.states.len(),
            0 <= n < pass.states[i].children@.len(),
            self.is_fresh(pass, i, tables),
        ensures
            self.is_fresh(
                pass,
                pass.states[i].children@[n] as int,
                self.learned(pass, self.from_first(pass, i, n as nat), tables),
            ),
    {
        let child = pass.states[i].children@[n] as int;
        let done = self.from_first(pass, i, n as nat);
        let after = self.learned(pass, done, tables);
        assert forall|j: int, slot: int|
            comes_below(pass.states, child, j) && #[trigger] self.owns(pass.states, j, slot) && 0
                <= slot < self.action_slots implies after.regrets[slot]
            == pass.tables.regrets[slot] && after.sums[slot] == pass.tables.sums[slot] by {
            self.lemma_child_is_below(pass, i, n, j);
            self.number_has_one_owner(pass.states, j, slot);
            if done(j) {
                let k = choose|k: int|
                    0 <= k < n && comes_below(
                        pass.states,
                        #[trigger] pass.states[i].children@[k] as int,
                        j,
                    );
                self.lemma_below_one(pass.states, i, k, n, j);
            }
        }
    }

    /// What is learned below one more state.
    proof fn lemma_one_more(self, pass: Iteration<S>, i: int, n: int, tables: TablesView<S>)
        requires
            self.is_pass(pass),
            0 <= i < pass.states.len(),
            0 <= n < pass.states[i].children@.len(),
        ensures
            self.learned(
                pass,
                self.from(pass, pass.states[i].children@[n] as int),
                self.learned(pass, self.from_first(pass, i, n as nat), tables),
            ) == self.learned(pass, self.from_first(pass, i, (n + 1) as nat), tables),
    {
        let child = pass.states[i].children@[n] as int;
        let front = self.from_first(pass, i, n as nat);
        let whole = self.from_first(pass, i, (n + 1) as nat);
        let middle = self.learned(pass, front, tables);
        let left = self.learned(pass, self.from(pass, child), middle);
        let right = self.learned(pass, whole, tables);
        assert forall|j: int| whole(j) == (front(j) || comes_below(pass.states, child, j)) by {
            if whole(j) {
                let k = choose|k: int|
                    0 <= k < n + 1 && comes_below(
                        pass.states,
                        #[trigger] pass.states[i].children@[k] as int,
                        j,
                    );
                if k < n {
                    assert(0 <= k < n && comes_below(
                        pass.states,
                        pass.states[i].children@[k] as int,
                        j,
                    ));
                }
            }
        }
        assert(left.regrets =~= right.regrets);
        assert(left.sums =~= right.sums);
    }

    /// A state without numbers adds nothing to what is learned below it.
    proof fn lemma_no_numbers(self, pass: Iteration<S>, i: int, tables: TablesView<S>)
        requires
            self.is_pass(pass),
            0 <= i < pass.states.len(),
            self.infosets@[pass.states[i].node_id as int] is None,
        ensures
            self.learned(pass, self.from(pass, i), tables) == self.learned(
                pass,
                self.from_first(pass, i, pass.states[i].children@.len()),
                tables,
            ),
    {
        let left = self.learned(pass, self.from(pass, i), tables);
        let whole = self.from_first(pass, i, pass.states[i].children@.len());
        let right = self.learned(pass, whole, tables);
        assert forall|slot: int, was: (S, S)| #[trigger]
            self.cell_learned(pass, self.from(pass, i), slot, was) == self.cell_learned(
                pass,
                whole,
                slot,
                was,
            ) by {
            if let Some(j) = self.owner(pass.states, slot) {
                assert(self.owns(pass.states, j, slot));
                self.lemma_from_splits(pass, i, j);
            }
        }
        assert(left.regrets =~= right.regrets);
        assert(left.sums =~= right.sums);
    }

    /// A state other than a state is from it on if it is from one on that follows it.
    proof fn lemma_from_splits(self, pass: Iteration<S>, i: int, j: int)
        requires
            self.is_pass(pass),
            0 <= i < pass.states.len(),
        ensures
            i != j ==> self.from(pass, i)(j) == self.from_first(
                pass,
                i,
                pass.states[i].children@.len(),
            )(j),
            !self.from_first(pass, i, pass.states[i].children@.len())(i),
    {
        let whole = self.from_first(pass, i, pass.states[i].children@.len());
        if whole(j) {
            let k = choose|k: int|
                0 <= k < pass.states[i].children@.len() && comes_below(
                    pass.states,
                    #[trigger] pass.states[i].children@[k] as int,
                    j,
                );
            self.lemma_child_is_below(pass, i, k, j);
        }
        if whole(i) {
            let k = choose|k: int|
                0 <= k < pass.states[i].children@.len() && comes_below(
                    pass.states,
                    #[trigger] pass.states[i].children@[k] as int,
                    i,
                );
            self.lemma_child_is_below(pass, i, k, i);
        }
    }

    proof fn lemma_nothing_learned(self, pass: Iteration<S>, i: int, tables: TablesView<S>)
        ensures
            self.learned(pass, self.from_first(pass, i, 0), tables) == tables,
    {
        let after = self.learned(pass, self.from_first(pass, i, 0), tables);
        assert(after.regrets =~= tables.regrets);
        assert(after.sums =~= tables.sums);
    }
}

impl<S: ExactScalar> RealSetup<S> {
    /// The numbers of a state that leaves a choice are learned on top of those below it.
    proof fn lemma_decided(self, pass: Iteration<S>, i: int, tables: TablesView<S>)
        requires
            self.is_pass(pass),
            0 <= i < pass.states.len(),
            self.is_fresh(pass, i, tables),
            self.tree.nodes@[pass.states[i].node_id as int].kind is Decision,
            self.tree.nodes@[pass.states[i].node_id as int].kind->actions@.len() > 1,
        ensures
            ({
                let state = pass.states[i];
                let node = self.tree.nodes@[state.node_id as int];
                let player = node.kind->player;
                let context = self.context(pass);
                let count = state.children@.len();
                let rows = self.backed_rows(pass.states, context, i, count);
                let outcome = self.decided(
                    state.node_id as int,
                    state.board_slot as int,
                    player,
                    count,
                    self.state_strategies(state, pass.tables),
                    ActionRows {
                        oop: rows.oop,
                        ip: rows.ip,
                        tables: self.learned(pass, self.from_first(pass, i, count), tables),
                        terminal_evals: rows.terminal_evals,
                    },
                    context.reaches.oop[i],
                    context.reaches.ip[i],
                    self.step(pass),
                );
                &&& outcome.values == self.backed(pass.states, context, i)
                &&& outcome.tables == self.learned(pass, self.from(pass, i), tables)
            }),
    {
        let states = pass.states;
        let state = states[i];
        let node_id = state.node_id as int;
        let node = self.tree.nodes@[node_id];
        let player = node.kind->player;
        let context = self.context(pass);
        let count = state.children@.len();
        let rows = self.backed_rows(states, context, i, count);
        let first = self.from_first(pass, i, count);
        let below = self.learned(pass, first, tables);
        let strategies = self.state_strategies(state, pass.tables);
        assert(self.is_phase_state(states, i));
        assert(is_shaped_at(self.tree.nodes@, node_id));
        assert(self.infosets@[node_id] == infoset_of(
            self.tree.nodes@,
            self.oop().len(),
            self.ip().len(),
            self.turns().len(),
            self.rivers().len(),
            node_id,
        ));
        self.knows_has_slot(state.board@);
        self.row_fits(node_id, state.board_slot as int);
        let outcome = self.decided(
            node_id,
            state.board_slot as int,
            player,
            count,
            strategies,
            ActionRows {
                oop: rows.oop,
                ip: rows.ip,
                tables: below,
                terminal_evals: rows.terminal_evals,
            },
            context.reaches.oop[i],
            context.reaches.ip[i],
            self.step(pass),
        );
        let values = self.backed(states, context, i);
        assert(outcome.values == values);
        let goal = self.learned(pass, self.from(pass, i), tables);
        let start = self.row_start(node_id, state.board_slot as int);
        let size = self.combos(player) * count;
        assert(self.slot_range(state) == Some((start, start + size)));
        let reach = match player {
            Player::Oop => context.reaches.oop[i],
            Player::Ip => context.reaches.ip[i],
        };
        assert forall|slot: int| 0 <= slot < self.action_slots implies outcome.tables.regrets[slot]
            == goal.regrets[slot] && outcome.tables.sums[slot] == goal.sums[slot] by {
            self.lemma_from_splits(pass, i, i);
            if start <= slot < start + size {
                assert(self.owns(states, i, slot));
                self.number_has_one_owner(states, i, slot);
                assert(comes_below(states, i, i));
                let combo = (slot - start) / (count as int);
                let action = (slot - start) % (count as int);
                assert(below.regrets[slot] == pass.tables.regrets[slot]);
                assert(below.sums[slot] == pass.tables.sums[slot]);
                factors_match_direct_update(
                    pass.variant,
                    S::from_u32_spec(pass.number),
                    pass.tables.regrets[slot],
                    pass.tables.sums[slot],
                    rows.side(player)[action][combo].minus_spec(values.side(player)[combo]),
                    reach[combo].times_spec(strategies[slot - start]),
                );
                let done = self.cell_backed(
                    states,
                    context,
                    phase_rule(pass.number, pass.variant),
                    i,
                    slot,
                );
                assert(goal.regrets[slot] == done.0);
                assert(goal.sums[slot] == done.1);
            } else {
                assert(!self.owns(states, i, slot));
                if let Some(j) = self.owner(states, slot) {
                    assert(self.owns(states, j, slot));
                    self.lemma_from_splits(pass, i, j);
                }
                assert(outcome.tables.regrets[slot] == below.regrets[slot]);
                assert(outcome.tables.sums[slot] == below.sums[slot]);
            }
        }
        assert(outcome.tables.regrets =~= goal.regrets);
        assert(outcome.tables.sums =~= goal.sums);
    }

    /// The strategies that a walk finds at a state are those from before the iteration.
    proof fn lemma_same_strategies(self, pass: Iteration<S>, i: int, tables: TablesView<S>)
        requires
            self.is_pass(pass),
            0 <= i < pass.states.len(),
            self.is_fresh(pass, i, tables),
            self.tree.nodes@[pass.states[i].node_id as int].kind is Decision,
            self.tree.nodes@[pass.states[i].node_id as int].kind->actions@.len() > 1,
        ensures
            ({
                let state = pass.states[i];
                let node = self.tree.nodes@[state.node_id as int];
                self.strategies_spec(
                    state.node_id as int,
                    state.board_slot as int,
                    tables.regrets,
                    self.combos(node.kind->player),
                    node.kind->actions@.len(),
                ) == self.state_strategies(state, pass.tables)
            }),
    {
        let state = pass.states[i];
        let node_id = state.node_id as int;
        assert(self.is_phase_state(pass.states, i));
        assert(self.infosets@[node_id] == infoset_of(
            self.tree.nodes@,
            self.oop().len(),
            self.ip().len(),
            self.turns().len(),
            self.rivers().len(),
            node_id,
        ));
        self.knows_has_slot(state.board@);
        self.row_fits(node_id, state.board_slot as int);
        let start = self.row_start(node_id, state.board_slot as int);
        let end = start + self.row_len(node_id);
        assert(tables.regrets.subrange(start, end) =~= pass.tables.regrets.subrange(start, end)) by {
            assert forall|slot: int| start <= slot < end implies tables.regrets[slot]
                == pass.tables.regrets[slot] by {
                assert(comes_below(pass.states, i, i));
                assert(self.owns(pass.states, i, slot));
            }
        }
    }

    /// A walk from a state gives the values that the phases give it, and learns what they learn from it
    /// on.
    proof fn lemma_visit(self, pass: Iteration<S>, i: int, tables: TablesView<S>)
        requires
            self.is_pass(pass),
            rounds_nothing::<S>(),
            0 <= i < pass.states.len(),
            self.is_fresh(pass, i, tables),
        ensures
            ({
                let context = self.context(pass);
                let outcome = self.visit(
                    pass.states[i].node_id as int,
                    pass.states[i].board@,
                    context.reaches.oop[i],
                    context.reaches.ip[i],
                    tables,
                    self.step(pass),
                );
                &&& outcome.values == self.backed(pass.states, context, i)
                &&& outcome.tables == self.learned(pass, self.from(pass, i), tables)
            }),
        decreases pass.states.len() - i, 1int, 0int,
    {
        let states = pass.states;
        let state = states[i];
        let node_id = state.node_id as int;
        let node = self.tree.nodes@[node_id];
        let context = self.context(pass);
        let count = state.children@.len();
        assert(self.is_phase_state(states, i));
        assert(is_shaped_at(self.tree.nodes@, node_id));
        assert(self.infosets@[node_id] == infoset_of(
            self.tree.nodes@,
            self.oop().len(),
            self.ip().len(),
            self.turns().len(),
            self.rivers().len(),
            node_id,
        ));
        match node.kind {
            PublicNodeKind::Terminal { reason } => {
                self.finished_hands_are_alike(
                    node,
                    reason,
                    state.board,
                    context.reaches.oop[i],
                    context.reaches.ip[i],
                    pass.limit,
                    context.mode,
                );
                self.lemma_no_numbers(pass, i, tables);
                self.lemma_nothing_learned(pass, i, tables);
            },
            PublicNodeKind::Chance(chance) => {
                self.lemma_no_numbers(pass, i, tables);
                self.lemma_nothing_learned(pass, i, tables);
                if node.children@.len() > 0 {
                    self.lemma_visit_cards(pass, i, tables, count);
                }
            },
            PublicNodeKind::Decision { player, actions } => {
                if actions@.len() == 1 {
                    let child = state.children@[0] as int;
                    self.lemma_follower(states, i, 0);
                    self.lemma_nothing_learned(pass, i, tables);
                    self.lemma_next_is_fresh(pass, i, 0, tables);
                    self.lemma_child_reach(states, pass.tables, i, 0, Player::Oop);
                    self.lemma_child_reach(states, pass.tables, i, 0, Player::Ip);
                    self.lemma_visit(pass, child, tables);
                    self.lemma_one_more(pass, i, 0, tables);
                    self.lemma_no_numbers(pass, i, tables);
                } else {
                    self.lemma_same_strategies(pass, i, tables);
                    self.lemma_visit_actions(pass, i, tables, count);
                    self.lemma_decided(pass, i, tables);
                }
            },
        }
    }

    proof fn lemma_visit_actions(self, pass: Iteration<S>, i: int, tables: TablesView<S>, n: nat)
        requires
            self.is_pass(pass),
            rounds_nothing::<S>(),
            0 <= i < pass.states.len(),
            self.is_fresh(pass, i, tables),
            self.tree.nodes@[pass.states[i].node_id as int].kind is Decision,
            self.tree.nodes@[pass.states[i].node_id as int].kind->actions@.len() > 1,
            n <= pass.states[i].children@.len(),
        ensures
            ({
                let state = pass.states[i];
                let context = self.context(pass);
                let rows = self.backed_rows(pass.states, context, i, n);
                self.visit_actions(
                    state.node_id as int,
                    self.tree.nodes@[state.node_id as int].kind->player,
                    self.state_strategies(state, pass.tables),
                    state.board@,
                    context.reaches.oop[i],
                    context.reaches.ip[i],
                    tables,
                    self.step(pass),
                    n,
                ) == (ActionRows {
                    oop: rows.oop,
                    ip: rows.ip,
                    tables: self.learned(pass, self.from_first(pass, i, n), tables),
                    terminal_evals: rows.terminal_evals,
                })
            }),
        decreases pass.states.len() - i, 0int, n,
    {
        if n == 0 {
            self.lemma_nothing_learned(pass, i, tables);
        } else {
            let states = pass.states;
            let k = n - 1;
            self.lemma_visit_actions(pass, i, tables, k as nat);
            self.lemma_follower(states, i, k);
            assert(is_shaped_at(self.tree.nodes@, states[i].node_id as int));
            self.lemma_child_reach(states, pass.tables, i, k, Player::Oop);
            self.lemma_child_reach(states, pass.tables, i, k, Player::Ip);
            self.lemma_next_is_fresh(pass, i, k, tables);
            self.lemma_visit(
                pass,
                states[i].children@[k] as int,
                self.learned(pass, self.from_first(pass, i, k as nat), tables),
            );
            self.lemma_one_more(pass, i, k, tables);
        }
    }

    proof fn lemma_visit_cards(self, pass: Iteration<S>, i: int, tables: TablesView<S>, n: nat)
        requires
            self.is_pass(pass),
            rounds_nothing::<S>(),
            0 <= i < pass.states.len(),
            self.is_fresh(pass, i, tables),
            self.tree.nodes@[pass.states[i].node_id as int].kind is Chance,
            self.tree.nodes@[pass.states[i].node_id as int].children@.len() > 0,
            n <= pass.states[i].children@.len(),
        ensures
            ({
                let state = pass.states[i];
                let context = self.context(pass);
                self.visit_cards(
                    state.node_id as int,
                    state.board@,
                    context.reaches.oop[i],
                    context.reaches.ip[i],
                    tables,
                    self.step(pass),
                    n,
                ) == (Outcome {
                    values: self.backed_cards(pass.states, context, i, n),
                    tables: self.learned(pass, self.from_first(pass, i, n), tables),
                })
            }),
        decreases pass.states.len() - i, 0int, n,
    {
        if n == 0 {
            self.lemma_nothing_learned(pass, i, tables);
        } else {
            let states = pass.states;
            let k = n - 1;
            self.lemma_visit_cards(pass, i, tables, k as nat);
            self.lemma_follower(states, i, k);
            assert(self.is_phase_state(states, i));
            assert(is_shaped_at(self.tree.nodes@, states[i].node_id as int));
            self.lemma_child_reach(states, pass.tables, i, k, Player::Oop);
            self.lemma_child_reach(states, pass.tables, i, k, Player::Ip);
            self.lemma_next_is_fresh(pass, i, k, tables);
            let child = states[i].children@[k] as int;
            self.lemma_visit(
                pass,
                child,
                self.learned(pass, self.from_first(pass, i, k as nat), tables),
            );
            self.lemma_one_more(pass, i, k, tables);
            let context = self.context(pass);
            lemma_added_times(
                self.backed_cards(states, context, i, k as nat).terminal_evals,
                self.backed(states, context, child).terminal_evals,
                states[i].chance_member_permutation_codes@[k]@.len(),
            );
        }
    }

    proof fn lemma_extends(self, states: Seq<PhaseState>, a: int, i: int, k: int)
        requires
            self.wf(),
            self.is_phase(states),
            0 <= a < states.len(),
            0 <= i < states.len(),
            0 <= k < states[i].children@.len(),
            comes_below(states, a, i),
        ensures
            comes_below(states, a, states[i].children@[k] as int),
        decreases states.len() - a,
    {
        let child = states[i].children@[k] as int;
        self.lemma_follower(states, i, k);
        assert(comes_below(states, child, child));
        if a == i {
            assert(a < states[a].children@[k] < states.len());
        } else {
            let m = choose|m: int|
                0 <= m < states[a].children@.len() && a < #[trigger] states[a].children@[m]
                    < states.len() && comes_below(states, states[a].children@[m] as int, i);
            self.lemma_extends(states, states[a].children@[m] as int, i, k);
            assert(a < states[a].children@[m] < states.len());
        }
    }

    proof fn lemma_root_above(self, states: Seq<PhaseState>, j: int)
        requires
            self.wf(),
            self.is_phase(states),
            0 <= j < states.len(),
        ensures
            comes_below(states, 0, j),
        decreases j,
    {
        if j > 0 {
            assert(is_followed(states, j));
            let (i, k) = choose|i: int, k: int|
                0 <= i < j && 0 <= k < states[i].children@.len() && #[trigger] states[i].children@[k]
                    == j;
            self.lemma_root_above(states, i);
            self.lemma_extends(states, 0, i, k);
        }
    }

    /// Over numbers that are not rounded, one iteration in three phases gives what one walk through the
    /// tree gives: the same values, the same count of evaluated boards, and the same tables. Where regrets are cut off at zero this is said of tables without negative regrets.
    pub proof fn phases_match_walk(
        self,
        states: Seq<PhaseState>,
        tables: TablesView<S>,
        iteration: u32,
        variant: RealCfrVariant<S>,
        limit: usize,
        use_side_cache: bool,
    )
        requires
            self.wf(),
            self.is_phase(states),
            tables.sized(self.action_slots as nat),
            rounds_nothing::<S>(),
            variant is DcfrPlus ==> forall|slot: int|
                0 <= slot < tables.regrets.len() ==> (
                #[trigger] tables.regrets[slot]).at_least_spec(S::zero_spec()),
        ensures
            self.phased_once(states, tables, iteration, variant, limit, use_side_cache)
                == self.visit(
                0,
                self.flop_board@,
                weights_of(self.oop()),
                weights_of(self.ip()),
                tables,
                Self::walk_step(iteration, variant, limit),
            ),
    {
        let pass = Iteration { states, tables, number: iteration, variant, limit, use_side_cache };
        assert(self.is_fresh(pass, 0, tables));
        self.lemma_visit(pass, 0, tables);
        self.lemma_flow_settles(states, tables, states.len(), 0);
        let phased = self.phased_once(states, tables, iteration, variant, limit, use_side_cache);
        let learned = self.learned(pass, self.from(pass, 0), tables);
        assert forall|slot: int, was: (S, S)|
            self.owner(states, slot) matches Some(j) implies #[trigger] self.cell_learned(
            pass,
            self.from(pass, 0),
            slot,
            was,
        ) == self.cell_backed(
            states,
            self.context(pass),
            phase_rule(iteration, variant),
            self.owner(states, slot)->Some_0,
            slot,
        ) by {
            let j = self.owner(states, slot)->Some_0;
            assert(0 <= j < states.len() && self.owns(states, j, slot));
            self.lemma_root_above(states, j);
        }
        assert(phased.tables.regrets =~= learned.regrets);
        assert(phased.tables.sums =~= learned.sums);
    }

    /// Over such numbers, workers that keep the values of boards give what workers without give.
    pub proof fn side_cache_changes_nothing(
        self,
        states: Seq<PhaseState>,
        tables: TablesView<S>,
        iteration: u32,
        variant: RealCfrVariant<S>,
        limit: usize,
    )
        requires
            self.wf(),
            self.is_phase(states),
            tables.sized(self.action_slots as nat),
            rounds_nothing::<S>(),
            variant is DcfrPlus ==> forall|slot: int|
                0 <= slot < tables.regrets.len() ==> (
                #[trigger] tables.regrets[slot]).at_least_spec(S::zero_spec()),
        ensures
            self.phased_once(states, tables, iteration, variant, limit, true) == self.phased_once(
                states,
                tables,
                iteration,
                variant,
                limit,
                false,
            ),
    {
        self.phases_match_walk(states, tables, iteration, variant, limit, true);
        self.phases_match_walk(states, tables, iteration, variant, limit, false);
    }

    /// Over such numbers, a run in three phases gives what as many walks give.
    pub proof fn runs_match_walks(
        self,
        states: Seq<PhaseState>,
        tables: TablesView<S>,
        completed: int,
        variant: RealCfrVariant<S>,
        limit: usize,
        use_side_cache: bool,
        n: nat,
    )
        requires
            self.wf(),
            self.is_phase(states),
            tables.sized(self.action_slots as nat),
            rounds_nothing::<S>(),
            variant is DcfrPlus ==> forall|slot: int|
                0 <= slot < tables.regrets.len() ==> (
                #[trigger] tables.regrets[slot]).at_least_spec(S::zero_spec()),
        ensures
            self.phased(states, tables, completed, variant, limit, use_side_cache, n) == self.walked(
                tables,
                completed,
                variant,
                limit,
                n,
            ),
            ({
                let after = self.walked(tables, completed, variant, limit, n).tables;
                &&& after.sized(self.action_slots as nat)
                &&& variant is DcfrPlus ==> forall|slot: int|
                    0 <= slot < after.regrets.len() ==> (
                    #[trigger] after.regrets[slot]).at_least_spec(S::zero_spec())
            }),
        decreases n,
    {
        if n > 0 {
            self.runs_match_walks(
                states,
                tables,
                completed,
                variant,
                limit,
                use_side_cache,
                (n - 1) as nat,
            );
            let before = self.walked(tables, completed, variant, limit, (n - 1) as nat).tables;
            let number = (completed + n) as u32;
            self.phases_match_walk(states, before, number, variant, limit, use_side_cache);
            let after = self.phased_once(states, before, number, variant, limit, use_side_cache).tables;
            if variant is DcfrPlus {
                assert forall|slot: int| 0 <= slot < after.regrets.len() implies (
                #[trigger] after.regrets[slot]).at_least_spec(S::zero_spec()) by {
                    assert(before.regrets[slot].at_least_spec(S::zero_spec()));
                }
            }
        }
    }
}

} // verus!
