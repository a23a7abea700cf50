//! How often a walk through a tree comes to its nodes, and how many states follow others.
use vstd::prelude::*;
use crate::arith::{bounded, bounded_product, bounded_sum};
use crate::cards::{deck_without, Board, Card};
use crate::isomorphism::{
    class_facts, class_views, next_card_classes, next_card_isomorphism, CardClass,
    NextCardIsomorphism,
};
use crate::phase_states::PhaseState;
use crate::real_setup::RealSetup;
use crate::scalar::Scalar;
use crate::tree::{Player, PublicNode, PublicNodeKind, TerminalReason};
use crate::tree_shape::is_shaped_at;

verus! {

/// How often a walk comes to finished hands, to folds and to others of them, to chance nodes, with how many
/// cards, and to decisions, how often it works out strategies, how many reaches it writes for them, and how
/// often it starts from values of zero.
#[derive(Clone, Copy, Debug, PartialEq, Eq, Structural)]
pub struct RecursiveCfrProfile {
    pub terminal_calls: usize,
    pub fold_calls: usize,
    pub showdown_calls: usize,
    pub chance_calls: usize,
    pub chance_cards: usize,
    pub decision_calls: usize,
    pub strategy_builds: usize,
    pub reach_scratch_writes: usize,
    pub values_zero: usize,
}

impl RecursiveCfrProfile {
    /// Nothing was done.
    pub open spec fn none_spec() -> Self {
        RecursiveCfrProfile {
            terminal_calls: 0,
            fold_calls: 0,
            showdown_calls: 0,
            chance_calls: 0,
            chance_cards: 0,
            decision_calls: 0,
            strategy_builds: 0,
            reach_scratch_writes: 0,
            values_zero: 0,
        }
    }

    /// Nothing was done.
    pub fn none() -> (r: Self)
        ensures
            r == Self::none_spec(),
    {
        RecursiveCfrProfile {
            terminal_calls: 0,
            fold_calls: 0,
            showdown_calls: 0,
            chance_calls: 0,
            chance_cards: 0,
            decision_calls: 0,
            strategy_builds: 0,
            reach_scratch_writes: 0,
            values_zero: 0,
        }
    }

    /// What two walks did.
    pub open spec fn with_spec(self, other: Self) -> Self {
        RecursiveCfrProfile {
            terminal_calls: bounded(self.terminal_calls + other.terminal_calls) as usize,
            fold_calls: bounded(self.fold_calls + other.fold_calls) as usize,
            showdown_calls: bounded(self.showdown_calls + other.showdown_calls) as usize,
            chance_calls: bounded(self.chance_calls + other.chance_calls) as usize,
            chance_cards: bounded(self.chance_cards + other.chance_cards) as usize,
            decision_calls: bounded(self.decision_calls + other.decision_calls) as usize,
            strategy_builds: bounded(self.strategy_builds + other.strategy_builds) as usize,
            reach_scratch_writes: bounded(
                self.reach_scratch_writes + other.reach_scratch_writes,
            ) as usize,
            values_zero: bounded(self.values_zero + other.values_zero) as usize,
        }
    }

    /// What two walks did.
    pub fn with(self, other: Self) -> (r: Self)
        ensures
            r == self.with_spec(other),
    {
        RecursiveCfrProfile {
            terminal_calls: bounded_sum(self.terminal_calls, other.terminal_calls),
            fold_calls: bounded_sum(self.fold_calls, other.fold_calls),
            showdown_calls: bounded_sum(self.showdown_calls, other.showdown_calls),
            chance_calls: bounded_sum(self.chance_calls, other.chance_calls),
            chance_cards: bounded_sum(self.chance_cards, other.chance_cards),
            decision_calls: bounded_sum(self.decision_calls, other.decision_calls),
            strategy_builds: bounded_sum(self.strategy_builds, other.strategy_builds),
            reach_scratch_writes: bounded_sum(
                self.reach_scratch_writes,
                other.reach_scratch_writes,
            ),
            values_zero: bounded_sum(self.values_zero, other.values_zero),
        }
    }
}

impl<S: Scalar> RealSetup<S> {
    /// What a walk does at a node on a board, without what follows.
    pub open spec fn node_profile(self, node_id: int, board: Seq<Card>) -> RecursiveCfrProfile {
        let node = self.tree.nodes@[node_id];
        let none = RecursiveCfrProfile::none_spec();
        match node.kind {
            PublicNodeKind::Terminal { reason } => if reason == TerminalReason::Fold {
                RecursiveCfrProfile { terminal_calls: 1, fold_calls: 1, ..none }
            } else {
                RecursiveCfrProfile { terminal_calls: 1, showdown_calls: 1, ..none }
            },
            PublicNodeKind::Chance(chance) => RecursiveCfrProfile {
                chance_calls: 1,
                values_zero: 1,
                chance_cards: if node.children@.len() == 0 {
                    0
                } else {
                    deck_without(board).len() as usize
                },
                ..none
            },
            PublicNodeKind::Decision { player, actions } => if actions@.len() == 1 {
                RecursiveCfrProfile { decision_calls: 1, ..none }
            } else {
                RecursiveCfrProfile {
                    decision_calls: 1,
                    strategy_builds: 1,
                    values_zero: 1,
                    reach_scratch_writes: bounded(
                        (self.combos(player) * actions@.len()) as int,
                    ) as usize,
                    ..none
                }
            },
        }
    }

    /// What a walk from a node on a board does.
    pub open spec fn walk_profile(self, node_id: int, board: Seq<Card>) -> RecursiveCfrProfile
        decreases self.tree.nodes@.len() - node_id, 1int, 0int,
    {
        let node = self.tree.nodes@[node_id];
        let here = self.node_profile(node_id, board);
        match node.kind {
            PublicNodeKind::Terminal { reason } => here,
            PublicNodeKind::Chance(chance) => if node.children@.len() == 0 {
                here
            } else {
                self.cards_profile(
                    here,
                    node_id,
                    board,
                    next_card_classes(board, self.oop(), self.ip()).len(),
                )
            },
            PublicNodeKind::Decision { player, actions } => self.actions_profile(
                here,
                node_id,
                board,
                actions@.len(),
            ),
        }
    }

    /// What a walk does that goes on with the cards of the first `n` classes.
    pub open spec fn cards_profile(
        self,
        start: RecursiveCfrProfile,
        node_id: int,
        board: Seq<Card>,
        n: nat,
    ) -> RecursiveCfrProfile
        decreases self.tree.nodes@.len() - node_id, 0int, n,
    {
        if n == 0 {
            start
        } else {
            let front = self.cards_profile(start, node_id, board, (n - 1) as nat);
            let class = next_card_classes(board, self.oop(), self.ip())[n - 1];
            let child = self.tree.nodes@[node_id].children@[0] as int;
            if node_id < child < self.tree.nodes@.len() {
                front.with_spec(self.walk_profile(child, board.push(class.representative)))
            } else {
                front
            }
        }
    }

    /// What a walk does that goes on with the first `n` actions.
    pub open spec fn actions_profile(
        self,
        start: RecursiveCfrProfile,
        node_id: int,
        board: Seq<Card>,
        n: nat,
    ) -> RecursiveCfrProfile
        decreases self.tree.nodes@.len() - node_id, 0int, n,
    {
        if n == 0 {
            start
        } else {
            let front = self.actions_profile(start, node_id, board, (n - 1) as nat);
            let child = self.tree.nodes@[node_id].children@[n - 1] as int;
            if node_id < child < self.tree.nodes@.len() {
                front.with_spec(self.walk_profile(child, board))
            } else {
                front
            }
        }
    }

    /// Counts what a walk from a node on a board does.
    pub fn count_walk(&self, node_id: usize, board: &Board) -> (r: RecursiveCfrProfile)
        requires
            self.wf(),
            self.plays(node_id as int, *board),
        ensures
            r == self.walk_profile(node_id as int, board@),
        decreases self.tree.nodes@.len() - node_id, 1int,
    {
        proof {
            assert(is_shaped_at(self.tree.nodes@, node_id as int));
            self.knows_starts_with_flop(board@);
        }
        let node: &PublicNode = &self.tree.nodes[node_id];
        let mut profile: RecursiveCfrProfile = RecursiveCfrProfile::none();
        match &node.kind {
            PublicNodeKind::Terminal { reason } => {
                profile.terminal_calls = 1;
                match reason {
                    TerminalReason::Fold => {
                        profile.fold_calls = 1;
                    },
                    _ => {
                        profile.showdown_calls = 1;
                    },
                }
                profile
            },
            PublicNodeKind::Chance(_) => {
                profile.chance_calls = 1;
                profile.values_zero = 1;
                if node.children.len() == 0 {
                    return profile;
                }
                self.count_cards(profile, node_id, board)
            },
            PublicNodeKind::Decision { player, actions } => {
                profile.decision_calls = 1;
                let width: usize = actions.len();
                if width != 1 {
                    let combos: usize = match player {
                        Player::Oop => self.oop_range.combos().len(),
                        Player::Ip => self.ip_range.combos().len(),
                    };
                    profile.strategy_builds = 1;
                    profile.values_zero = 1;
                    profile.reach_scratch_writes = bounded_product(combos, width);
                }
                let ghost start = profile;
                for n in 0..width
                    invariant
                        self.wf(),
                        self.plays(node_id as int, *board),
                        node == self.tree.nodes@[node_id as int],
                        node.kind is Decision,
                        width == node.kind->actions@.len(),
                        profile == self.actions_profile(start, node_id as int, board@, n as nat),
                {
                    proof {
                        assert(is_shaped_at(self.tree.nodes@, node_id as int));
                        assert(node_id < node.children@[n as int] < self.tree.nodes@.len());
                    }
                    let child: usize = node.children[n];
                    profile = profile.with(self.count_walk(child, board));
                }
                profile
            },
        }
    }

    fn count_cards(&self, start: RecursiveCfrProfile, node_id: usize, board: &Board) -> (r:
        RecursiveCfrProfile)
        requires
            self.wf(),
            self.plays(node_id as int, *board),
            self.tree.nodes@[node_id as int].kind is Chance,
            self.tree.nodes@[node_id as int].children@.len() > 0,
        ensures
            r == self.cards_profile(
                (RecursiveCfrProfile { chance_cards: deck_without(board@).len() as usize, ..start }),
                node_id as int,
                board@,
                next_card_classes(board@, self.oop(), self.ip()).len(),
            ),
        decreases self.tree.nodes@.len() - node_id, 0int,
    {
        let ghost views = next_card_classes(board@, self.oop(), self.ip());
        proof {
            assert(is_shaped_at(self.tree.nodes@, node_id as int));
            self.knows_starts_with_flop(board@);
            class_facts(board@, self.oop(), self.ip(), deck_without(board@).len());
        }
        let child: usize = self.tree.nodes[node_id].children[0];
        proof {
            assert(node_id < self.tree.nodes@[node_id as int].children@[0] < self.tree.nodes@.len());
        }
        let isomorphism: NextCardIsomorphism = next_card_isomorphism(
            board,
            &self.oop_range,
            &self.ip_range,
        );
        let mut profile: RecursiveCfrProfile = start;
        profile.chance_cards = isomorphism.concrete_events;
        let ghost first = profile;
        for k in 0..isomorphism.classes.len()
            invariant
                self.wf(),
                self.plays(node_id as int, *board),
                board@.len() < 5,
                views == next_card_classes(board@, self.oop(), self.ip()),
                views == class_views(isomorphism.classes@),
                views.len() == isomorphism.classes@.len(),
                forall|i: int|
                    0 <= i < views.len() ==> !board@.contains((#[trigger] views[i]).representative),
                child == self.tree.nodes@[node_id as int].children@[0],
                node_id < child < self.tree.nodes@.len(),
                self.tree.nodes@[child as int].state.board@.len() == board@.len() + 1,
                profile == self.cards_profile(first, node_id as int, board@, k as nat),
        {
            let class: &CardClass = &isomorphism.classes[k];
            proof {
                assert(class_views(isomorphism.classes@)[k as int] == isomorphism.classes@[k as int]@);
                assert(!board@.contains(views[k as int].representative));
                self.knows_next(board@, k as int);
            }
            let next: Board = board.with_card(class.representative);
            profile = profile.with(self.count_walk(child, &next));
        }
        profile
    }

    /// How many states follow the chance nodes among the first `n` states.
    pub open spec fn chance_edges(self, states: Seq<PhaseState>, n: nat) -> nat
        decreases n,
    {
        if n == 0 {
            0
        } else {
            self.chance_edges(states, (n - 1) as nat)
                + if self.tree.nodes@[states[n - 1].node_id as int].kind is Chance {
                states[n - 1].children@.len()
            } else {
                0
            }
        }
    }

    /// How many actions the decisions among the first `n` states have.
    pub open spec fn decision_edges(self, states: Seq<PhaseState>, n: nat) -> nat
        decreases n,
    {
        if n == 0 {
            0
        } else {
            self.decision_edges(states, (n - 1) as nat) + match self.tree.nodes@[states[n
                - 1].node_id as int].kind {
                PublicNodeKind::Decision { player, actions } => actions@.len(),
                _ => 0,
            }
        }
    }

    /// How many reaches a pass hands on from chance nodes and from decisions.
    pub fn count_edges(&self, states: &Vec<PhaseState>) -> (r: (usize, usize))
        requires
            self.wf(),
            self.is_phase(states@),
        ensures
            r.0 == bounded(self.chance_edges(states@, states@.len()) as int),
            r.1 == bounded(self.decision_edges(states@, states@.len()) as int),
    {
        let mut chances: usize = 0;
        let mut decisions: usize = 0;
        for i in 0..states.len()
            invariant
                self.wf(),
                self.is_phase(states@),
                chances == bounded(self.chance_edges(states@, i as nat) as int),
                decisions == bounded(self.decision_edges(states@, i as nat) as int),
        {
            let state: &PhaseState = &states[i];
            proof {
                assert(self.is_phase_state(states@, i as int));
            }
            match &self.tree.nodes[state.node_id].kind {
                PublicNodeKind::Terminal { reason } => {},
                PublicNodeKind::Chance(_) => {
                    chances = bounded_sum(chances, state.children.len());
                },
                PublicNodeKind::Decision { player, actions } => {
                    decisions = bounded_sum(decisions, actions.len());
                },
            }
        }
        (chances, decisions)
    }
}

} // verus!
