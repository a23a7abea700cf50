//! Building public trees.
use vstd::prelude::*;
use crate::actions::{
    all_suit, apply_action, suits, transition, transitions_keep_chips, Transition,
};
use crate::cards::{deck_without, Card};
use crate::deals::deck_without_facts;
use crate::isomorphism::{
    class_facts, class_views, next_card_classes, next_card_isomorphism, CardClass, ClassMember,
    NextCardIsomorphism, SuitPermutation,
};
use crate::range::{ComboWeight, RangeSpec};
use crate::scalar::Scalar;
use crate::tree::{
    ActionKind, ChanceExpansion, ChanceSpec, PublicNode, PublicNodeKind, PublicState, PublicTree,
    Spot, SpotSummary, Street, TerminalReason, TreeBuildError, TreeTemplate,
};

verus! {

/// Where the nodes below a node end, in preorder.
pub open spec fn tree_end(nodes: Seq<PublicNode>, i: int) -> int
    decreases nodes.len() - i,
{
    let children = nodes[i].children@;
    if children.len() > 0 && i < children.last() < nodes.len() {
        tree_end(nodes, children.last() as int)
    } else {
        i + 1
    }
}

/// Whether a child stands where preorder puts it: right behind its parent, or behind all that is below
/// the child before it.
pub open spec fn child_placed(nodes: Seq<PublicNode>, i: int, k: int) -> bool {
    let children = nodes[i].children@;
    &&& i < children[k] < nodes.len()
    &&& children[k] == (if k == 0 {
        i + 1
    } else {
        tree_end(nodes, children[k - 1] as int)
    })
}

/// Whether the children of a node stand in preorder.
pub open spec fn placed(nodes: Seq<PublicNode>, i: int) -> bool {
    forall|k: int| 0 <= k < nodes[i].children@.len() ==> #[trigger] child_placed(nodes, i, k)
}

/// Whether the cards of a chance node are those that a template deals.
pub open spec fn deals<S: Scalar>(
    template: TreeTemplate<S>,
    oop: Seq<ComboWeight<S>>,
    ip: Seq<ComboWeight<S>>,
    state: PublicState,
    chance: ChanceSpec,
) -> bool {
    let deck = deck_without(state.board@);
    let identity = SuitPermutation::identity_spec().code_spec() as u8;
    &&& chance.next_street == state.street
    &&& chance.cards@.len() == chance.child_multiplicities@.len()
    &&& chance.cards@.len() == chance.child_permutation_codes@.len()
    &&& match template.chance_expansion {
        ChanceExpansion::Isomorphic => {
            let classes = next_card_classes(state.board@, oop, ip);
            &&& chance.cards@.len() == classes.len()
            &&& forall|k: int|
                #![trigger chance.cards@[k]]
                0 <= k < classes.len() ==> {
                    &&& chance.cards@[k] == classes[k].representative
                    &&& chance.child_multiplicities@[k] == classes[k].members.len()
                    &&& codes_of(chance.child_permutation_codes@[k]@, classes[k].members)
                }
        },
        _ => {
            &&& chance.cards@ == (if template.chance_expansion == ChanceExpansion::Enumerate {
                deck
            } else {
                deck.take(1)
            })
            &&& forall|k: int|
                #![trigger chance.cards@[k]]
                0 <= k < chance.cards@.len() ==> {
                    &&& chance.child_multiplicities@[k] == 1
                    &&& chance.child_permutation_codes@[k]@ == seq![identity]
                }
        },
    }
}

/// Whether numbers are the codes of the members' permutations.
pub open spec fn codes_of(codes: Seq<u8>, members: Seq<ClassMember>) -> bool {
    &&& codes.len() == members.len()
    &&& forall|m: int|
        0 <= m < codes.len() ==> #[trigger] codes[m]
            == members[m].permutation_to_representative.code_spec()
}

/// Whether a node is where a state is played on: a decision, or the end if nothing can be done.
pub open spec fn is_played<S: Scalar>(
    template: TreeTemplate<S>,
    node: PublicNode,
    state: PublicState,
) -> bool {
    &&& node.state == state
    &&& if template.action_abstraction.legal(state).len() == 0 {
        node.kind == (PublicNodeKind::Terminal { reason: TerminalReason::Showdown })
    } else {
        node.kind is Decision
    }
}

/// Whether a node is what a transition leads to.
pub open spec fn is_reached<S: Scalar>(
    template: TreeTemplate<S>,
    node: PublicNode,
    next: Transition,
) -> bool {
    match next {
        Transition::State(state) => is_played(template, node, state),
        Transition::Terminal(state, reason) => node.state == state && node.kind
            == (PublicNodeKind::Terminal { reason }),
        Transition::Chance(state) => node.state == state && node.kind is Chance,
    }
}

/// Whether a state is another one with one more card on the board.
pub open spec fn is_dealt(next: PublicState, state: PublicState, card: Card) -> bool {
    &&& next == (PublicState { board: next.board, ..state })
    &&& next.board.wf()
    &&& next.board@ == state.board@.push(card)
}

/// Whether a state is one in which a player acts.
pub open spec fn is_playable(state: PublicState) -> bool {
    state.is_sound() && state.board@.len() == 3 + state.street.place()
}

/// Whether the `k`-th child of a decision node is what the `k`-th action leads to.
pub open spec fn decision_leads<S: Scalar>(
    template: TreeTemplate<S>,
    nodes: Seq<PublicNode>,
    i: int,
    k: int,
) -> bool {
    is_reached(
        template,
        nodes[nodes[i].children@[k] as int],
        transition(nodes[i].state, template.action_abstraction.legal(nodes[i].state)[k]),
    )
}

/// Whether the `k`-th child of a chance node plays on with the `k`-th card.
pub open spec fn chance_leads<S: Scalar>(
    template: TreeTemplate<S>,
    nodes: Seq<PublicNode>,
    i: int,
    k: int,
    card: Card,
) -> bool {
    let child = nodes[nodes[i].children@[k] as int];
    &&& is_dealt(child.state, nodes[i].state, card)
    &&& is_played(template, child, child.state)
}

/// Whether a node is built as a template says: its actions are those of its state, its cards those to
/// come, and its children, in preorder, what they lead to.
pub open spec fn is_built<S: Scalar>(
    template: TreeTemplate<S>,
    oop: Seq<ComboWeight<S>>,
    ip: Seq<ComboWeight<S>>,
    nodes: Seq<PublicNode>,
    i: int,
) -> bool {
    let node = nodes[i];
    &&& node.id == i
    &&& node.state.counts()
    &&& placed(nodes, i)
    &&& match node.kind {
        PublicNodeKind::Decision { player, actions } => {
            &&& is_playable(node.state)
            &&& player == node.state.player
            &&& actions@ == template.action_abstraction.legal(node.state)
            &&& actions@.len() > 0
            &&& node.children@.len() == actions@.len()
            &&& forall|k: int|
                0 <= k < actions@.len() ==> #[trigger] decision_leads(template, nodes, i, k)
        },
        PublicNodeKind::Chance(chance) => {
            &&& node.state.is_sound()
            &&& node.state.board@.len() == 2 + node.state.street.place()
            &&& deals(template, oop, ip, node.state, chance)
            &&& node.children@.len() == chance.cards@.len()
            &&& forall|k: int|
                0 <= k < chance.cards@.len() ==> #[trigger] chance_leads(
                    template,
                    nodes,
                    i,
                    k,
                    chance.cards@[k],
                )
        },
        PublicNodeKind::Terminal { reason } => node.children@.len() == 0 && node.state.board.wf(),
    }
}

/// Nodes that are built stay so when nodes are added behind them, and end where they ended.
proof fn lemma_frame<S: Scalar>(
    template: TreeTemplate<S>,
    oop: Seq<ComboWeight<S>>,
    ip: Seq<ComboWeight<S>>,
    a: Seq<PublicNode>,
    b: Seq<PublicNode>,
    lo: int,
    i: int,
)
    requires
        0 <= lo <= i < a.len() <= b.len(),
        forall|j: int| lo <= j < a.len() ==> #[trigger] is_built(template, oop, ip, a, j),
        forall|j: int| lo <= j < a.len() ==> #[trigger] a[j] == b[j],
    ensures
        is_built(template, oop, ip, b, i),
        tree_end(a, i) == tree_end(b, i),
    decreases a.len() - i,
{
    assert(is_built(template, oop, ip, a, i));
    assert(a[i] == b[i]);
    let children = a[i].children@;
    assert forall|k: int| 0 <= k < children.len() implies {
        &&& i < #[trigger] children[k] < a.len()
        &&& a[children[k] as int] == b[children[k] as int]
        &&& tree_end(a, children[k] as int) == tree_end(b, children[k] as int)
    } by {
        assert(child_placed(a, i, k));
        lemma_frame(template, oop, ip, a, b, lo, children[k] as int);
    }
    assert forall|k: int| 0 <= k < children.len() implies #[trigger] child_placed(b, i, k) by {
        assert(child_placed(a, i, k));
        assert(i < children[k] < a.len());
        if k > 0 {
            assert(tree_end(a, children[k - 1] as int) == tree_end(b, children[k - 1] as int));
        }
    }
    match a[i].kind {
        PublicNodeKind::Decision { player, actions } => {
            assert forall|k: int| 0 <= k < actions@.len() implies #[trigger] decision_leads(
                template,
                b,
                i,
                k,
            ) by {
                assert(decision_leads(template, a, i, k));
                assert(i < children[k] < a.len());
            }
        },
        PublicNodeKind::Chance(chance) => {
            assert forall|k: int| 0 <= k < chance.cards@.len() implies #[trigger] chance_leads(
                template,
                b,
                i,
                k,
                chance.cards@[k],
            ) by {
                assert(chance_leads(template, a, i, k, chance.cards@[k]));
                assert(i < children[k] < a.len());
            }
        },
        PublicNodeKind::Terminal { reason } => {},
    }
    if children.len() > 0 {
        assert(i < children[children.len() - 1] < a.len());
    }
}

fn copy_cards(cards: &Vec<Card>) -> (r: Vec<Card>)
    ensures
        r@ == cards@,
{
    let mut list: Vec<Card> = Vec::new();
    for i in 0..cards.len()
        invariant
            list@ == cards@.take(i as int),
    {
        list.push(cards[i]);
    }
    proof {
        assert(cards@.take(cards@.len() as int) =~= cards@);
    }
    list
}

/// Builds public trees by a template.
#[derive(Clone, Debug)]
pub struct TreeBuilder<S> {
    pub template: TreeTemplate<S>,
}

/// Whether a template can be used: a minimum bet, a finite multiplier above one, and usable sizes.
pub open spec fn is_usable<S: Scalar>(template: TreeTemplate<S>) -> bool {
    let raise = template.action_abstraction.raise;
    &&& template.action_abstraction.min_bet > 0
    &&& !S::one_spec().at_least_spec(raise.raise_multiplier)
    &&& raise.raise_multiplier.is_finite_spec()
    &&& forall|i: int|
        0 <= i < raise.raise_sizes@.len() ==> (#[trigger] raise.raise_sizes@[i]).valid_spec()
}

/// Whether a tree is the one that a template builds from a spot.
pub open spec fn is_tree_of<S: Scalar>(template: TreeTemplate<S>, spot: Spot<S>, tree: PublicTree) -> bool {
    &&& tree.spot.board == spot.board
    &&& tree.spot.pot == spot.pot
    &&& tree.spot.effective_stack == spot.effective_stack
    &&& tree.spot.first_player == spot.first_player
    &&& tree.spot.oop_range_combos == spot.oop_range.combos_spec().len()
    &&& tree.spot.ip_range_combos == spot.ip_range.combos_spec().len()
    &&& tree.nodes@.len() > 0
    &&& is_played(template, tree.nodes@[0], root_state(spot))
    &&& tree_end(tree.nodes@, 0) == tree.nodes@.len()
    &&& forall|i: int|
        0 <= i < tree.nodes@.len() ==> #[trigger] is_built(
            template,
            spot.oop_range.combos_spec(),
            spot.ip_range.combos_spec(),
            tree.nodes@,
            i,
        )
}

/// The state in which a spot starts.
pub open spec fn root_state<S: Scalar>(spot: Spot<S>) -> PublicState {
    PublicState {
        street: Street::Flop,
        board: spot.board,
        pot: spot.pot,
        oop_stack: spot.effective_stack,
        ip_stack: spot.effective_stack,
        oop_street_commit: 0,
        ip_street_commit: 0,
        last_raise_size: 0,
        raises_this_street: 0,
        checks_this_street: 0,
        can_donk: false,
        player: spot.first_player,
    }
}

/// Whether the nodes from a place on were added to a list, all built, the first for what is asked.
spec fn was_added<S: Scalar>(
    template: TreeTemplate<S>,
    oop: Seq<ComboWeight<S>>,
    ip: Seq<ComboWeight<S>>,
    before: Seq<PublicNode>,
    after: Seq<PublicNode>,
) -> bool {
    &&& before.len() < after.len()
    &&& forall|j: int| 0 <= j < before.len() ==> #[trigger] after[j] == before[j]
    &&& forall|j: int|
        before.len() <= j < after.len() ==> #[trigger] is_built(template, oop, ip, after, j)
    &&& tree_end(after, before.len() as int) == after.len()
}

/// What holds while the children of the node at a place are added.
spec fn under_way<S: Scalar>(
    template: TreeTemplate<S>,
    oop: Seq<ComboWeight<S>>,
    ip: Seq<ComboWeight<S>>,
    before: Seq<PublicNode>,
    now: Seq<PublicNode>,
    id: int,
    done: int,
) -> bool {
    &&& id == before.len()
    &&& id < now.len()
    &&& forall|j: int| 0 <= j < id ==> #[trigger] now[j] == before[j]
    &&& forall|j: int| id < j < now.len() ==> #[trigger] is_built(template, oop, ip, now, j)
    &&& now[id].children@.len() == done
    &&& placed(now, id)
    &&& now.len() == (if done == 0 {
        id + 1
    } else {
        tree_end(now, now[id].children@[done - 1] as int)
    })
}

/// One more child was built behind the others and named in the node.
proof fn lemma_child_added<S: Scalar>(
    template: TreeTemplate<S>,
    oop: Seq<ComboWeight<S>>,
    ip: Seq<ComboWeight<S>>,
    before: Seq<PublicNode>,
    now: Seq<PublicNode>,
    grown: Seq<PublicNode>,
    named: Seq<PublicNode>,
    id: int,
    done: int,
)
    requires
        under_way(template, oop, ip, before, now, id, done),
        was_added(template, oop, ip, now, grown),
        named.len() == grown.len(),
        forall|j: int| 0 <= j < named.len() && j != id ==> #[trigger] named[j] == grown[j],
        named[id].children@ == now[id].children@.push(now.len() as usize),
        now.len() <= usize::MAX,
    ensures
        under_way(template, oop, ip, before, named, id, done + 1),
        forall|k: int|
            0 <= k < done ==> named[#[trigger] named[id].children@[k] as int]
                == now[now[id].children@[k] as int],
        forall|k: int|
            0 <= k < done ==> #[trigger] named[id].children@[k] == now[id].children@[k],
{
    assert forall|j: int| id < j < grown.len() implies #[trigger] is_built(
        template,
        oop,
        ip,
        grown,
        j,
    ) by {
        if j < now.len() {
            assert(is_built(template, oop, ip, now, j));
            lemma_frame(template, oop, ip, now, grown, id + 1, j);
        }
    }
    assert forall|j: int| id < j < named.len() implies #[trigger] is_built(
        template,
        oop,
        ip,
        named,
        j,
    ) by {
        assert(is_built(template, oop, ip, grown, j));
        lemma_frame(template, oop, ip, grown, named, id + 1, j);
    }
    let old_children = now[id].children@;
    let children = named[id].children@;
    assert forall|k: int| 0 <= k < done implies {
        &&& id < #[trigger] children[k] < now.len()
        &&& tree_end(named, children[k] as int) == tree_end(now, children[k] as int)
    } by {
        assert(child_placed(now, id, k));
        lemma_frame(template, oop, ip, now, grown, id + 1, children[k] as int);
        lemma_frame(template, oop, ip, grown, named, id + 1, children[k] as int);
    }
    assert forall|k: int| 0 <= k < children.len() implies #[trigger] child_placed(named, id, k) by {
        if k < done {
            assert(child_placed(now, id, k));
            if k > 0 {
                assert(id < children[k - 1] < now.len());
            }
        } else if done > 0 {
            assert(id < children[done - 1] < now.len());
        }
    }
    lemma_frame(template, oop, ip, grown, named, id + 1, now.len() as int);
    assert(children[done] == now.len());
    assert forall|k: int| 0 <= k < done implies named[#[trigger] children[k] as int]
        == now[old_children[k] as int] by {
        assert(id < children[k] < now.len());
    }
}

/// A node whose children are all added is built, once they are what they should be.
proof fn lemma_finished<S: Scalar>(
    template: TreeTemplate<S>,
    oop: Seq<ComboWeight<S>>,
    ip: Seq<ComboWeight<S>>,
    before: Seq<PublicNode>,
    now: Seq<PublicNode>,
    id: int,
    done: int,
)
    requires
        under_way(template, oop, ip, before, now, id, done),
        is_built(template, oop, ip, now, id),
    ensures
        was_added(template, oop, ip, before, now),
{
    if done > 0 {
        assert(child_placed(now, id, done - 1));
    }
}

/// The cards that a chance node deals, with what they stand for.
struct Deal {
    cards: Vec<Card>,
    multiplicities: Vec<usize>,
    codes: Vec<Vec<u8>>,
}

impl<S: Scalar> TreeBuilder<S> {
    /// A builder, if the template can be used.
    pub fn new(template: TreeTemplate<S>) -> (r: Result<Self, TreeBuildError>)
        ensures
            match r {
                Ok(builder) => is_usable(template) && builder.template == template,
                Err(error) => !is_usable(template) && error == TreeBuildError::InvalidSizing,
            },
    {
        let raise = &template.action_abstraction.raise;
        let mut sizes_valid: bool = true;
        for i in 0..raise.raise_sizes.len()
            invariant
                sizes_valid == (forall|j: int|
                    0 <= j < i ==> (#[trigger] raise.raise_sizes@[j]).valid_spec()),
        {
            let ghost was = sizes_valid;
            let valid: bool = raise.raise_sizes[i].valid();
            if !valid {
                sizes_valid = false;
            }
            proof {
                assert(raise.raise_sizes@[i as int].valid_spec() == valid);
                if was && valid {
                    assert forall|j: int| 0 <= j < i + 1 implies (
                    #[trigger] raise.raise_sizes@[j]).valid_spec() by {}
                }
            }
        }
        if template.action_abstraction.min_bet == 0 || S::one().at_least(raise.raise_multiplier)
            || !raise.raise_multiplier.is_finite() || !sizes_valid {
            return Err(TreeBuildError::InvalidSizing);
        }
        Ok(TreeBuilder { template })
    }

    /// The tree of a spot.
    pub fn build(&self, spot: Spot<S>) -> (r: Result<PublicTree, TreeBuildError>)
        requires
            self.template.action_abstraction.min_bet > 0,
            spot.board.wf(),
            spot.pot + 2 * spot.effective_stack <= u32::MAX,
        ensures
            match r {
                Ok(tree) => {
                    &&& spot.board@.len() == 3
                    &&& spot.pot > 0
                    &&& spot.effective_stack > 0
                    &&& is_tree_of(self.template, spot, tree)
                },
                Err(error) => if spot.board@.len() != 3 {
                    error == TreeBuildError::BoardMustStartOnFlop
                } else {
                    &&& spot.pot == 0 || spot.effective_stack == 0
                    &&& error == TreeBuildError::InvalidStack
                },
            },
    {
        if spot.board.len() != 3 {
            return Err(TreeBuildError::BoardMustStartOnFlop);
        }
        if spot.pot == 0 || spot.effective_stack == 0 {
            return Err(TreeBuildError::InvalidStack);
        }
        let root = PublicState {
            street: Street::Flop,
            board: spot.board,
            pot: spot.pot,
            oop_stack: spot.effective_stack,
            ip_stack: spot.effective_stack,
            oop_street_commit: 0,
            ip_street_commit: 0,
            last_raise_size: 0,
            raises_this_street: 0,
            checks_this_street: 0,
            can_donk: false,
            player: spot.first_player,
        };
        let summary = SpotSummary {
            board: spot.board,
            pot: spot.pot,
            effective_stack: spot.effective_stack,
            first_player: spot.first_player,
            oop_range_combos: spot.oop_range.combos().len(),
            ip_range_combos: spot.ip_range.combos().len(),
        };
        let mut nodes: Vec<PublicNode> = Vec::new();
        self.build_state(&mut nodes, root, &spot.oop_range, &spot.ip_range);
        Ok(PublicTree { spot: summary, nodes })
    }

    fn build_state(
        &self,
        nodes: &mut Vec<PublicNode>,
        state: PublicState,
        oop_range: &RangeSpec<S>,
        ip_range: &RangeSpec<S>,
    ) -> (r: usize)
        requires
            self.template.action_abstraction.min_bet > 0,
            is_playable(state),
        ensures
            r == old(nodes)@.len(),
            was_added(
                self.template,
                oop_range.combos_spec(),
                ip_range.combos_spec(),
                old(nodes)@,
                final(nodes)@,
            ),
            is_played(self.template, final(nodes)@[r as int], state),
        decreases
            3 - state.street.place(),
            state.oop_stack + state.ip_stack,
            2 - state.checks_this_street,
            0int,
    {
        let ghost before = nodes@;
        let ghost oop = oop_range.combos_spec();
        let ghost ip = ip_range.combos_spec();
        let id: usize = nodes.len();
        let actions: Vec<ActionKind> = self.template.action_abstraction.legal_actions(&state);
        let listed: Vec<ActionKind> = self.template.action_abstraction.legal_actions(&state);
        if actions.len() == 0 {
            nodes.push(
                PublicNode {
                    id,
                    state,
                    kind: PublicNodeKind::Terminal { reason: TerminalReason::Showdown },
                    children: Vec::new(),
                },
            );
            return id;
        }
        nodes.push(
            PublicNode {
                id,
                state,
                kind: PublicNodeKind::Decision { player: state.player, actions: listed },
                children: Vec::new(),
            },
        );
        let ghost kind = nodes@[id as int].kind;
        proof {
            self.template.action_abstraction.legal_actions_suit(state);
        }
        for i in 0..actions.len()
            invariant
                self.template.action_abstraction.min_bet > 0,
                is_playable(state),
                oop == oop_range.combos_spec(),
                ip == ip_range.combos_spec(),
                actions@ == self.template.action_abstraction.legal(state),
                all_suit(state, actions@),
                under_way(self.template, oop, ip, before, nodes@, id as int, i as int),
                nodes@[id as int].id == id,
                nodes@[id as int].state == state,
                nodes@[id as int].kind == kind,
                forall|k: int|
                    0 <= k < i ==> #[trigger] decision_leads(self.template, nodes@, id as int, k),
        {
            let ghost now = nodes@;
            proof {
                assert(suits(state, actions@[i as int]));
                transitions_keep_chips(state, actions@[i as int]);
            }
            let child: usize = match apply_action(&state, actions[i]) {
                Transition::State(next) => self.build_state(nodes, next, oop_range, ip_range),
                Transition::Terminal(end, reason) => {
                    let child: usize = nodes.len();
                    nodes.push(
                        PublicNode {
                            id: child,
                            state: end,
                            kind: PublicNodeKind::Terminal { reason },
                            children: Vec::new(),
                        },
                    );
                    child
                },
                Transition::Chance(next) => self.push_chance(nodes, next, oop_range, ip_range),
            };
            let ghost grown = nodes@;
            proof {
                assert(grown[id as int] == now[id as int]);
            }
            nodes[id].children.push(child);
            proof {
                lemma_child_added(
                    self.template,
                    oop,
                    ip,
                    before,
                    now,
                    grown,
                    nodes@,
                    id as int,
                    i as int,
                );
                assert(nodes@[id as int].children@[i as int] == child);
                assert forall|k: int| 0 <= k < i + 1 implies #[trigger] decision_leads(
                    self.template,
                    nodes@,
                    id as int,
                    k,
                ) by {
                    if k < i {
                        assert(decision_leads(self.template, now, id as int, k));
                        assert(nodes@[nodes@[id as int].children@[k] as int]
                            == now[now[id as int].children@[k] as int]);
                    }
                }
            }
        }
        proof {
            assert(is_built(self.template, oop, ip, nodes@, id as int));
            lemma_finished(self.template, oop, ip, before, nodes@, id as int, actions@.len() as int);
        }
        id
    }

    fn deal(&self, state: &PublicState, oop_range: &RangeSpec<S>, ip_range: &RangeSpec<S>) -> (r: Deal)
        requires
            state.board.wf(),
            state.board@.len() < 5,
        ensures
            deals(
                self.template,
                oop_range.combos_spec(),
                ip_range.combos_spec(),
                *state,
                ChanceSpec {
                    next_street: state.street,
                    cards: r.cards,
                    child_multiplicities: r.multiplicities,
                    child_permutation_codes: r.codes,
                },
            ),
            forall|k: int|
                0 <= k < r.cards@.len() ==> !state.board@.contains(#[trigger] r.cards@[k]),
    {
        let ghost oop = oop_range.combos_spec();
        let ghost ip = ip_range.combos_spec();
        let mut cards: Vec<Card> = Vec::new();
        let mut multiplicities: Vec<usize> = Vec::new();
        let mut codes: Vec<Vec<u8>> = Vec::new();
        match self.template.chance_expansion {
            ChanceExpansion::Isomorphic => {
                let isomorphism: NextCardIsomorphism = next_card_isomorphism(
                    &state.board,
                    oop_range,
                    ip_range,
                );
                let ghost classes = next_card_classes(state.board@, oop, ip);
                proof {
                    class_facts(state.board@, oop, ip, deck_without(state.board@).len());
                    assert(class_views(isomorphism.classes@).len() == isomorphism.classes@.len());
                }
                for k in 0..isomorphism.classes.len()
                    invariant
                        classes == class_views(isomorphism.classes@),
                        classes.len() == isomorphism.classes@.len(),
                        cards@.len() == k,
                        multiplicities@.len() == k,
                        codes@.len() == k,
                        forall|j: int|
                            #![trigger cards@[j]]
                            0 <= j < k ==> {
                                &&& cards@[j] == classes[j].representative
                                &&& multiplicities@[j] == classes[j].members.len()
                                &&& codes_of(codes@[j]@, classes[j].members)
                            },
                {
                    let class: &CardClass = &isomorphism.classes[k];
                    proof {
                        assert(class_views(isomorphism.classes@)[k as int]
                            == isomorphism.classes@[k as int]@);
                    }
                    let mut list: Vec<u8> = Vec::new();
                    for m in 0..class.members.len()
                        invariant
                            list@.len() == m,
                            forall|j: int|
                                0 <= j < m ==> #[trigger] list@[j]
                                    == class.members@[j].permutation_to_representative.code_spec(),
                    {
                        list.push(class.members[m].permutation_to_representative.code());
                    }
                    let ghost (was_cards, was_multiplicities, was_codes) = (
                        cards@,
                        multiplicities@,
                        codes@,
                    );
                    cards.push(class.representative);
                    multiplicities.push(class.multiplicity());
                    codes.push(list);
                    proof {
                        assert forall|j: int|
                            #![trigger cards@[j]]
                            0 <= j < k + 1 implies {
                            &&& cards@[j] == classes[j].representative
                            &&& multiplicities@[j] == classes[j].members.len()
                            &&& codes_of(codes@[j]@, classes[j].members)
                        } by {
                            if j < k {
                                assert(was_cards[j] == cards@[j]);
                                assert(was_codes[j] == codes@[j]);
                            }
                        }
                    }
                }
                proof {
                    assert forall|k: int| 0 <= k < cards@.len() implies !state.board@.contains(
                        #[trigger] cards@[k],
                    ) by {
                        assert(!state.board@.contains(classes[k].representative));
                    }
                }
            },
            _ => {
                let deck: Vec<Card> = state.board.remaining_deck();
                proof {
                    deck_without_facts(state.board@);
                    state.board.wf_facts();
                }
                let count: usize = if self.template.chance_expansion == ChanceExpansion::Enumerate {
                    deck.len()
                } else {
                    1
                };
                let identity: u8 = SuitPermutation::identity().code();
                for k in 0..count
                    invariant
                        count <= deck@.len(),
                        identity == SuitPermutation::identity_spec().code_spec(),
                        cards@ =~= deck@.take(k as int),
                        multiplicities@.len() == k,
                        codes@.len() == k,
                        forall|j: int|
                            #![trigger multiplicities@[j]]
                            0 <= j < k ==> multiplicities@[j] == 1,
                        forall|j: int| 0 <= j < k ==> (#[trigger] codes@[j])@ == seq![identity],
                {
                    cards.push(deck[k]);
                    multiplicities.push(1);
                    let mut list: Vec<u8> = Vec::new();
                    list.push(identity);
                    let ghost was = codes@;
                    codes.push(list);
                    proof {
                        assert(list@ =~= seq![identity]);
                        assert forall|j: int| 0 <= j < k + 1 implies (#[trigger] codes@[j])@
                            == seq![identity] by {
                            if j < k {
                                assert(was[j] == codes@[j]);
                            }
                        }
                    }
                }
                proof {
                    assert(deck@.take(deck@.len() as int) =~= deck@);
                    assert forall|k: int| 0 <= k < cards@.len() implies !state.board@.contains(
                        #[trigger] cards@[k],
                    ) by {
                        assert(cards@[k] == deck@[k]);
                    }
                }
            },
        }
        Deal { cards, multiplicities, codes }
    }

    fn push_chance(
        &self,
        nodes: &mut Vec<PublicNode>,
        state: PublicState,
        oop_range: &RangeSpec<S>,
        ip_range: &RangeSpec<S>,
    ) -> (r: usize)
        requires
            self.template.action_abstraction.min_bet > 0,
            state.is_sound(),
            state.board@.len() == 2 + state.street.place(),
        ensures
            r == old(nodes)@.len(),
            was_added(
                self.template,
                oop_range.combos_spec(),
                ip_range.combos_spec(),
                old(nodes)@,
                final(nodes)@,
            ),
            final(nodes)@[r as int].state == state,
            final(nodes)@[r as int].kind is Chance,
        decreases
            3 - state.street.place(),
            state.oop_stack + state.ip_stack,
            2 - state.checks_this_street,
            1int,
    {
        let ghost before = nodes@;
        let ghost oop = oop_range.combos_spec();
        let ghost ip = ip_range.combos_spec();
        let id: usize = nodes.len();
        let deal: Deal = self.deal(&state, oop_range, ip_range);
        let cards: Vec<Card> = copy_cards(&deal.cards);
        let chance = ChanceSpec {
            next_street: state.street,
            cards: deal.cards,
            child_multiplicities: deal.multiplicities,
            child_permutation_codes: deal.codes,
        };
        let ghost dealt = chance;
        nodes.push(
            PublicNode { id, state, kind: PublicNodeKind::Chance(chance), children: Vec::new() },
        );
        for i in 0..cards.len()
            invariant
                self.template.action_abstraction.min_bet > 0,
                state.is_sound(),
                state.board@.len() == 2 + state.street.place(),
                oop == oop_range.combos_spec(),
                ip == ip_range.combos_spec(),
                cards@ == dealt.cards@,
                deals(self.template, oop, ip, state, dealt),
                forall|k: int|
                    0 <= k < cards@.len() ==> !state.board@.contains(#[trigger] cards@[k]),
                under_way(self.template, oop, ip, before, nodes@, id as int, i as int),
                nodes@[id as int].id == id,
                nodes@[id as int].state == state,
                nodes@[id as int].kind == PublicNodeKind::Chance(dealt),
                forall|k: int|
                    0 <= k < i ==> #[trigger] chance_leads(
                        self.template,
                        nodes@,
                        id as int,
                        k,
                        cards@[k],
                    ),
        {
            let ghost now = nodes@;
            let card: Card = cards[i];
            let mut next: PublicState = state;
            next.board = state.board.with_card(card);
            proof {
                assert(is_dealt(next, state, card));
            }
            let child: usize = self.build_state(nodes, next, oop_range, ip_range);
            let ghost grown = nodes@;
            proof {
                assert(grown[id as int] == now[id as int]);
            }
            nodes[id].children.push(child);
            proof {
                lemma_child_added(
                    self.template,
                    oop,
                    ip,
                    before,
                    now,
                    grown,
                    nodes@,
                    id as int,
                    i as int,
                );
                assert(nodes@[id as int].children@[i as int] == child);
                assert forall|k: int| 0 <= k < i + 1 implies #[trigger] chance_leads(
                    self.template,
                    nodes@,
                    id as int,
                    k,
                    cards@[k],
                ) by {
                    if k < i {
                        assert(chance_leads(self.template, now, id as int, k, cards@[k]));
                        assert(nodes@[nodes@[id as int].children@[k] as int]
                            == now[now[id as int].children@[k] as int]);
                    }
                }
            }
        }
        proof {
            assert(is_built(self.template, oop, ip, nodes@, id as int));
            lemma_finished(self.template, oop, ip, before, nodes@, id as int, cards@.len() as int);
        }
        id
    }
}

} // verus!
