//! What holds of every public tree of a hand: each action is followed by one node.
use vstd::prelude::*;
use crate::cards::{deck_without, Card};
use crate::deals::deck_without_facts;
use crate::postflop::{actions_spec, is_aggressive, ActionCandidate, PlayerAction};
use crate::postflop_dense::{can_lay_out, widest, width};
use crate::postflop_tree::{
    actions_expanded, advances, cards_expanded, cards_expanded_after, checks_left, dealt, decisions,
    end_of, is_over, node_added, passed, passive_only, pressed, pressed_expanded, raises_left,
    request_of, state_actions, state_expanded, street_after, KindView, NodeView, PublicState,
    SubgameTreeConfig, TerminalKind,
};
use crate::scalar::Scalar;
use crate::tree::Street;

verus! {

/// Whether a node is followed by what its kind calls for: a decision by a node for each of its actions,
/// cards to come by a node for each of them, none of which lies on the board, an end by nothing.
pub open spec fn is_full(node: NodeView) -> bool {
    match node.kind {
        KindView::Decision { state, actions } => node.children.len() == actions.len(),
        KindView::Chance { street, board, cards } => {
            &&& node.children.len() == cards.len()
            &&& forall|i: int| 0 <= i < cards.len() ==> !board@.contains(#[trigger] cards[i])
        },
        KindView::Terminal { .. } => node.children.len() == 0,
    }
}

/// Whether a node is named by its parent, which stands before it; only the first node has none.
pub open spec fn has_parent(nodes: Seq<NodeView>, i: int) -> bool {
    match nodes[i].parent {
        Some(p) => p < i && nodes[p as int].children.contains(i as usize),
        None => i == 0,
    }
}

/// Whether what follows a node by the `k`-th way stands behind it and names it as its parent.
pub open spec fn leads_to(nodes: Seq<NodeView>, i: int, k: int) -> bool {
    let child = nodes[i].children[k] as int;
    i < child < nodes.len() && nodes[child].parent == Some(i as usize)
}

/// Whether parents and children name each other, each child once.
pub open spec fn are_linked(nodes: Seq<NodeView>) -> bool {
    &&& forall|i: int| 0 <= i < nodes.len() ==> #[trigger] has_parent(nodes, i)
    &&& forall|i: int, k: int|
        0 <= i < nodes.len() && 0 <= k < nodes[i].children.len() ==> #[trigger] leads_to(nodes, i, k)
    &&& forall|i: int, k: int, l: int|
        0 <= i < nodes.len() && 0 <= k < l < nodes[i].children.len()
            ==> #[trigger] nodes[i].children[k] < #[trigger] nodes[i].children[l]
}

/// Whether a list holds a number at one place only.
pub open spec fn holds_once(list: Seq<usize>, number: usize) -> bool {
    exists|k: int|
        0 <= k < list.len() && #[trigger] list[k] == number && forall|l: int|
            0 <= l < list.len() && list[l] == number ==> l == k
}

/// Whether nodes hang together as a tree: the first has no parent, every other has a parent before it
/// that names it once, and every node is followed by what its kind calls for.
pub open spec fn hang_together(nodes: Seq<NodeView>) -> bool {
    &&& nodes.len() > 0
    &&& nodes[0].parent is None
    &&& forall|i: int|
        0 < i < nodes.len() ==> (#[trigger] nodes[i]).parent is Some && nodes[i].parent->Some_0 < i
            && holds_once(nodes[nodes[i].parent->Some_0 as int].children, i as usize)
    &&& forall|i: int, k: int|
        0 <= i < nodes.len() && 0 <= k < nodes[i].children.len() ==> #[trigger] leads_to(nodes, i, k)
    &&& forall|i: int| 0 <= i < nodes.len() ==> is_full(#[trigger] nodes[i])
}

/// Whether nodes were added so that so many follow one node and nothing else changed, and whether every
/// added decision is followed by a node for each of its actions.
pub open spec fn adds_below(before: Seq<NodeView>, after: Seq<NodeView>, parent: int, count: int) -> bool {
    &&& forall|i: int|
        0 <= i < before.len() && i != parent ==> #[trigger] after[i] == before[i]
    &&& 0 <= parent < before.len() ==> after[parent].kind == before[parent].kind
        && after[parent].children.len() == before[parent].children.len() + count
    &&& forall|i: int| before.len() <= i < after.len() ==> is_full(#[trigger] after[i])
    &&& are_linked(before) ==> are_linked(after)
}

/// The place of a parent.
pub open spec fn parent_place(parent: Option<usize>) -> int {
    match parent {
        Some(p) => p as int,
        None => -1,
    }
}

/// Whether actions can be taken in a state: checks where nothing is to be called, bets and raises where
/// one may still come.
pub open spec fn can_follow<S>(
    config: SubgameTreeConfig<S>,
    state: PublicState,
    actions: Seq<ActionCandidate>,
) -> bool {
    forall|i: int|
        0 <= i < actions.len() ==> {
            let action = (#[trigger] actions[i]).action;
            &&& action is Check ==> state.to_call == 0
            &&& is_aggressive(action) ==> state.raises_this_street < config.max_raises_per_street
        }
}

/// What is left without bets and raises is not a bet and was there.
pub proof fn lemma_passive_only(actions: Seq<ActionCandidate>, n: nat)
    requires
        n <= actions.len(),
    ensures
        forall|i: int|
            0 <= i < passive_only(actions, n).len() ==> {
                let kept = #[trigger] passive_only(actions, n)[i];
                !is_aggressive(kept.action) && actions.contains(kept)
            },
    decreases n,
{
    if n > 0 {
        lemma_passive_only(actions, (n - 1) as nat);
    }
}

proof fn lemma_state_actions<S: Scalar>(config: SubgameTreeConfig<S>, state: PublicState)
    ensures
        can_follow(config, state, state_actions(config, state)),
{
    let all = actions_spec(config.action_set, request_of(state));
    assert forall|i: int| 0 <= i < all.len() implies ((#[trigger] all[i]).action is Check
        ==> state.to_call == 0) by {}
    lemma_passive_only(all, all.len());
    let kept = passive_only(all, all.len());
    assert forall|i: int| 0 <= i < kept.len() implies ((#[trigger] kept[i]).action is Check
        ==> state.to_call == 0) && !is_aggressive(kept[i].action) by {
        assert(all.contains(kept[i]));
        let j = choose|j: int| 0 <= j < all.len() && all[j] == kept[i];
        assert(all[j].action is Check ==> state.to_call == 0);
    }
}

proof fn lemma_node_added(nodes: Seq<NodeView>, parent: Option<usize>, kind: KindView)
    requires
        parent_place(parent) < nodes.len(),
    ensures
        node_added(nodes, parent, kind).len() == nodes.len() + 1,
        node_added(nodes, parent, kind)[nodes.len() as int] == (NodeView {
            parent,
            children: Seq::empty(),
            kind,
        }),
        forall|i: int|
            0 <= i < nodes.len() && i != parent_place(parent) ==> #[trigger] node_added(
                nodes,
                parent,
                kind,
            )[i] == nodes[i],
        0 <= parent_place(parent) ==> node_added(nodes, parent, kind)[parent_place(parent)].kind
            == nodes[parent_place(parent)].kind && node_added(nodes, parent, kind)[parent_place(
            parent,
        )].children.len() == nodes[parent_place(parent)].children.len() + 1,
        are_linked(nodes) && (parent is None ==> nodes.len() == 0) && nodes.len() < usize::MAX
            ==> are_linked(node_added(nodes, parent, kind)),
{
    let after = node_added(nodes, parent, kind);
    if are_linked(nodes) && (parent is None ==> nodes.len() == 0) && nodes.len() < usize::MAX {
        let last = nodes.len() as int;
        assert forall|i: int| 0 <= i < after.len() implies #[trigger] has_parent(after, i) by {
            if i < last {
                assert(has_parent(nodes, i));
                assert(after[i].parent == nodes[i].parent);
                if let Some(p) = nodes[i].parent {
                    let list = nodes[p as int].children;
                    let k = choose|k: int| 0 <= k < list.len() && list[k] == i as usize;
                    assert(after[p as int].children[k] == i as usize);
                }
            } else if let Some(p) = parent {
                let k = nodes[p as int].children.len() as int;
                assert(after[p as int].children[k] == last as usize);
            }
        }
        assert forall|i: int, k: int|
            0 <= i < after.len() && 0 <= k < after[i].children.len() implies #[trigger] leads_to(
            after,
            i,
            k,
        ) by {
            if i < last && k < nodes[i].children.len() {
                assert(leads_to(nodes, i, k));
                assert(after[i].children[k] == nodes[i].children[k]);
            }
        }
        assert forall|i: int, k: int, l: int|
            0 <= i < after.len() && 0 <= k < l < after[i].children.len()
                implies #[trigger] after[i].children[k] < #[trigger] after[i].children[l] by {
            if i < last {
                assert(leads_to(nodes, i, k));
                assert(after[i].children[k] == nodes[i].children[k]);
                if l < nodes[i].children.len() {
                    assert(after[i].children[l] == nodes[i].children[l]);
                }
            }
        }
    }
}

proof fn lemma_state_expanded<S: Scalar>(
    config: SubgameTreeConfig<S>,
    nodes: Seq<NodeView>,
    parent: Option<usize>,
    state: PublicState,
)
    requires
        parent_place(parent) < nodes.len(),
        parent is None ==> nodes.len() == 0,
    ensures
        ({
            let after = state_expanded(config, nodes, parent, state);
            &&& after.len() > nodes.len()
            &&& after.len() <= usize::MAX ==> adds_below(nodes, after, parent_place(parent), 1)
        }),
    decreases
        2 * (2 - state.street.place()) + 1,
        raises_left(config, state),
        checks_left(state),
        1int,
        0int,
{
    let after = state_expanded(config, nodes, parent, state);
    if is_over(state) {
        lemma_node_added(nodes, parent, end_of(TerminalKind::Showdown, state));
    } else {
        let actions = state_actions(config, state);
        let kind = KindView::Decision { state, actions };
        let first = node_added(nodes, parent, kind);
        lemma_node_added(nodes, parent, kind);
        lemma_state_actions(config, state);
        lemma_actions_expanded(
            config,
            first,
            nodes.len() as usize,
            state,
            actions,
            actions.len(),
        );
        if after.len() <= usize::MAX {
            assert(adds_below(first, after, nodes.len() as int, actions.len() as int));
            assert forall|i: int| nodes.len() <= i < after.len() implies is_full(
                #[trigger] after[i],
            ) by {
                if i == nodes.len() {
                    assert(after[i].kind == kind);
                    assert(first[i].children.len() == 0);
                }
            }
            assert forall|i: int|
                0 <= i < nodes.len() && i != parent_place(parent) implies #[trigger] after[i]
                == nodes[i] by {
                assert(first[i] == nodes[i]);
            }
        }
    }
}

proof fn lemma_actions_expanded<S: Scalar>(
    config: SubgameTreeConfig<S>,
    nodes: Seq<NodeView>,
    parent: usize,
    state: PublicState,
    actions: Seq<ActionCandidate>,
    n: nat,
)
    requires
        n <= actions.len(),
        can_follow(config, state, actions),
        parent < nodes.len(),
    ensures
        ({
            let after = actions_expanded(config, nodes, parent, state, actions, n);
            &&& after.len() >= nodes.len()
            &&& after.len() <= usize::MAX ==> adds_below(
                nodes,
                after,
                parent as int,
                n as int,
            )
        }),
    decreases
        2 * (2 - state.street.place()) + 1,
        raises_left(config, state),
        checks_left(state),
        0int,
        n,
{
    if n > 0 {
        lemma_actions_expanded(config, nodes, parent, state, actions, (n - 1) as nat);
        let front = actions_expanded(config, nodes, parent, state, actions, (n - 1) as nat);
        let after = actions_expanded(config, nodes, parent, state, actions, n);
        let action = actions[n - 1].action;
        if parent < nodes.len() {
            match action {
                PlayerAction::Fold => {
                    lemma_node_added(front, Some(parent), end_of(TerminalKind::Fold, state));
                },
                PlayerAction::Call { amount } => {
                    lemma_cards_expanded_after(config, front, parent, passed(state, action));
                },
                PlayerAction::Check => {
                    if advances(state, action) {
                        lemma_cards_expanded_after(config, front, parent, passed(state, action));
                    } else {
                        lemma_state_expanded(config, front, Some(parent), passed(state, action));
                    }
                },
                PlayerAction::Bet { amount } => {
                    lemma_pressed_expanded(config, front, parent, state, amount);
                    assert(after == pressed_expanded(config, front, parent, state, amount));
                },
                PlayerAction::Raise { amount } => {
                    lemma_pressed_expanded(config, front, parent, state, amount);
                    assert(after == pressed_expanded(config, front, parent, state, amount));
                },
                PlayerAction::AllIn { amount } => {
                    lemma_pressed_expanded(config, front, parent, state, amount);
                    assert(after == pressed_expanded(config, front, parent, state, amount));
                },
            }
            assert(after.len() > front.len());
            if after.len() <= usize::MAX {
                assert(adds_below(front, after, parent as int, 1));
                assert forall|i: int| nodes.len() <= i < after.len() implies is_full(
                    #[trigger] after[i],
                ) by {
                    if i < front.len() {
                        assert(after[i] == front[i]);
                    }
                }
                assert forall|i: int| 0 <= i < nodes.len() && i != parent implies #[trigger] after[i]
                    == nodes[i] by {
                    assert(front[i] == nodes[i]);
                }
            }
        }
    }
}

proof fn lemma_pressed_expanded<S: Scalar>(
    config: SubgameTreeConfig<S>,
    nodes: Seq<NodeView>,
    parent: usize,
    state: PublicState,
    amount: u32,
)
    requires
        parent < nodes.len(),
        state.raises_this_street < config.max_raises_per_street,
    ensures
        ({
            let after = pressed_expanded(config, nodes, parent, state, amount);
            &&& after.len() > nodes.len()
            &&& after.len() <= usize::MAX ==> adds_below(nodes, after, parent as int, 1)
        }),
    decreases
        2 * (2 - state.street.place()) + 1,
        raises_left(config, state),
        checks_left(state),
        0int,
        0int,
{
    lemma_state_expanded(config, nodes, Some(parent), pressed(state, amount));
}

proof fn lemma_cards_expanded_after<S: Scalar>(
    config: SubgameTreeConfig<S>,
    nodes: Seq<NodeView>,
    parent: usize,
    state: PublicState,
)
    requires
        parent < nodes.len(),
    ensures
        ({
            let after = cards_expanded_after(config, nodes, parent, state);
            &&& after.len() > nodes.len()
            &&& after.len() <= usize::MAX ==> adds_below(nodes, after, parent as int, 1)
        }),
    decreases 2 * (2 - state.street.place()), 0int, 0int, 1int, 0int,
{
    if state.street == Street::River {
        lemma_node_added(nodes, Some(parent), end_of(TerminalKind::Showdown, state));
    } else {
        let cards = deck_without(state.board@);
        let kind = KindView::Chance {
            street: street_after(state.street),
            board: state.board,
            cards,
        };
        let first = node_added(nodes, Some(parent), kind);
        lemma_node_added(nodes, Some(parent), kind);
        lemma_cards_expanded(config, first, nodes.len() as usize, state, cards, cards.len());
        deck_without_facts(state.board@);
        let after = cards_expanded_after(config, nodes, parent, state);
        if after.len() <= usize::MAX {
            assert forall|i: int| nodes.len() <= i < after.len() implies is_full(
                #[trigger] after[i],
            ) by {
                if i == nodes.len() {
                    assert(after[i].kind == kind);
                }
            }
            assert forall|i: int| 0 <= i < nodes.len() && i != parent implies #[trigger] after[i]
                == nodes[i] by {
                assert(first[i] == nodes[i]);
            }
        }
    }
}

proof fn lemma_cards_expanded<S: Scalar>(
    config: SubgameTreeConfig<S>,
    nodes: Seq<NodeView>,
    chance: usize,
    state: PublicState,
    cards: Seq<Card>,
    n: nat,
)
    requires
        n <= cards.len(),
        state.street != Street::River,
        chance < nodes.len(),
    ensures
        ({
            let after = cards_expanded(config, nodes, chance, state, cards, n);
            &&& after.len() >= nodes.len()
            &&& after.len() <= usize::MAX ==> adds_below(
                nodes,
                after,
                chance as int,
                n as int,
            )
        }),
    decreases 2 * (2 - state.street.place()), 0int, 0int, 0int, n,
{
    if n > 0 {
        lemma_cards_expanded(config, nodes, chance, state, cards, (n - 1) as nat);
        let front = cards_expanded(config, nodes, chance, state, cards, (n - 1) as nat);
        let after = cards_expanded(config, nodes, chance, state, cards, n);
        let next = dealt(state, state.board.with_card_spec(cards[n - 1]));
        if chance < nodes.len() {
            lemma_state_expanded(config, front, Some(chance), next);
            assert(after == state_expanded(config, front, Some(chance), next));
            if after.len() <= usize::MAX {
                assert forall|i: int| nodes.len() <= i < after.len() implies is_full(
                    #[trigger] after[i],
                ) by {
                    if i < front.len() {
                        assert(after[i] == front[i]);
                    }
                }
                assert forall|i: int| 0 <= i < nodes.len() && i != chance implies #[trigger] after[i]
                    == nodes[i] by {
                    assert(front[i] == nodes[i]);
                }
            }
        }
    }
}

/// The nodes of a hand's tree hang together: the first has no parent, every other has a parent before it
/// that names it once, decisions are followed by a node for each action, cards to come by a node for each
/// card, none of which lies on the board, and ends by nothing.
pub proof fn trees_hang_together<S: Scalar>(config: SubgameTreeConfig<S>, root: PublicState)
    requires
        state_expanded(config, Seq::empty(), None, root).len() <= usize::MAX,
    ensures
        hang_together(state_expanded(config, Seq::empty(), None, root)),
{
    let nodes = state_expanded(config, Seq::empty(), None, root);
    lemma_state_expanded(config, Seq::empty(), None, root);
    assert(are_linked(nodes));
    assert(has_parent(nodes, 0));
    assert forall|i: int| 0 < i < nodes.len() implies (#[trigger] nodes[i]).parent is Some
        && nodes[i].parent->Some_0 < i && holds_once(
        nodes[nodes[i].parent->Some_0 as int].children,
        i as usize,
    ) by {
        assert(has_parent(nodes, i));
        let p = nodes[i].parent->Some_0 as int;
        let list = nodes[p].children;
        let k = choose|k: int| 0 <= k < list.len() && list[k] == i as usize;
        assert(list[k] == i as usize);
        assert forall|l: int| 0 <= l < list.len() && list[l] == i as usize implies l == k by {
            if l < k {
                assert(nodes[p].children[l] < nodes[p].children[k]);
            } else if k < l {
                assert(nodes[p].children[k] < nodes[p].children[l]);
            }
        }
    }
}

/// In the tree of a hand every decision is followed by a node for each of its actions. A tree that starts
/// with a decision can be laid out, as far as its cells can be counted.
pub proof fn trees_can_be_laid_out<S: Scalar>(config: SubgameTreeConfig<S>, root: PublicState)
    requires
        !is_over(root),
        state_actions(config, root).len() > 0,
        ({
            let nodes = state_expanded(config, Seq::empty(), None, root);
            &&& nodes.len() <= usize::MAX
            &&& decisions(nodes, nodes.len()) * widest(nodes, nodes.len()) <= usize::MAX
        }),
    ensures
        can_lay_out(state_expanded(config, Seq::empty(), None, root)),
{
    let nodes = state_expanded(config, Seq::empty(), None, root);
    lemma_state_expanded(config, Seq::empty(), None, root);
    assert forall|i: int|
        0 <= i < nodes.len() && (#[trigger] nodes[i]).kind is Decision implies nodes[i].children.len()
        == width(nodes[i]) by {
        assert(is_full(nodes[i]));
    }
    let actions = state_actions(config, root);
    let kind = KindView::Decision { state: root, actions };
    let first = node_added(Seq::empty(), None, kind);
    lemma_node_added(Seq::empty(), None, kind);
    lemma_state_actions(config, root);
    lemma_actions_expanded(config, first, 0, root, actions, actions.len());
    assert(nodes == actions_expanded(config, first, 0, root, actions, actions.len()));
    assert(nodes[0].kind == first[0].kind);
    assert(width(nodes[0]) > 0);
    lemma_widest(nodes, nodes.len(), 0);
}

proof fn lemma_widest(nodes: Seq<NodeView>, n: nat, i: int)
    requires
        0 <= i < n <= nodes.len(),
    ensures
        widest(nodes, n) >= width(nodes[i]),
    decreases n,
{
    if i < n - 1 {
        lemma_widest(nodes, (n - 1) as nat, i);
    }
}

} // verus!
