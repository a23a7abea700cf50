//! Public nodes paired with the boards on which they are played.
//!
//! Below a chance node only the first child is followed, with every card that stands for a class of cards
//! to come. A node is met once for each board, told apart by the order of its cards or, where a graph
//! shares what does not depend on the order, by the cards alone.
use vstd::prelude::*;
use crate::cards::{card_ids_differ, card_position_round_trip, deck_without, mask_of, Board, Card};
use crate::index_map::KeyMap;
use crate::isomorphism::{
    class_facts, class_views, classes_are_apart, next_card_classes, next_card_isomorphism,
    CardClass, ClassView, NextCardIsomorphism,
};
use crate::range::{ComboWeight, RangeSpec};
use crate::scalar::Scalar;
use crate::tree::{PublicNode, PublicNodeKind, PublicTree};
use crate::tree_build::{child_placed, codes_of, placed, tree_end};
use crate::tree_shape::{is_preorder, is_shaped, is_shaped_at, tree_end_bounds};

verus! {

/// A node on a board, with the states that follow.
#[derive(Clone, Debug)]
pub struct GraphState {
    pub node_id: usize,
    pub board: Board,
    pub children: Vec<usize>,
    pub chance_permutation_codes: Vec<Vec<u8>>,
    pub chance_concrete_events: usize,
}

/// The number that the cards of a board make in their order.
pub open spec fn ordered_key(board: Seq<Card>) -> nat
    decreases board.len(),
{
    if board.len() == 0 {
        0
    } else {
        ordered_key(board.drop_last()) * 52 + board.last().id() as nat
    }
}

/// The bound on the numbers that so many cards make.
pub open spec fn key_bound(cards: nat) -> nat
    decreases cards,
{
    if cards == 0 {
        1
    } else {
        key_bound((cards - 1) as nat) * 52
    }
}

/// The number that cards make is below the bound for as many cards.
pub proof fn ordered_key_bound(board: Seq<Card>)
    ensures
        ordered_key(board) < key_bound(board.len()),
    decreases board.len(),
{
    if board.len() > 0 {
        ordered_key_bound(board.drop_last());
        card_position_round_trip(board.last(), 0);
    }
}

/// Boards of one length with one number are one board.
pub proof fn ordered_keys_differ(a: Seq<Card>, b: Seq<Card>)
    requires
        a.len() == b.len(),
        ordered_key(a) == ordered_key(b),
    ensures
        a == b,
    decreases a.len(),
{
    if a.len() > 0 {
        card_position_round_trip(a.last(), 0);
        card_position_round_trip(b.last(), 0);
        ordered_keys_differ(a.drop_last(), b.drop_last());
        card_ids_differ(a.last(), b.last());
        assert(a =~= a.drop_last().push(a.last()));
        assert(b =~= b.drop_last().push(b.last()));
    } else {
        assert(a =~= b);
    }
}

/// The number that the cards of a board make in their order.
pub fn ordered_board_key(board: &Board) -> (r: u64)
    requires
        board.wf(),
    ensures
        r == ordered_key(board@),
{
    let mut key: u64 = 0;
    let count: usize = board.len();
    proof {
        assert(board@.take(0).len() == 0);
        reveal_with_fuel(key_bound, 6);
    }
    for i in 0..count
        invariant
            board.wf(),
            count == board@.len(),
            count <= 5,
            key == ordered_key(board@.take(i as int)),
    {
        let card: Card = board.card(i);
        proof {
            let front = board@.take(i as int);
            let whole = board@.take(i + 1);
            assert(whole.drop_last() =~= front);
            assert(whole.last() == card);
            ordered_key_bound(front);
            reveal_with_fuel(key_bound, 6);
            card_position_round_trip(card, 0);
        }
        key = key * 52 + card.index() as u64;
    }
    proof {
        assert(board@.take(count as int) =~= board@);
    }
    key
}

/// The set of the cards of a board, one bit each.
pub fn board_key(board: &Board) -> (r: u64)
    requires
        board.wf(),
    ensures
        r == mask_of(board@),
{
    board.deck_mask()
}

/// What tells boards apart in a graph.
pub open spec fn key_of_board(ordered: bool, board: Seq<Card>) -> u64 {
    if ordered {
        ordered_key(board) as u64
    } else {
        mask_of(board)
    }
}

/// Whether a graph takes two boards for one.
pub open spec fn is_same_board(ordered: bool, a: Seq<Card>, b: Seq<Card>) -> bool {
    if ordered {
        a == b
    } else {
        mask_of(a) == mask_of(b)
    }
}

fn graph_key(ordered: bool, board: &Board) -> (r: u64)
    requires
        board.wf(),
    ensures
        r == key_of_board(ordered, board@),
        ordered ==> r == ordered_key(board@),
{
    if ordered {
        ordered_board_key(board)
    } else {
        board_key(board)
    }
}

/// Whether a state of a list is a node on a board.
pub open spec fn leads(
    ordered: bool,
    states: Seq<GraphState>,
    state: int,
    node_id: usize,
    board: Seq<Card>,
) -> bool {
    &&& 0 <= state < states.len()
    &&& states[state].node_id == node_id
    &&& is_same_board(ordered, states[state].board@, board)
}

/// Whether the `k`-th state that follows is the node's `k`-th child on the same board.
pub open spec fn decision_child(
    ordered: bool,
    nodes: Seq<PublicNode>,
    states: Seq<GraphState>,
    i: int,
    k: int,
) -> bool {
    let state = states[i];
    leads(
        ordered,
        states,
        state.children@[k] as int,
        nodes[state.node_id as int].children@[k],
        state.board@,
    )
}

/// Whether the `k`-th state that follows is the node's first child with the `k`-th class's card.
pub open spec fn chance_child(
    ordered: bool,
    nodes: Seq<PublicNode>,
    states: Seq<GraphState>,
    i: int,
    k: int,
    class: ClassView,
) -> bool {
    let state = states[i];
    &&& leads(
        ordered,
        states,
        state.children@[k] as int,
        nodes[state.node_id as int].children@[0],
        state.board@.push(class.representative),
    )
    &&& codes_of(state.chance_permutation_codes@[k]@, class.members)
}

/// Whether a state is followed by what its node calls for on its board.
pub open spec fn is_expanded<S: Scalar>(
    ordered: bool,
    nodes: Seq<PublicNode>,
    oop: Seq<ComboWeight<S>>,
    ip: Seq<ComboWeight<S>>,
    states: Seq<GraphState>,
    i: int,
) -> bool {
    let state = states[i];
    let node = nodes[state.node_id as int];
    &&& is_placed(nodes, state)
    &&& match node.kind {
        PublicNodeKind::Decision { player, actions } => {
            &&& state.children@.len() == node.children@.len()
            &&& state.chance_permutation_codes@.len() == 0
            &&& state.chance_concrete_events == 0
            &&& forall|k: int|
                0 <= k < state.children@.len() ==> #[trigger] decision_child(
                    ordered,
                    nodes,
                    states,
                    i,
                    k,
                )
        },
        PublicNodeKind::Chance(chance) => if node.children@.len() == 0 {
            &&& state.children@.len() == 0
            &&& state.chance_permutation_codes@.len() == 0
            &&& state.chance_concrete_events == 0
        } else {
            let classes = next_card_classes(state.board@, oop, ip);
            &&& state.children@.len() == classes.len()
            &&& state.chance_permutation_codes@.len() == classes.len()
            &&& state.chance_concrete_events == deck_without(state.board@).len()
            &&& forall|k: int|
                0 <= k < state.children@.len() ==> #[trigger] chance_child(
                    ordered,
                    nodes,
                    states,
                    i,
                    k,
                    classes[k],
                )
        },
        PublicNodeKind::Terminal { reason } => {
            &&& state.children@.len() == 0
            &&& state.chance_permutation_codes@.len() == 0
            &&& state.chance_concrete_events == 0
        },
    }
}

/// Whether a state is a node of the tree on a board as long as the node's.
pub open spec fn is_placed(nodes: Seq<PublicNode>, state: GraphState) -> bool {
    &&& state.node_id < nodes.len()
    &&& state.board.wf()
    &&& state.board@.len() == nodes[state.node_id as int].state.board@.len()
}

/// Whether a state follows one of the states before it.
pub open spec fn has_parent(states: Seq<GraphState>, i: int) -> bool {
    exists|j: int, k: int|
        0 <= j < i && 0 <= k < states[j].children@.len() && #[trigger] states[j].children@[k] == i
}

/// Whether states are the graph of a tree: the root first, every state followed by what it should be,
/// every other state behind one that it follows, no node on one board twice, and the states in the order in
/// which a walk meets them. Where the order of
/// cards tells boards apart, states stand behind all that they follow.
pub open spec fn is_graph<S: Scalar>(
    ordered: bool,
    tree: PublicTree,
    oop: Seq<ComboWeight<S>>,
    ip: Seq<ComboWeight<S>>,
    states: Seq<GraphState>,
) -> bool {
    &&& states.len() > 0
    &&& states[0].node_id == 0
    &&& states[0].board@ == tree.spot.board@
    &&& forall|i: int|
        0 <= i < states.len() ==> #[trigger] is_expanded(ordered, tree.nodes@, oop, ip, states, i)
    &&& forall|i: int| 0 < i < states.len() ==> #[trigger] has_parent(states, i)
    &&& are_distinct(ordered, states)
    &&& ordered ==> follow_behind(states)
    &&& state_names(states) == states_met(
        ordered,
        tree.nodes@,
        oop,
        ip,
        Seq::empty(),
        0,
        tree.spot.board,
    )
}

/// The nodes and boards of states.
pub open spec fn state_names(states: Seq<GraphState>) -> Seq<(usize, Board)> {
    states.map(|i: int, state: GraphState| (state.node_id, state.board))
}

/// Whether a node was met on a board.
pub open spec fn was_met(
    ordered: bool,
    list: Seq<(usize, Board)>,
    node_id: int,
    board: Seq<Card>,
) -> bool {
    exists|j: int|
        0 <= j < list.len() && (#[trigger] list[j]).0 == node_id && key_of_board(ordered, list[j].1@)
            == key_of_board(ordered, board)
}

/// The states that were met after a walk from a node on a board, which meets a state before all that
/// follow it, and those one after another. A state that was met before is not walked again.
pub open spec fn states_met<S: Scalar>(
    ordered: bool,
    nodes: Seq<PublicNode>,
    oop: Seq<ComboWeight<S>>,
    ip: Seq<ComboWeight<S>>,
    list: Seq<(usize, Board)>,
    node_id: int,
    board: Board,
) -> Seq<(usize, Board)>
    decreases nodes.len() - node_id, 1int, 0int,
{
    let node = nodes[node_id];
    let more = list.push((node_id as usize, board));
    if was_met(ordered, list, node_id, board@) {
        list
    } else {
        match node.kind {
            PublicNodeKind::Terminal { reason } => more,
            PublicNodeKind::Decision { player, actions } => actions_met(
                ordered,
                nodes,
                oop,
                ip,
                more,
                node_id,
                board,
                node.children@.len(),
            ),
            PublicNodeKind::Chance(chance) => if node.children@.len() == 0 {
                more
            } else {
                cards_met(
                    ordered,
                    nodes,
                    oop,
                    ip,
                    more,
                    node_id,
                    board,
                    next_card_classes(board@, oop, ip).len(),
                )
            },
        }
    }
}

/// The states that were met after walks from the first `n` children of a node.
pub open spec fn actions_met<S: Scalar>(
    ordered: bool,
    nodes: Seq<PublicNode>,
    oop: Seq<ComboWeight<S>>,
    ip: Seq<ComboWeight<S>>,
    list: Seq<(usize, Board)>,
    node_id: int,
    board: Board,
    n: nat,
) -> Seq<(usize, Board)>
    decreases nodes.len() - node_id, 0int, n,
{
    if n == 0 {
        list
    } else {
        let front = actions_met(ordered, nodes, oop, ip, list, node_id, board, (n - 1) as nat);
        let child = nodes[node_id].children@[n - 1] as int;
        if node_id < child < nodes.len() {
            states_met(ordered, nodes, oop, ip, front, child, board)
        } else {
            front
        }
    }
}

/// The states that were met after walks from a node's child with the cards of the first `n` classes.
pub open spec fn cards_met<S: Scalar>(
    ordered: bool,
    nodes: Seq<PublicNode>,
    oop: Seq<ComboWeight<S>>,
    ip: Seq<ComboWeight<S>>,
    list: Seq<(usize, Board)>,
    node_id: int,
    board: Board,
    n: nat,
) -> Seq<(usize, Board)>
    decreases nodes.len() - node_id, 0int, n,
{
    if n == 0 {
        list
    } else {
        let front = cards_met(ordered, nodes, oop, ip, list, node_id, board, (n - 1) as nat);
        let child = nodes[node_id].children@[0] as int;
        let card = next_card_classes(board@, oop, ip)[n - 1].representative;
        if node_id < child < nodes.len() {
            states_met(ordered, nodes, oop, ip, front, child, board.with_card_spec(card))
        } else {
            front
        }
    }
}

/// Whether no two states are one node on one board.
pub open spec fn are_distinct(ordered: bool, states: Seq<GraphState>) -> bool {
    forall|i: int, j: int|
        0 <= i < j < states.len() ==> !(#[trigger] states[i].node_id == #[trigger] states[j].node_id
            && key_of_board(ordered, states[i].board@) == key_of_board(ordered, states[j].board@))
}

/// Whether states stand before all that follow them.
pub open spec fn follow_behind(states: Seq<GraphState>) -> bool {
    forall|i: int, k: int|
        0 <= i < states.len() && 0 <= k < states[i].children@.len()
            ==> i < #[trigger] states[i].children@[k]
}

/// Whether the states are found by node and board.
spec fn is_index(
    ordered: bool,
    nodes: nat,
    states: Seq<GraphState>,
    index: Seq<KeyMap<usize>>,
) -> bool {
    &&& index.len() == nodes
    &&& forall|j: int|
        0 <= j < states.len() ==> {
            let key = key_of_board(ordered, (#[trigger] states[j]).board@);
            &&& states[j].node_id < nodes
            &&& index[states[j].node_id as int]@.contains_key(key)
            &&& index[states[j].node_id as int]@[key] == j
        }
    &&& forall|n: int, key: u64|
        0 <= n < nodes && #[trigger] index[n]@.contains_key(key) ==> {
            let j = index[n]@[key] as int;
            &&& j < states.len()
            &&& states[j].node_id == n
            &&& key_of_board(ordered, states[j].board@) == key
        }
}

/// Whether a board goes on from another.
spec fn extends(board: Seq<Card>, start: Seq<Card>) -> bool {
    start.len() <= board.len() && board.take(start.len() as int) == start
}

/// Whether a state is at or below a node, on a board that goes on from a given one.
spec fn is_below(nodes: Seq<PublicNode>, state: GraphState, node_id: int, board: Seq<Card>) -> bool {
    node_id <= state.node_id < tree_end(nodes, node_id) && extends(state.board@, board)
}

/// Whether no state is at or below a node on a board that goes on from a given one.
spec fn is_fresh(
    nodes: Seq<PublicNode>,
    states: Seq<GraphState>,
    node_id: int,
    board: Seq<Card>,
) -> bool {
    forall|j: int| 0 <= j < states.len() ==> !is_below(nodes, #[trigger] states[j], node_id, board)
}

/// The nodes below a child are among those below its parent.
proof fn lemma_child_end(nodes: Seq<PublicNode>, i: int, k: int)
    requires
        0 <= i < nodes.len(),
        placed(nodes, i),
        0 <= k < nodes[i].children@.len(),
    ensures
        i < nodes[i].children@[k] < tree_end(nodes, nodes[i].children@[k] as int) <= tree_end(
            nodes,
            i,
        ),
    decreases nodes[i].children@.len() - k,
{
    let children = nodes[i].children@;
    assert(child_placed(nodes, i, k));
    tree_end_bounds(nodes, children[k] as int);
    if k + 1 < children.len() {
        lemma_child_end(nodes, i, k + 1);
        assert(child_placed(nodes, i, k + 1));
    }
}

/// The nodes below an earlier child end before a later child.
proof fn lemma_children_apart(nodes: Seq<PublicNode>, i: int, j: int, k: int)
    requires
        0 <= i < nodes.len(),
        placed(nodes, i),
        0 <= j < k < nodes[i].children@.len(),
    ensures
        tree_end(nodes, nodes[i].children@[j] as int) <= nodes[i].children@[k],
    decreases k - j,
{
    assert(child_placed(nodes, i, j));
    assert(child_placed(nodes, i, j + 1));
    if j + 1 < k {
        lemma_children_apart(nodes, i, j + 1, k);
        tree_end_bounds(nodes, nodes[i].children@[j + 1] as int);
    }
}

/// What a walk from a node on a board has added.
spec fn was_walked<S: Scalar>(
    ordered: bool,
    nodes: Seq<PublicNode>,
    oop: Seq<ComboWeight<S>>,
    ip: Seq<ComboWeight<S>>,
    before: Seq<GraphState>,
    after: Seq<GraphState>,
    node_id: int,
    board: Seq<Card>,
) -> bool {
    &&& before.len() <= after.len()
    &&& forall|j: int| 0 <= j < before.len() ==> #[trigger] after[j] == before[j]
    &&& forall|j: int|
        before.len() <= j < after.len() ==> #[trigger] is_expanded(ordered, nodes, oop, ip, after, j)
    &&& forall|j: int| before.len() < j < after.len() ==> #[trigger] has_parent(after, j)
    &&& ordered ==> {
        &&& before.len() < after.len()
        &&& forall|j: int|
            before.len() <= j < after.len() ==> is_below(nodes, #[trigger] after[j], node_id, board)
        &&& forall|j: int, k: int|
            before.len() <= j < after.len() && 0 <= k < after[j].children@.len()
                ==> j < #[trigger] after[j].children@[k]
    }
}

/// A state that is expanded stays so when states are added and others only change in what follows them.
proof fn lemma_expanded_frame<S: Scalar>(
    ordered: bool,
    nodes: Seq<PublicNode>,
    oop: Seq<ComboWeight<S>>,
    ip: Seq<ComboWeight<S>>,
    a: Seq<GraphState>,
    b: Seq<GraphState>,
    i: int,
)
    requires
        0 <= i < a.len() <= b.len(),
        is_expanded(ordered, nodes, oop, ip, a, i),
        a[i] == b[i],
        forall|j: int|
            0 <= j < a.len() ==> (#[trigger] b[j]).node_id == a[j].node_id && b[j].board == a[j].board,
    ensures
        is_expanded(ordered, nodes, oop, ip, b, i),
{
    let state = a[i];
    let node = nodes[state.node_id as int];
    match node.kind {
        PublicNodeKind::Decision { player, actions } => {
            assert forall|k: int| 0 <= k < state.children@.len() implies #[trigger] decision_child(
                ordered,
                nodes,
                b,
                i,
                k,
            ) by {
                assert(decision_child(ordered, nodes, a, i, k));
                let c = state.children@[k] as int;
                assert(b[c].node_id == a[c].node_id);
            }
        },
        PublicNodeKind::Chance(chance) => {
            if node.children@.len() > 0 {
                let classes = next_card_classes(state.board@, oop, ip);
                assert forall|k: int| 0 <= k < state.children@.len() implies #[trigger] chance_child(
                    ordered,
                    nodes,
                    b,
                    i,
                    k,
                    classes[k],
                ) by {
                    assert(chance_child(ordered, nodes, a, i, k, classes[k]));
                    let c = state.children@[k] as int;
                    assert(b[c].node_id == a[c].node_id);
                }
            }
        },
        PublicNodeKind::Terminal { reason } => {},
    }
}

/// What holds while the states that follow the state at a place are walked.
spec fn is_walking<S: Scalar>(
    ordered: bool,
    nodes: Seq<PublicNode>,
    oop: Seq<ComboWeight<S>>,
    ip: Seq<ComboWeight<S>>,
    before: Seq<GraphState>,
    now: Seq<GraphState>,
    blank: GraphState,
    id: int,
    node_id: int,
    board: Seq<Card>,
    index: Seq<KeyMap<usize>>,
    children: Seq<usize>,
) -> bool {
    &&& id == before.len()
    &&& id < now.len()
    &&& forall|j: int| 0 <= j < id ==> #[trigger] now[j] == before[j]
    &&& now[id] == blank
    &&& forall|j: int| id < j < now.len() ==> #[trigger] is_expanded(ordered, nodes, oop, ip, now, j)
    &&& forall|j: int| id < j < now.len() ==> has_parent(now, j) || children.contains(j as usize)
    &&& forall|j: int| id < j < now.len() ==> #[trigger] now[j].node_id < nodes.len()
    &&& is_index(ordered, nodes.len(), now, index)
    &&& now.len() <= usize::MAX
    &&& ordered ==> {
        &&& forall|j: int| id < j < now.len() ==> is_below(nodes, #[trigger] now[j], node_id, board)
        &&& forall|j: int, k: int|
            id < j < now.len() && 0 <= k < now[j].children@.len()
                ==> j < #[trigger] now[j].children@[k]
        &&& forall|k: int| 0 <= k < children.len() ==> id < #[trigger] children[k]
    }
}

/// One more state that follows was walked.
proof fn lemma_walked_on<S: Scalar>(
    ordered: bool,
    nodes: Seq<PublicNode>,
    oop: Seq<ComboWeight<S>>,
    ip: Seq<ComboWeight<S>>,
    before: Seq<GraphState>,
    now: Seq<GraphState>,
    grown: Seq<GraphState>,
    blank: GraphState,
    id: int,
    node_id: int,
    board: Seq<Card>,
    index: Seq<KeyMap<usize>>,
    next_index: Seq<KeyMap<usize>>,
    children: Seq<usize>,
    child: usize,
    child_node: int,
    child_board: Seq<Card>,
)
    requires
        is_walking(
            ordered,
            nodes,
            oop,
            ip,
            before,
            now,
            blank,
            id,
            node_id,
            board,
            index,
            children,
        ),
        was_walked(ordered, nodes, oop, ip, now, grown, child_node, child_board),
        is_index(ordered, nodes.len(), grown, next_index),
        grown.len() <= usize::MAX,
        ordered ==> child == now.len(),
        child == now.len() || grown.len() == now.len(),
        ordered ==> node_id < child_node && tree_end(nodes, child_node) <= tree_end(nodes, node_id),
        extends(child_board, board),
    ensures
        is_walking(
            ordered,
            nodes,
            oop,
            ip,
            before,
            grown,
            blank,
            id,
            node_id,
            board,
            next_index,
            children.push(child),
        ),
{
    let more = children.push(child);
    assert(grown[id] == now[id]);
    assert forall|j: int| id < j < grown.len() implies #[trigger] is_expanded(
        ordered,
        nodes,
        oop,
        ip,
        grown,
        j,
    ) by {
        if j < now.len() {
            assert(is_expanded(ordered, nodes, oop, ip, now, j));
            assert(grown[j] == now[j]);
            lemma_expanded_frame(ordered, nodes, oop, ip, now, grown, j);
        }
    }
    assert forall|j: int| id < j < grown.len() implies has_parent(grown, j) || more.contains(
        j as usize,
    ) by {
        if j < now.len() {
            assert(grown[j] == now[j]);
            if has_parent(now, j) {
                let (p, k) = choose|p: int, k: int|
                    0 <= p < j && 0 <= k < now[p].children@.len() && #[trigger] now[p].children@[k]
                        == j;
                assert(grown[p] == now[p]);
                assert(grown[p].children@[k] == j);
            } else {
                let k = choose|k: int| 0 <= k < children.len() && children[k] == j as usize;
                assert(more[k] == j as usize);
            }
        } else if j == now.len() {
            assert(more[children.len() as int] == j as usize);
        } else {
            assert(has_parent(grown, j));
        }
    }
    assert forall|j: int| id < j < grown.len() implies #[trigger] grown[j].node_id < nodes.len() by {
        assert(is_expanded(ordered, nodes, oop, ip, grown, j));
    }
    if ordered {
        assert forall|j: int| id < j < grown.len() implies is_below(
            nodes,
            #[trigger] grown[j],
            node_id,
            board,
        ) by {
            if j < now.len() {
                assert(grown[j] == now[j]);
                assert(is_below(nodes, now[j], node_id, board));
            } else {
                assert(is_below(nodes, grown[j], child_node, child_board));
                let b = grown[j].board@;
                assert(b.take(board.len() as int) =~= b.take(child_board.len() as int).take(
                    board.len() as int,
                ));
            }
        }
        assert forall|j: int, k: int|
            id < j < grown.len() && 0 <= k < grown[j].children@.len() implies j
            < #[trigger] grown[j].children@[k] by {
            if j < now.len() {
                assert(grown[j] == now[j]);
                assert(j < now[j].children@[k]);
            }
        }
    }
}

fn no_keys(count: usize) -> (r: Vec<KeyMap<usize>>)
    ensures
        r@.len() == count,
        forall|n: int| 0 <= n < count ==> (#[trigger] r@[n])@ == Map::<u64, usize>::empty(),
{
    let mut list: Vec<KeyMap<usize>> = Vec::new();
    for i in 0..count
        invariant
            list@.len() == i,
            forall|n: int| 0 <= n < i ==> (#[trigger] list@[n])@ == Map::<u64, usize>::empty(),
    {
        let ghost was = list@;
        list.push(KeyMap::new());
        proof {
            assert forall|n: int| 0 <= n < i + 1 implies (#[trigger] list@[n])@ == Map::<
                u64,
                usize,
            >::empty() by {
                if n < i {
                    assert(list@[n] == was[n]);
                }
            }
        }
    }
    list
}

/// The graph of a tree.
pub fn collect_states<S: Scalar>(
    tree: &PublicTree,
    oop_range: &RangeSpec<S>,
    ip_range: &RangeSpec<S>,
    ordered: bool,
) -> (r: Vec<GraphState>)
    requires
        is_shaped(*tree),
        ordered ==> is_preorder(tree.nodes@),
    ensures
        is_graph(ordered, *tree, oop_range.combos_spec(), ip_range.combos_spec(), r@),
{
    let mut states: Vec<GraphState> = Vec::new();
    let mut index: Vec<KeyMap<usize>> = no_keys(tree.nodes.len());
    proof {
        assert(is_shaped_at(tree.nodes@, 0));
        assert(state_names(states@) =~= Seq::empty());
        assert(is_index(ordered, tree.nodes@.len(), states@, index@)) by {
            assert forall|n: int, key: u64|
                0 <= n < tree.nodes@.len() && #[trigger] index@[n]@.contains_key(key) implies false by {
                assert(index@[n]@ == Map::<u64, usize>::empty());
            }
        }
    }
    let board: Board = tree.spot.board;
    let root: usize = collect_state_from(
        tree,
        oop_range,
        ip_range,
        ordered,
        0,
        &board,
        &mut states,
        &mut index,
    );
    proof {
        assert(is_expanded(
            ordered,
            tree.nodes@,
            oop_range.combos_spec(),
            ip_range.combos_spec(),
            states@,
            0,
        ));
        lemma_distinct(ordered, tree.nodes@.len(), states@, index@);
    }
    states
}

proof fn lemma_distinct(
    ordered: bool,
    nodes: nat,
    states: Seq<GraphState>,
    index: Seq<KeyMap<usize>>,
)
    requires
        is_index(ordered, nodes, states, index),
    ensures
        are_distinct(ordered, states),
{
    assert forall|i: int, j: int| 0 <= i < j < states.len() implies !(#[trigger] states[i].node_id
        == #[trigger] states[j].node_id && key_of_board(ordered, states[i].board@) == key_of_board(
        ordered,
        states[j].board@,
    )) by {
        assert(index[states[i].node_id as int]@[key_of_board(ordered, states[i].board@)] == i);
        assert(index[states[j].node_id as int]@[key_of_board(ordered, states[j].board@)] == j);
    }
}

fn collect_state_from<S: Scalar>(
    tree: &PublicTree,
    oop_range: &RangeSpec<S>,
    ip_range: &RangeSpec<S>,
    ordered: bool,
    node_id: usize,
    board: &Board,
    states: &mut Vec<GraphState>,
    index: &mut Vec<KeyMap<usize>>,
) -> (r: usize)
    requires
        is_shaped(*tree),
        ordered ==> is_preorder(tree.nodes@),
        node_id < tree.nodes@.len(),
        board.wf(),
        board@.len() == tree.nodes@[node_id as int].state.board@.len(),
        is_index(ordered, tree.nodes@.len(), old(states)@, old(index)@),
        ordered ==> forall|j: int|
            0 <= j < old(states)@.len() ==> is_placed(tree.nodes@, #[trigger] old(states)@[j]),
        ordered ==> is_fresh(tree.nodes@, old(states)@, node_id as int, board@),
    ensures
        was_walked(
            ordered,
            tree.nodes@,
            oop_range.combos_spec(),
            ip_range.combos_spec(),
            old(states)@,
            final(states)@,
            node_id as int,
            board@,
        ),
        is_index(ordered, tree.nodes@.len(), final(states)@, final(index)@),
        leads(ordered, final(states)@, r as int, node_id, board@),
        ordered ==> r == old(states)@.len(),
        r == old(states)@.len() || final(states)@.len() == old(states)@.len(),
        r == old(states)@.len() ==> final(states)@[r as int].board == *board,
        state_names(final(states)@) == states_met(
            ordered,
            tree.nodes@,
            oop_range.combos_spec(),
            ip_range.combos_spec(),
            state_names(old(states)@),
            node_id as int,
            *board,
        ),
    decreases tree.nodes@.len() - node_id,
{
    let ghost before = states@;
    let ghost nodes = tree.nodes@;
    let ghost oop = oop_range.combos_spec();
    let ghost ip = ip_range.combos_spec();
    let key: u64 = graph_key(ordered, board);
    proof {
        if ordered {
            tree_end_bounds(nodes, node_id as int);
        }
    }
    if let Some(found) = index[node_id].get(key) {
        let found: usize = *found;
        proof {
            let j = found as int;
            assert(states@[j].node_id == node_id);
            assert(key_of_board(ordered, states@[j].board@) == key);
            if ordered {
                assert(is_placed(nodes, states@[j]));
                states@[j].board.wf_facts();
                board.wf_facts();
                lemma_ordered_small(states@[j].board@);
                lemma_ordered_small(board@);
                ordered_keys_differ(states@[j].board@, board@);
                assert(states@[j].board@.take(board@.len() as int) =~= board@);
                assert(is_below(nodes, states@[j], node_id as int, board@));
            }
            assert(state_names(states@)[j] == (states@[j].node_id, states@[j].board));
            assert(was_met(ordered, state_names(states@), node_id as int, board@));
        }
        return found;
    }
    let id: usize = states.len();
    let ghost names = state_names(before).push((node_id, *board));
    proof {
        assert(is_shaped_at(nodes, node_id as int));
        assert(!was_met(ordered, state_names(before), node_id as int, board@)) by {
            if was_met(ordered, state_names(before), node_id as int, board@) {
                let list = state_names(before);
                let j = choose|j: int|
                    0 <= j < list.len() && (#[trigger] list[j]).0 == node_id && key_of_board(
                        ordered,
                        list[j].1@,
                    ) == key;
                assert(list[j] == (before[j].node_id, before[j].board));
                assert(index@[before[j].node_id as int]@.contains_key(key));
            }
        }
    }
    let ghost was_index = index@;
    index[node_id].insert(key, id);
    let blank = GraphState {
        node_id,
        board: *board,
        children: Vec::new(),
        chance_permutation_codes: Vec::new(),
        chance_concrete_events: 0,
    };
    let ghost blank_state = blank;
    states.push(blank);
    let count: usize = states.len();
    let mut children: Vec<usize> = Vec::new();
    let mut codes: Vec<Vec<u8>> = Vec::new();
    let mut events: usize = 0;
    proof {
        assert forall|j: int| 0 <= j < states@.len() implies {
            let k = key_of_board(ordered, (#[trigger] states@[j]).board@);
            &&& states@[j].node_id < nodes.len()
            &&& index@[states@[j].node_id as int]@.contains_key(k)
            &&& index@[states@[j].node_id as int]@[k] == j
        } by {
            if j < id {
                assert(states@[j] == before[j]);
                let k = key_of_board(ordered, before[j].board@);
                assert(was_index[before[j].node_id as int]@.contains_key(k));
                if before[j].node_id == node_id && k == key {
                    assert(was_index[node_id as int]@.contains_key(key));
                }
            }
        }
        assert forall|n: int, k: u64|
            0 <= n < nodes.len() && #[trigger] index@[n]@.contains_key(k) implies {
            let j = index@[n]@[k] as int;
            &&& j < states@.len()
            &&& states@[j].node_id == n
            &&& key_of_board(ordered, states@[j].board@) == k
        } by {
            if n == node_id && k == key {
            } else {
                assert(was_index[n]@.contains_key(k));
                let j = was_index[n]@[k] as int;
                assert(states@[j] == before[j]);
            }
        }
        assert(is_index(ordered, nodes.len(), states@, index@));
        assert(states@.len() == count);
        assert(state_names(states@) =~= names);
        assert(is_walking(
            ordered,
            nodes,
            oop,
            ip,
            before,
            states@,
            blank_state,
            id as int,
            node_id as int,
            board@,
            index@,
            children@,
        ));
    }
    match &tree.nodes[node_id].kind {
        PublicNodeKind::Terminal { reason } => {},
        PublicNodeKind::Decision { player, actions } => {
            let count: usize = tree.nodes[node_id].children.len();
            for k in 0..count
                invariant
                    nodes == tree.nodes@,
                    oop == oop_range.combos_spec(),
                    ip == ip_range.combos_spec(),
                    is_shaped(*tree),
                    ordered ==> is_preorder(nodes),
                    node_id < nodes.len(),
                    is_shaped_at(nodes, node_id as int),
                    nodes[node_id as int].kind is Decision,
                    count == nodes[node_id as int].children@.len(),
                    board.wf(),
                    board@.len() == nodes[node_id as int].state.board@.len(),
                    id == before.len(),
                    blank_state.node_id == node_id,
                    blank_state.board == *board,
                    ordered ==> forall|j: int|
                        0 <= j < before.len() ==> is_placed(nodes, #[trigger] before[j]),
                    ordered ==> is_fresh(nodes, before, node_id as int, board@),
                    is_walking(
                        ordered,
                        nodes,
                        oop,
                        ip,
                        before,
                        states@,
                        blank_state,
                        id as int,
                        node_id as int,
                        board@,
                        index@,
                        children@,
                    ),
                    state_names(states@) == actions_met(
                        ordered,
                        nodes,
                        oop,
                        ip,
                        names,
                        node_id as int,
                        *board,
                        k as nat,
                    ),
                    children@.len() == k,
                    codes@.len() == 0,
                    events == 0,
                    forall|m: int|
                        0 <= m < k ==> leads(
                            ordered,
                            states@,
                            #[trigger] children@[m] as int,
                            nodes[node_id as int].children@[m],
                            board@,
                        ),
                    ordered ==> forall|j: int|
                        id < j < states@.len() ==> k > 0 && (#[trigger] states@[j]).node_id
                            < tree_end(nodes, nodes[node_id as int].children@[k - 1] as int),
            {
                let ghost now = states@;
                let ghost now_index = index@;
                let ghost now_children = children@;
                let child_node: usize = tree.nodes[node_id].children[k];
                proof {
                    if ordered {
                        assert(placed(nodes, node_id as int));
                        lemma_child_end(nodes, node_id as int, k as int);
                        assert forall|j: int| 0 <= j < now.len() implies is_placed(
                            nodes,
                            #[trigger] now[j],
                        ) by {
                            if j < id {
                                assert(now[j] == before[j]);
                            } else if j > id {
                                assert(is_expanded(ordered, nodes, oop, ip, now, j));
                            }
                        }
                        assert forall|j: int| 0 <= j < now.len() implies !is_below(
                            nodes,
                            #[trigger] now[j],
                            child_node as int,
                            board@,
                        ) by {
                            if j < id {
                                assert(now[j] == before[j]);
                                assert(!is_below(nodes, before[j], node_id as int, board@));
                            } else if j > id {
                                assert(states@[j].node_id < nodes.len());
                                assert(k > 0);
                                lemma_children_apart(
                                    nodes,
                                    node_id as int,
                                    k - 1,
                                    k as int,
                                );
                            }
                        }
                    }
                    assert(board@.take(board@.len() as int) =~= board@);
                }
                let child: usize = collect_state_from(
                    tree,
                    oop_range,
                    ip_range,
                    ordered,
                    child_node,
                    board,
                    states,
                    index,
                );
                children.push(child);
                let grown: usize = states.len();
                proof {
                    assert(states@.len() == grown);
                    lemma_walked_on(
                        ordered,
                        nodes,
                        oop,
                        ip,
                        before,
                        now,
                        states@,
                        blank_state,
                        id as int,
                        node_id as int,
                        board@,
                        now_index,
                        index@,
                        now_children,
                        child,
                        child_node as int,
                        board@,
                    );
                    assert forall|m: int| 0 <= m < k + 1 implies leads(
                        ordered,
                        states@,
                        #[trigger] children@[m] as int,
                        nodes[node_id as int].children@[m],
                        board@,
                    ) by {
                        if m < k {
                            assert(children@[m] == now_children[m]);
                            let c = now_children[m] as int;
                            assert(leads(
                                ordered,
                                now,
                                c,
                                nodes[node_id as int].children@[m],
                                board@,
                            ));
                            assert(states@[c] == now[c]);
                        }
                    }
                    if ordered {
                        assert forall|j: int| id < j < states@.len() implies (
                        #[trigger] states@[j]).node_id < tree_end(
                            nodes,
                            nodes[node_id as int].children@[k as int] as int,
                        ) by {
                            if j < now.len() {
                                assert(states@[j] == now[j]);
                                lemma_children_apart(
                                    nodes,
                                    node_id as int,
                                    k - 1,
                                    k as int,
                                );
                            } else {
                                assert(is_below(nodes, states@[j], child_node as int, board@));
                            }
                        }
                    }
                }
            }
        },
        PublicNodeKind::Chance(chance) => {
            if tree.nodes[node_id].children.len() > 0 {
                let child_node: usize = tree.nodes[node_id].children[0];
                let isomorphism: NextCardIsomorphism = next_card_isomorphism(
                    board,
                    oop_range,
                    ip_range,
                );
                events = isomorphism.concrete_events;
                let ghost classes = next_card_classes(board@, oop, ip);
                proof {
                    class_facts(board@, oop, ip, deck_without(board@).len());
                    assert(class_views(isomorphism.classes@).len() == isomorphism.classes@.len());
                    classes_are_apart(board@, oop, ip);
                }
                for k in 0..isomorphism.classes.len()
                    invariant
                        nodes == tree.nodes@,
                        oop == oop_range.combos_spec(),
                        ip == ip_range.combos_spec(),
                        is_shaped(*tree),
                        ordered ==> is_preorder(nodes),
                        node_id < nodes.len(),
                        is_shaped_at(nodes, node_id as int),
                        nodes[node_id as int].kind is Chance,
                        nodes[node_id as int].children@.len() > 0,
                        child_node == nodes[node_id as int].children@[0],
                        board.wf(),
                        board@.len() == nodes[node_id as int].state.board@.len(),
                        id == before.len(),
                        blank_state.node_id == node_id,
                        blank_state.board == *board,
                        events == deck_without(board@).len(),
                        classes == next_card_classes(board@, oop, ip),
                        classes == class_views(isomorphism.classes@),
                        classes.len() == isomorphism.classes@.len(),
                        forall|m: int|
                            0 <= m < classes.len() ==> !board@.contains(
                                (#[trigger] classes[m]).representative,
                            ),
                        forall|m: int, l: int|
                            0 <= m < l < classes.len() ==> (#[trigger] classes[m]).representative
                                != (#[trigger] classes[l]).representative,
                        ordered ==> forall|j: int|
                            0 <= j < before.len() ==> is_placed(nodes, #[trigger] before[j]),
                        ordered ==> is_fresh(nodes, before, node_id as int, board@),
                        is_walking(
                            ordered,
                            nodes,
                            oop,
                            ip,
                            before,
                            states@,
                            blank_state,
                            id as int,
                            node_id as int,
                            board@,
                            index@,
                            children@,
                        ),
                        state_names(states@) == cards_met(
                            ordered,
                            nodes,
                            oop,
                            ip,
                            names,
                            node_id as int,
                            *board,
                            k as nat,
                        ),
                        children@.len() == k,
                        codes@.len() == k,
                        forall|m: int|
                            0 <= m < k ==> leads(
                                ordered,
                                states@,
                                #[trigger] children@[m] as int,
                                child_node,
                                board@.push(classes[m].representative),
                            ),
                        forall|m: int|
                            0 <= m < k ==> codes_of((#[trigger] codes@[m])@, classes[m].members),
                        ordered ==> forall|j: int|
                            id < j < states@.len() ==> {
                                let b = (#[trigger] states@[j]).board@;
                                &&& b.len() > board@.len()
                                &&& exists|m: int|
                                    0 <= m < k && b[board@.len() as int] == (
                                    #[trigger] classes[m]).representative
                            },
                {
                    let ghost now = states@;
                    let ghost now_index = index@;
                    let ghost now_children = children@;
                    let ghost now_codes = codes@;
                    let class: &CardClass = &isomorphism.classes[k];
                    proof {
                        assert(class_views(isomorphism.classes@)[k as int]
                            == isomorphism.classes@[k as int]@);
                        assert(!board@.contains(classes[k as int].representative));
                    }
                    let next: Board = board.with_card(class.representative);
                    proof {
                        let card = class.representative;
                        assert(next@.take(board@.len() as int) =~= board@);
                        if ordered {
                            assert(placed(nodes, node_id as int));
                            lemma_child_end(nodes, node_id as int, 0);
                            assert forall|j: int| 0 <= j < now.len() implies is_placed(
                                nodes,
                                #[trigger] now[j],
                            ) by {
                                if j < id {
                                    assert(now[j] == before[j]);
                                } else if j > id {
                                    assert(is_expanded(ordered, nodes, oop, ip, now, j));
                                }
                            }
                            assert forall|j: int| 0 <= j < now.len() implies !is_below(
                                nodes,
                                #[trigger] now[j],
                                child_node as int,
                                next@,
                            ) by {
                                let b = now[j].board@;
                                if extends(b, next@) {
                                    assert(b.take(board@.len() as int) =~= b.take(
                                        next@.len() as int,
                                    ).take(board@.len() as int));
                                    assert(b[board@.len() as int] == b.take(
                                        next@.len() as int,
                                    )[board@.len() as int]);
                                    assert(b[board@.len() as int] == card);
                                }
                                if j < id {
                                    assert(now[j] == before[j]);
                                    assert(!is_below(nodes, before[j], node_id as int, board@));
                                } else if j > id {
                                    let m = choose|m: int|
                                        0 <= m < k && b[board@.len() as int] == (
                                        #[trigger] classes[m]).representative;
                                    assert(classes[m].representative
                                        != classes[k as int].representative);
                                }
                            }
                        }
                    }
                    let child: usize = collect_state_from(
                        tree,
                        oop_range,
                        ip_range,
                        ordered,
                        child_node,
                        &next,
                        states,
                        index,
                    );
                    children.push(child);
                    let mut list: Vec<u8> = Vec::new();
                    for m in 0..class.members.len()
                        invariant
                            list@.len() == m,
                            forall|j: int|
                                0 <= j < m ==> #[trigger] list@[j]
                                    == class.members@[j].permutation_to_representative.code_spec(),
                    {
                        list.push(class.members[m].permutation_to_representative.code());
                    }
                    codes.push(list);
                    let grown: usize = states.len();
                    proof {
                        assert(states@.len() == grown);
                        lemma_walked_on(
                            ordered,
                            nodes,
                            oop,
                            ip,
                            before,
                            now,
                            states@,
                            blank_state,
                            id as int,
                            node_id as int,
                            board@,
                            now_index,
                            index@,
                            now_children,
                            child,
                            child_node as int,
                            next@,
                        );
                        assert forall|m: int| 0 <= m < k + 1 implies leads(
                            ordered,
                            states@,
                            #[trigger] children@[m] as int,
                            child_node,
                            board@.push(classes[m].representative),
                        ) by {
                            if m < k {
                                assert(children@[m] == now_children[m]);
                                let c = now_children[m] as int;
                                assert(leads(
                                    ordered,
                                    now,
                                    c,
                                    child_node,
                                    board@.push(classes[m].representative),
                                ));
                                assert(states@[c] == now[c]);
                            }
                        }
                        assert forall|m: int| 0 <= m < k + 1 implies codes_of(
                            (#[trigger] codes@[m])@,
                            classes[m].members,
                        ) by {
                            if m < k {
                                assert(codes@[m] == now_codes[m]);
                            }
                        }
                        if ordered {
                            assert forall|j: int| id < j < states@.len() implies {
                                let b = (#[trigger] states@[j]).board@;
                                &&& b.len() > board@.len()
                                &&& exists|m: int|
                                    0 <= m < k + 1 && b[board@.len() as int] == (
                                    #[trigger] classes[m]).representative
                            } by {
                                let b = states@[j].board@;
                                if j < now.len() {
                                    assert(states@[j] == now[j]);
                                    let m = choose|m: int|
                                        0 <= m < k && b[board@.len() as int] == (
                                        #[trigger] classes[m]).representative;
                                    assert(b[board@.len() as int] == classes[m].representative);
                                } else {
                                    assert(is_below(nodes, states@[j], child_node as int, next@));
                                    assert(b.take(next@.len() as int)[board@.len() as int]
                                        == b[board@.len() as int]);
                                    assert(b[board@.len() as int]
                                        == classes[k as int].representative);
                                }
                            }
                        }
                    }
                }
            }
        },
    }
    let ghost now = states@;
    let full = GraphState {
        node_id,
        board: *board,
        children,
        chance_permutation_codes: codes,
        chance_concrete_events: events,
    };
    let ghost full_state = full;
    states.set(id, full);
    proof {
        let done = states@;
        assert forall|j: int| 0 <= j < now.len() implies (#[trigger] done[j]).node_id
            == now[j].node_id && done[j].board == now[j].board by {}
        assert(state_names(done) =~= state_names(now));
        assert forall|j: int| id <= j < done.len() implies #[trigger] is_expanded(
            ordered,
            nodes,
            oop,
            ip,
            done,
            j,
        ) by {
            if j > id {
                assert(is_expanded(ordered, nodes, oop, ip, now, j));
                lemma_expanded_frame(ordered, nodes, oop, ip, now, done, j);
            } else {
                let node = nodes[node_id as int];
                match node.kind {
                    PublicNodeKind::Decision { player, actions } => {
                        assert forall|k: int| 0 <= k < full_state.children@.len() implies #[trigger] decision_child(
                            ordered,
                            nodes,
                            done,
                            id as int,
                            k,
                        ) by {
                            let c = full_state.children@[k] as int;
                            assert(leads(ordered, now, c, node.children@[k], board@));
                            assert(done[c].node_id == now[c].node_id);
                        }
                    },
                    PublicNodeKind::Chance(chance) => {
                        let classes = next_card_classes(board@, oop, ip);
                        assert forall|k: int| 0 <= k < full_state.children@.len() implies #[trigger] chance_child(
                            ordered,
                            nodes,
                            done,
                            id as int,
                            k,
                            classes[k],
                        ) by {
                            let c = full_state.children@[k] as int;
                            assert(leads(
                                ordered,
                                now,
                                c,
                                node.children@[0],
                                board@.push(classes[k].representative),
                            ));
                            assert(done[c].node_id == now[c].node_id);
                            assert(codes_of(
                                full_state.chance_permutation_codes@[k]@,
                                classes[k].members,
                            ));
                        }
                    },
                    PublicNodeKind::Terminal { reason } => {},
                }
            }
        }
        assert forall|j: int| id < j < done.len() implies #[trigger] has_parent(done, j) by {
            if has_parent(now, j) {
                let (p, k) = choose|p: int, k: int|
                    0 <= p < j && 0 <= k < now[p].children@.len() && #[trigger] now[p].children@[k]
                        == j;
                assert(p != id);
                assert(done[p] == now[p]);
                assert(done[p].children@[k] == j);
            } else {
                let k = choose|k: int|
                    0 <= k < full_state.children@.len() && full_state.children@[k] == j as usize;
                assert(done[id as int].children@[k] == j);
            }
        }
        assert forall|j: int| 0 <= j < id implies #[trigger] done[j] == before[j] by {
            assert(now[j] == before[j]);
        }
        assert(is_index(ordered, nodes.len(), done, index@)) by {
            assert forall|j: int| 0 <= j < done.len() implies {
                let k = key_of_board(ordered, (#[trigger] done[j]).board@);
                &&& done[j].node_id < nodes.len()
                &&& index@[done[j].node_id as int]@.contains_key(k)
                &&& index@[done[j].node_id as int]@[k] == j
            } by {
                let k = key_of_board(ordered, now[j].board@);
                assert(index@[now[j].node_id as int]@.contains_key(k));
            }
            assert forall|n: int, k: u64|
                0 <= n < nodes.len() && #[trigger] index@[n]@.contains_key(k) implies {
                let j = index@[n]@[k] as int;
                &&& j < done.len()
                &&& done[j].node_id == n
                &&& key_of_board(ordered, done[j].board@) == k
            } by {
                let j = index@[n]@[k] as int;
                assert(now[j].node_id == n);
            }
        }
        if ordered {
            assert(board@.take(board@.len() as int) =~= board@);
            tree_end_bounds(nodes, node_id as int);
            assert forall|j: int| id <= j < done.len() implies is_below(
                nodes,
                #[trigger] done[j],
                node_id as int,
                board@,
            ) by {
                if j > id {
                    assert(done[j] == now[j]);
                }
            }
            assert forall|j: int, k: int|
                id <= j < done.len() && 0 <= k < done[j].children@.len() implies j
                < #[trigger] done[j].children@[k] by {
                if j > id {
                    assert(done[j] == now[j]);
                    assert(j < now[j].children@[k]);
                } else {
                    assert(id < full_state.children@[k]);
                }
            }
        }
    }
    id
}

proof fn lemma_ordered_small(board: Seq<Card>)
    requires
        board.len() <= 5,
    ensures
        ordered_key(board) <= u64::MAX,
{
    ordered_key_bound(board);
    reveal_with_fuel(key_bound, 6);
}

} // verus!
