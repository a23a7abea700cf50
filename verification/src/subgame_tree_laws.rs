//! Where the actions of a betting tree lead.
use vstd::prelude::*;
use crate::scalar::Scalar;
use crate::subgame::{AbstractionView, Player, PotState};
use crate::subgame_actions::{aggressive_spec, call_spec, legal_spec, ActionKind};
use crate::subgame_tree::{
    branch_built, decision_built, edges_built, raised, tree_spec, NodeView, TerminalKind,
};

verus! {

/// Whether a node is what an action leads to: folding ends with the other player as the winner, calling with a showdown for
/// the called pot; a check after a check ends with a showdown, and the first lets the other player act; a bet or raise lets
/// the other player answer it.
pub open spec fn is_follower<S: Scalar>(
    player: Player,
    pot: PotState<S>,
    raises: u8,
    history: Seq<ActionKind<S>>,
    action: ActionKind<S>,
    child: NodeView<S>,
) -> bool {
    let checked = history.len() > 0 && history.last() is Check;
    match child {
        NodeView::Terminal { terminal, pot: end, history: next } => match action {
            ActionKind::Fold => {
                &&& terminal == (TerminalKind::Fold { winner: player.other_spec() })
                &&& end == pot
                &&& next == history.push(action)
            },
            ActionKind::Call => {
                &&& terminal == TerminalKind::Showdown
                &&& end == call_spec(player, pot)
                &&& next == history.push(action)
            },
            ActionKind::Check => {
                &&& checked
                &&& terminal == TerminalKind::Showdown
                &&& end == pot
                &&& next == history.push(action)
            },
            _ => false,
        },
        NodeView::Decision { player: actor, pot: at, raises: count, history: next, .. } => {
            &&& actor == player.other_spec()
            &&& next == history.push(action)
            &&& match action {
                ActionKind::Check => !checked && at == pot && count == raises,
                ActionKind::Bet(amount) => at == aggressive_spec(player, pot, amount) && count == raises,
                ActionKind::Raise(amount) => at == aggressive_spec(player, pot, amount) && (count
                    == raises + 1 || raises == u8::MAX && count == raises),
                ActionKind::AllIn(amount) => at == aggressive_spec(player, pot, amount) && (count
                    == raises + 1 || raises == u8::MAX && count == raises),
                _ => false,
            }
        },
    }
}

/// Whether a decision offers what the player can do, in that order, and each action leads where it says.
pub open spec fn leads_as_said<S: Scalar>(
    sizes: AbstractionView<S>,
    nodes: Seq<NodeView<S>>,
    i: int,
) -> bool {
    match nodes[i] {
        NodeView::Terminal { .. } => true,
        NodeView::Decision { player, pot, raises, history, actions } => {
            let offered = legal_spec(sizes, player, pot, raises);
            &&& actions.len() == offered.len()
            &&& forall|k: int|
                0 <= k < actions.len() ==> {
                    let edge = #[trigger] actions[k];
                    &&& edge.action == offered[k]
                    &&& i < edge.to < nodes.len()
                    &&& history.len() < usize::MAX ==> is_follower(
                        player,
                        pot,
                        raises,
                        history,
                        edge.action,
                        nodes[edge.to],
                    )
                }
        },
    }
}

/// Whether nodes were added that lead as they say, and none was changed.
spec fn added_as_said<S: Scalar>(
    sizes: AbstractionView<S>,
    before: Seq<NodeView<S>>,
    after: Seq<NodeView<S>>,
) -> bool {
    &&& after.len() > before.len()
    &&& forall|i: int| 0 <= i < before.len() ==> #[trigger] after[i] == before[i]
    &&& forall|i: int|
        before.len() <= i < after.len() ==> #[trigger] leads_as_said(sizes, after, i)
}

proof fn lemma_decision<S: Scalar>(
    sizes: AbstractionView<S>,
    player: Player,
    pot: PotState<S>,
    raises: u8,
    history: Seq<ActionKind<S>>,
    nodes: Seq<NodeView<S>>,
)
    ensures
        ({
            let after = decision_built(sizes, player, pot, raises, history, nodes);
            &&& added_as_said(sizes, nodes, after)
            &&& match after[nodes.len() as int] {
                NodeView::Decision { player: actor, pot: at, raises: count, history: way, .. } => actor
                    == player && at == pot && count == raises && way == history,
                NodeView::Terminal { .. } => false,
            }
        }),
    decreases usize::MAX - history.len(), 2int, 0int,
{
    let actions = legal_spec(sizes, player, pot, raises);
    let first = nodes.push(
        NodeView::Decision { player, pot, raises, history, actions: Seq::empty() },
    );
    lemma_edges(sizes, player, pot, raises, history, actions, actions.len(), first);
    let built = edges_built(sizes, player, pot, raises, history, actions, actions.len(), first);
    let after = decision_built(sizes, player, pot, raises, history, nodes);
    assert forall|i: int| 0 <= i < nodes.len() implies #[trigger] after[i] == nodes[i] by {
        assert(built.nodes[i] == first[i]);
    }
    assert forall|i: int| nodes.len() <= i < after.len() implies #[trigger] leads_as_said(
        sizes,
        after,
        i,
    ) by {
        if i > nodes.len() {
            assert(leads_as_said(sizes, built.nodes, i));
            assert(after[i] == built.nodes[i]);
        }
    }
}

proof fn lemma_edges<S: Scalar>(
    sizes: AbstractionView<S>,
    player: Player,
    pot: PotState<S>,
    raises: u8,
    history: Seq<ActionKind<S>>,
    actions: Seq<ActionKind<S>>,
    k: nat,
    nodes: Seq<NodeView<S>>,
)
    requires
        k <= actions.len(),
        nodes.len() > 0,
    ensures
        ({
            let built = edges_built(sizes, player, pot, raises, history, actions, k, nodes);
            &&& built.edges.len() == k
            &&& built.nodes.len() >= nodes.len()
            &&& forall|i: int| 0 <= i < nodes.len() ==> #[trigger] built.nodes[i] == nodes[i]
            &&& forall|i: int|
                nodes.len() <= i < built.nodes.len() ==> #[trigger] leads_as_said(sizes, built.nodes, i)
            &&& forall|j: int|
                0 <= j < k ==> {
                    let edge = #[trigger] built.edges[j];
                    &&& edge.action == actions[j]
                    &&& nodes.len() <= edge.to < built.nodes.len()
                    &&& history.len() < usize::MAX ==> is_follower(
                        player,
                        pot,
                        raises,
                        history,
                        edge.action,
                        built.nodes[edge.to],
                    )
                }
        }),
    decreases usize::MAX - history.len(), 1int, k,
{
    if k > 0 {
        let m = (k - 1) as nat;
        lemma_edges(sizes, player, pot, raises, history, actions, m, nodes);
        let front = edges_built(sizes, player, pot, raises, history, actions, m, nodes);
        let action = actions[k - 1];
        lemma_branch(sizes, player, pot, raises, history, action, front.nodes);
        let built = edges_built(sizes, player, pot, raises, history, actions, k, nodes);
        assert(built.nodes == branch_built(
            sizes,
            player,
            pot,
            raises,
            history,
            action,
            front.nodes,
        ));
        assert forall|i: int| nodes.len() <= i < built.nodes.len() implies #[trigger] leads_as_said(
            sizes,
            built.nodes,
            i,
        ) by {
            if i < front.nodes.len() {
                assert(leads_as_said(sizes, front.nodes, i));
                assert(built.nodes[i] == front.nodes[i]);
            }
        }
        assert forall|i: int| 0 <= i < nodes.len() implies #[trigger] built.nodes[i] == nodes[i] by {
            assert(built.nodes[i] == front.nodes[i]);
        }
        assert forall|j: int| 0 <= j < k implies {
            let edge = #[trigger] built.edges[j];
            &&& edge.action == actions[j]
            &&& nodes.len() <= edge.to < built.nodes.len()
            &&& history.len() < usize::MAX ==> is_follower(
                player,
                pot,
                raises,
                history,
                edge.action,
                built.nodes[edge.to],
            )
        } by {
            if j < m {
                assert(built.edges[j] == front.edges[j]);
                assert(built.nodes[front.edges[j].to] == front.nodes[front.edges[j].to]);
            } else {
                assert(built.edges[j].to == front.nodes.len());
            }
        }
    }
}

proof fn lemma_branch<S: Scalar>(
    sizes: AbstractionView<S>,
    player: Player,
    pot: PotState<S>,
    raises: u8,
    history: Seq<ActionKind<S>>,
    action: ActionKind<S>,
    nodes: Seq<NodeView<S>>,
)
    ensures
        ({
            let after = branch_built(sizes, player, pot, raises, history, action, nodes);
            &&& added_as_said(sizes, nodes, after)
            &&& history.len() < usize::MAX ==> is_follower(
                player,
                pot,
                raises,
                history,
                action,
                after[nodes.len() as int],
            )
        }),
    decreases usize::MAX - history.len(), 0int, 0int,
{
    let after = branch_built(sizes, player, pot, raises, history, action, nodes);
    if history.len() < usize::MAX {
        let next = history.push(action);
        let other = player.other_spec();
        match action {
            ActionKind::Fold => {},
            ActionKind::Call => {},
            ActionKind::Check => {
                assert(next.len() >= 2 ==> next[next.len() - 2] == history.last());
                lemma_decision(sizes, other, pot, raises, next, nodes);
            },
            ActionKind::Bet(amount) => {
                lemma_decision(
                    sizes,
                    other,
                    aggressive_spec(player, pot, amount),
                    raises,
                    next,
                    nodes,
                );
            },
            ActionKind::Raise(amount) => {
                lemma_decision(
                    sizes,
                    other,
                    aggressive_spec(player, pot, amount),
                    raised(raises),
                    next,
                    nodes,
                );
            },
            ActionKind::AllIn(amount) => {
                lemma_decision(
                    sizes,
                    other,
                    aggressive_spec(player, pot, amount),
                    raised(raises),
                    next,
                    nodes,
                );
            },
        }
    }
}

/// In a betting tree every decision offers what its player can do, and every action leads to what it says; the first
/// decision is of the first player, with the pot of the start.
pub proof fn actions_lead_where_they_say<S: Scalar>(
    sizes: AbstractionView<S>,
    player: Player,
    pot: PotState<S>,
)
    ensures
        forall|i: int|
            0 <= i < tree_spec(sizes, player, pot).len() ==> #[trigger] leads_as_said(
                sizes,
                tree_spec(sizes, player, pot),
                i,
            ),
        tree_spec(sizes, player, pot).len() > 0,
        match tree_spec(sizes, player, pot)[0] {
            NodeView::Decision { player: first, pot: at, raises, history, .. } => first == player && at
                == pot && raises == 0 && history.len() == 0,
            NodeView::Terminal { .. } => false,
        },
{
    lemma_decision(sizes, player, pot, 0, Seq::empty(), Seq::empty());
}

} // verus!
