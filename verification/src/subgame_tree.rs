//! The betting tree of one street of a subgame.
use vstd::prelude::*;
use crate::scalar::Scalar;
use crate::subgame::{
    fault_of, AbstractionView, ActionAbstraction, Player, PotState, SubgameBuildError, SubgameSpec,
};
use crate::subgame_actions::{
    aggressive_spec, apply_aggressive, apply_call, call_spec, legal_actions, legal_spec, ActionKind,
};

verus! {

/// The number of a node.
#[derive(Clone, Copy, Debug, PartialEq, Eq, Structural)]
pub struct NodeId(pub usize);

/// How betting ends.
#[derive(Clone, Copy, Debug, PartialEq, Eq, Structural)]
pub enum TerminalKind {
    Fold { winner: Player },
    Showdown,
}

/// An action and the node it leads to.
#[derive(Clone, Copy, Debug)]
pub struct ActionEdge<S> {
    pub action: ActionKind<S>,
    pub to: NodeId,
}

/// A node of the betting tree.
#[derive(Clone, Debug)]
pub enum ActionTreeNode<S> {
    Decision {
        player: Player,
        pot: PotState<S>,
        raises: u8,
        history: Vec<ActionKind<S>>,
        actions: Vec<ActionEdge<S>>,
    },
    Terminal { terminal: TerminalKind, pot: PotState<S>, history: Vec<ActionKind<S>> },
}

/// The betting tree of one street.
#[derive(Clone, Debug)]
pub struct ActionTree<S> {
    pub root: NodeId,
    pub nodes: Vec<ActionTreeNode<S>>,
}

/// An action and the place of the node it leads to.
pub ghost struct EdgeView<S> {
    pub action: ActionKind<S>,
    pub to: int,
}

/// A node of the betting tree, by value.
pub ghost enum NodeView<S> {
    Decision {
        player: Player,
        pot: PotState<S>,
        raises: u8,
        history: Seq<ActionKind<S>>,
        actions: Seq<EdgeView<S>>,
    },
    Terminal { terminal: TerminalKind, pot: PotState<S>, history: Seq<ActionKind<S>> },
}

/// Edges by value.
pub open spec fn edges_view<S>(edges: Seq<ActionEdge<S>>) -> Seq<EdgeView<S>> {
    Seq::new(edges.len(), |i: int| EdgeView { action: edges[i].action, to: edges[i].to.0 as int })
}

impl<S> View for ActionTreeNode<S> {
    type V = NodeView<S>;

    open spec fn view(&self) -> NodeView<S> {
        match *self {
            ActionTreeNode::Decision { player, pot, raises, history, actions } => NodeView::Decision {
                player,
                pot,
                raises,
                history: history@,
                actions: edges_view(actions@),
            },
            ActionTreeNode::Terminal { terminal, pot, history } => NodeView::Terminal {
                terminal,
                pot,
                history: history@,
            },
        }
    }
}

/// Nodes by value.
pub open spec fn nodes_view<S>(nodes: Seq<ActionTreeNode<S>>) -> Seq<NodeView<S>> {
    Seq::new(nodes.len(), |i: int| nodes[i]@)
}

/// Whether the last two actions are checks.
pub open spec fn checked_through_spec<S>(history: Seq<ActionKind<S>>) -> bool {
    history.len() >= 2 && history[history.len() - 2] is Check && history.last() is Check
}

/// Whether the last two actions are checks.
pub fn checked_through<S: Scalar>(history: &[ActionKind<S>]) -> (r: bool)
    ensures
        r == checked_through_spec(history@),
{
    let count: usize = history.len();
    if count < 2 {
        return false;
    }
    match (history[count - 2], history[count - 1]) {
        (ActionKind::Check, ActionKind::Check) => true,
        _ => false,
    }
}

/// One raise more.
pub open spec fn raised(raises: u8) -> u8 {
    if raises < u8::MAX {
        (raises + 1) as u8
    } else {
        raises
    }
}

/// Nodes built so far, and the edges of the node that is being built.
pub ghost struct Built<S> {
    pub nodes: Seq<NodeView<S>>,
    pub edges: Seq<EdgeView<S>>,
}

/// The nodes with a decision and all below it added.
pub open spec fn decision_built<S: Scalar>(
    sizes: AbstractionView<S>,
    player: Player,
    pot: PotState<S>,
    raises: u8,
    history: Seq<ActionKind<S>>,
    nodes: Seq<NodeView<S>>,
) -> Seq<NodeView<S>>
    decreases usize::MAX - history.len(), 2int, 0int,
{
    let actions = legal_spec(sizes, player, pot, raises);
    let built = edges_built(
        sizes,
        player,
        pot,
        raises,
        history,
        actions,
        actions.len(),
        nodes.push(NodeView::Decision { player, pot, raises, history, actions: Seq::empty() }),
    );
    built.nodes.update(
        nodes.len() as int,
        NodeView::Decision { player, pot, raises, history, actions: built.edges },
    )
}

/// The nodes below the first `k` actions of a decision added, with the edges to them.
pub open spec fn edges_built<S: Scalar>(
    sizes: AbstractionView<S>,
    player: Player,
    pot: PotState<S>,
    raises: u8,
    history: Seq<ActionKind<S>>,
    actions: Seq<ActionKind<S>>,
    k: nat,
    nodes: Seq<NodeView<S>>,
) -> Built<S>
    decreases usize::MAX - history.len(), 1int, k,
{
    if k == 0 {
        Built { nodes, edges: Seq::empty() }
    } else {
        let front = edges_built(
            sizes,
            player,
            pot,
            raises,
            history,
            actions,
            (k - 1) as nat,
            nodes,
        );
        let action = actions[k - 1];
        Built {
            nodes: branch_built(sizes, player, pot, raises, history, action, front.nodes),
            edges: front.edges.push(EdgeView { action, to: front.nodes.len() as int }),
        }
    }
}

/// The nodes with what an action leads to added. A fold, a call and the second of two checks end
/// the betting, as does a history longer than can be counted.
pub open spec fn branch_built<S: Scalar>(
    sizes: AbstractionView<S>,
    player: Player,
    pot: PotState<S>,
    raises: u8,
    history: Seq<ActionKind<S>>,
    action: ActionKind<S>,
    nodes: Seq<NodeView<S>>,
) -> Seq<NodeView<S>>
    decreases usize::MAX - history.len(), 0int, 0int,
{
    let next = history.push(action);
    let other = player.other_spec();
    if history.len() >= usize::MAX {
        nodes.push(NodeView::Terminal { terminal: TerminalKind::Showdown, pot, history })
    } else {
        match action {
            ActionKind::Fold => nodes.push(
                NodeView::Terminal {
                    terminal: TerminalKind::Fold { winner: other },
                    pot,
                    history: next,
                },
            ),
            ActionKind::Call => nodes.push(
                NodeView::Terminal {
                    terminal: TerminalKind::Showdown,
                    pot: call_spec(player, pot),
                    history: next,
                },
            ),
            ActionKind::Check => if checked_through_spec(next) {
                nodes.push(
                    NodeView::Terminal { terminal: TerminalKind::Showdown, pot, history: next },
                )
            } else {
                decision_built(sizes, other, pot, raises, next, nodes)
            },
            ActionKind::Bet(amount) => decision_built(
                sizes,
                other,
                aggressive_spec(player, pot, amount),
                raises,
                next,
                nodes,
            ),
            ActionKind::Raise(amount) => decision_built(
                sizes,
                other,
                aggressive_spec(player, pot, amount),
                raised(raises),
                next,
                nodes,
            ),
            ActionKind::AllIn(amount) => decision_built(
                sizes,
                other,
                aggressive_spec(player, pot, amount),
                raised(raises),
                next,
                nodes,
            ),
        }
    }
}

/// The betting tree of a subgame.
pub open spec fn tree_spec<S: Scalar>(
    sizes: AbstractionView<S>,
    player: Player,
    pot: PotState<S>,
) -> Seq<NodeView<S>> {
    decision_built(sizes, player, pot, 0, Seq::empty(), Seq::empty())
}

/// Whether every action of a node leads to a later node.
pub open spec fn leads_on<S>(nodes: Seq<NodeView<S>>, i: int) -> bool {
    match nodes[i] {
        NodeView::Decision { actions, .. } => actions.len() > 0 && forall|k: int|
            0 <= k < actions.len() ==> i < (#[trigger] actions[k]).to < nodes.len(),
        NodeView::Terminal { .. } => true,
    }
}

/// Whether every action of every node leads to a later node.
pub open spec fn is_ordered<S>(nodes: Seq<NodeView<S>>) -> bool {
    forall|i: int| 0 <= i < nodes.len() ==> #[trigger] leads_on(nodes, i)
}

/// Whether nodes were added whose actions lead on, and none was changed.
pub open spec fn grown<S>(before: Seq<NodeView<S>>, after: Seq<NodeView<S>>) -> bool {
    &&& after.len() > before.len()
    &&& forall|i: int| 0 <= i < before.len() ==> #[trigger] after[i] == before[i]
    &&& forall|i: int| before.len() <= i < after.len() ==> #[trigger] leads_on(after, i)
}

proof fn lemma_decision_grows<S: Scalar>(
    sizes: AbstractionView<S>,
    player: Player,
    pot: PotState<S>,
    raises: u8,
    history: Seq<ActionKind<S>>,
    nodes: Seq<NodeView<S>>,
)
    ensures
        grown(nodes, decision_built(sizes, player, pot, raises, history, nodes)),
    decreases usize::MAX - history.len(), 2int, 0int,
{
    let actions = legal_spec(sizes, player, pot, raises);
    let first = nodes.push(
        NodeView::Decision { player, pot, raises, history, actions: Seq::empty() },
    );
    lemma_edges_grow(sizes, player, pot, raises, history, actions, actions.len(), first);
    let built = edges_built(sizes, player, pot, raises, history, actions, actions.len(), first);
    let after = decision_built(sizes, player, pot, raises, history, nodes);
    assert forall|i: int| nodes.len() <= i < after.len() implies #[trigger] leads_on(after, i) by {
        if i > nodes.len() {
            assert(leads_on(built.nodes, i));
            assert(after[i] == built.nodes[i]);
        }
    }
}

proof fn lemma_edges_grow<S: Scalar>(
    sizes: AbstractionView<S>,
    player: Player,
    pot: PotState<S>,
    raises: u8,
    history: Seq<ActionKind<S>>,
    actions: Seq<ActionKind<S>>,
    k: nat,
    nodes: Seq<NodeView<S>>,
)
    requires
        k <= actions.len(),
        nodes.len() > 0,
    ensures
        ({
            let built = edges_built(sizes, player, pot, raises, history, actions, k, nodes);
            &&& built.edges.len() == k
            &&& built.nodes.len() >= nodes.len()
            &&& forall|i: int|
                0 <= i < nodes.len() ==> #[trigger] built.nodes[i] == nodes[i]
            &&& forall|i: int|
                nodes.len() <= i < built.nodes.len() ==> #[trigger] leads_on(built.nodes, i)
            &&& forall|j: int|
                0 <= j < k ==> nodes.len() <= (#[trigger] built.edges[j]).to < built.nodes.len()
        }),
    decreases usize::MAX - history.len(), 1int, k,
{
    if k > 0 {
        lemma_edges_grow(sizes, player, pot, raises, history, actions, (k - 1) as nat, nodes);
        let front = edges_built(
            sizes,
            player,
            pot,
            raises,
            history,
            actions,
            (k - 1) as nat,
            nodes,
        );
        let action = actions[k - 1];
        lemma_branch_grows(sizes, player, pot, raises, history, action, front.nodes);
        let built = edges_built(sizes, player, pot, raises, history, actions, k, nodes);
        assert(built.nodes == branch_built(
            sizes,
            player,
            pot,
            raises,
            history,
            action,
            front.nodes,
        ));
        assert forall|i: int| nodes.len() <= i < built.nodes.len() implies #[trigger] leads_on(
            built.nodes,
            i,
        ) by {
            if i < front.nodes.len() {
                assert(leads_on(front.nodes, i));
                assert(built.nodes[i] == front.nodes[i]);
            }
        }
        assert forall|i: int| 0 <= i < nodes.len() implies #[trigger] built.nodes[i]
            == nodes[i] by {
            assert(built.nodes[i] == front.nodes[i]);
        }
    }
}

proof fn lemma_branch_grows<S: Scalar>(
    sizes: AbstractionView<S>,
    player: Player,
    pot: PotState<S>,
    raises: u8,
    history: Seq<ActionKind<S>>,
    action: ActionKind<S>,
    nodes: Seq<NodeView<S>>,
)
    ensures
        grown(nodes, branch_built(sizes, player, pot, raises, history, action, nodes)),
    decreases usize::MAX - history.len(), 0int, 0int,
{
    if history.len() < usize::MAX {
        let next = history.push(action);
        let other = player.other_spec();
        match action {
            ActionKind::Fold => {},
            ActionKind::Call => {},
            ActionKind::Check => {
                if !checked_through_spec(next) {
                    lemma_decision_grows(sizes, other, pot, raises, next, nodes);
                }
            },
            ActionKind::Bet(amount) => {
                lemma_decision_grows(
                    sizes,
                    other,
                    aggressive_spec(player, pot, amount),
                    raises,
                    next,
                    nodes,
                );
            },
            ActionKind::Raise(amount) => {
                lemma_decision_grows(
                    sizes,
                    other,
                    aggressive_spec(player, pot, amount),
                    raised(raises),
                    next,
                    nodes,
                );
            },
            ActionKind::AllIn(amount) => {
                lemma_decision_grows(
                    sizes,
                    other,
                    aggressive_spec(player, pot, amount),
                    raised(raises),
                    next,
                    nodes,
                );
            },
        }
    }
}

/// In a betting tree every action leads to a later node, and the first node is a decision of the
/// first player.
pub proof fn trees_are_ordered<S: Scalar>(
    sizes: AbstractionView<S>,
    player: Player,
    pot: PotState<S>,
)
    ensures
        is_ordered(tree_spec(sizes, player, pot)),
        tree_spec(sizes, player, pot).len() > 0,
        match tree_spec(sizes, player, pot)[0] {
            NodeView::Decision { player: first, pot: at_root, raises, history, .. } => first
                == player && at_root == pot && raises == 0 && history.len() == 0,
            NodeView::Terminal { .. } => false,
        },
{
    lemma_decision_grows(sizes, player, pot, 0, Seq::empty(), Seq::empty());
    let actions = legal_spec(sizes, player, pot, 0);
    let first = Seq::<NodeView<S>>::empty().push(
        NodeView::Decision {
            player,
            pot,
            raises: 0,
            history: Seq::empty(),
            actions: Seq::empty(),
        },
    );
    lemma_edges_grow(sizes, player, pot, 0, Seq::empty(), actions, actions.len(), first);
}

/// A history with one action more.
pub fn longer<S: Scalar>(history: &[ActionKind<S>], action: ActionKind<S>) -> (r: Vec<ActionKind<S>>)
    ensures
        r@ == history@.push(action),
{
    let mut next: Vec<ActionKind<S>> = copied(history);
    next.push(action);
    next
}

/// A copy of a history.
pub fn copied<S: Scalar>(history: &[ActionKind<S>]) -> (r: Vec<ActionKind<S>>)
    ensures
        r@ == history@,
{
    let mut copy: Vec<ActionKind<S>> = Vec::new();
    for i in 0..history.len()
        invariant
            copy@ =~= history@.take(i as int),
    {
        copy.push(history[i]);
    }
    assert(history@.take(history@.len() as int) =~= history@);
    copy
}

fn build_decision<S: Scalar>(
    sizes: &ActionAbstraction<S>,
    player: Player,
    pot: PotState<S>,
    raises: u8,
    history: Vec<ActionKind<S>>,
    nodes: &mut Vec<ActionTreeNode<S>>,
)
    ensures
        nodes_view(final(nodes)@) == decision_built(
            sizes@,
            player,
            pot,
            raises,
            history@,
            nodes_view(old(nodes)@),
        ),
    decreases usize::MAX - history@.len(), 2int,
{
    let id: usize = nodes.len();
    let ghost before = nodes_view(nodes@);
    let actions: Vec<ActionKind<S>> = legal_actions(sizes, player, pot, raises);
    nodes.push(
        ActionTreeNode::Decision {
            player,
            pot,
            raises,
            history: copied(&history),
            actions: Vec::new(),
        },
    );
    let ghost first = before.push(
        NodeView::Decision { player, pot, raises, history: history@, actions: Seq::empty() },
    );
    proof {
        assert(edges_view(Seq::<ActionEdge<S>>::empty()) =~= Seq::empty());
        assert(nodes_view(nodes@) =~= first);
    }
    let mut edges: Vec<ActionEdge<S>> = Vec::new();
    assert(edges_view(edges@) =~= Seq::empty());
    for k in 0..actions.len()
        invariant
            actions@ == legal_spec(sizes@, player, pot, raises),
            id == before.len(),
            first.len() == id + 1,
            ({
                let built = edges_built(
                    sizes@,
                    player,
                    pot,
                    raises,
                    history@,
                    actions@,
                    k as nat,
                    first,
                );
                nodes_view(nodes@) == built.nodes && edges_view(edges@) == built.edges
            }),
    {
        let to: NodeId = NodeId(nodes.len());
        let ghost front = edges_built(
            sizes@,
            player,
            pot,
            raises,
            history@,
            actions@,
            k as nat,
            first,
        );
        let ghost shorter = edges@;
        build_branch(sizes, player, pot, raises, &history, actions[k], nodes);
        edges.push(ActionEdge { action: actions[k], to });
        proof {
            assert(edges_view(edges@) =~= edges_view(shorter).push(
                EdgeView { action: actions@[k as int], to: front.nodes.len() as int },
            ));
            assert(edges_built(
                sizes@,
                player,
                pot,
                raises,
                history@,
                actions@,
                (k + 1) as nat,
                first,
            ) == (Built {
                nodes: branch_built(
                    sizes@,
                    player,
                    pot,
                    raises,
                    history@,
                    actions@[k as int],
                    front.nodes,
                ),
                edges: front.edges.push(
                    EdgeView { action: actions@[k as int], to: front.nodes.len() as int },
                ),
            }));
        }
    }
    proof {
        lemma_edges_grow(sizes@, player, pot, raises, history@, actions@, actions@.len(), first);
    }
    let ghost built = edges_built(
        sizes@,
        player,
        pot,
        raises,
        history@,
        actions@,
        actions@.len(),
        first,
    );
    assert(nodes@.len() == built.nodes.len());
    let ghost filled = nodes@;
    nodes.set(id, ActionTreeNode::Decision { player, pot, raises, history, actions: edges });
    assert(nodes_view(nodes@) =~= nodes_view(filled).update(
        id as int,
        NodeView::Decision { player, pot, raises, history: history@, actions: built.edges },
    ));
}

fn build_branch<S: Scalar>(
    sizes: &ActionAbstraction<S>,
    player: Player,
    pot: PotState<S>,
    raises: u8,
    history: &Vec<ActionKind<S>>,
    action: ActionKind<S>,
    nodes: &mut Vec<ActionTreeNode<S>>,
)
    ensures
        nodes_view(final(nodes)@) == branch_built(
            sizes@,
            player,
            pot,
            raises,
            history@,
            action,
            nodes_view(old(nodes)@),
        ),
    decreases usize::MAX - history@.len(), 1int,
{
    let ghost before = nodes@;
    if history.len() == usize::MAX {
        nodes.push(
            ActionTreeNode::Terminal {
                terminal: TerminalKind::Showdown,
                pot,
                history: copied(history),
            },
        );
        assert(nodes_view(nodes@) =~= nodes_view(before).push(nodes@.last()@));
        return ;
    }
    let next: Vec<ActionKind<S>> = longer(history, action);
    let other: Player = player.other();
    let more: u8 = if raises < u8::MAX {
        raises + 1
    } else {
        raises
    };
    match action {
        ActionKind::Fold => {
            nodes.push(
                ActionTreeNode::Terminal {
                    terminal: TerminalKind::Fold { winner: other },
                    pot,
                    history: next,
                },
            );
            assert(nodes_view(nodes@) =~= nodes_view(before).push(nodes@.last()@));
        },
        ActionKind::Call => {
            nodes.push(
                ActionTreeNode::Terminal {
                    terminal: TerminalKind::Showdown,
                    pot: apply_call(player, pot),
                    history: next,
                },
            );
            assert(nodes_view(nodes@) =~= nodes_view(before).push(nodes@.last()@));
        },
        ActionKind::Check => {
            if checked_through(&next) {
                nodes.push(
                    ActionTreeNode::Terminal {
                        terminal: TerminalKind::Showdown,
                        pot,
                        history: next,
                    },
                );
                assert(nodes_view(nodes@) =~= nodes_view(before).push(nodes@.last()@));
            } else {
                build_decision(sizes, other, pot, raises, next, nodes);
            }
        },
        ActionKind::Bet(amount) => {
            let after: PotState<S> = apply_aggressive(player, pot, amount);
            build_decision(sizes, other, after, raises, next, nodes);
        },
        ActionKind::Raise(amount) => {
            let after: PotState<S> = apply_aggressive(player, pot, amount);
            build_decision(sizes, other, after, more, next, nodes);
        },
        ActionKind::AllIn(amount) => {
            let after: PotState<S> = apply_aggressive(player, pot, amount);
            build_decision(sizes, other, after, more, next, nodes);
        },
    }
}

impl<S: Scalar> SubgameSpec<S> {
    /// The betting tree of the subgame's street.
    pub fn build_action_tree(&self) -> (r: Result<ActionTree<S>, SubgameBuildError>)
        ensures
            match r {
                Ok(tree) => {
                    &&& fault_of(*self) is None
                    &&& tree.root == NodeId(0)
                    &&& nodes_view(tree.nodes@) == tree_spec(
                        self.actions@,
                        self.root_player,
                        self.pot,
                    )
                },
                Err(error) => match fault_of(*self) {
                    Some(fault) => error == SubgameBuildError::Validation(fault),
                    None => false,
                },
            },
    {
        match self.validate() {
            Ok(_) => {},
            Err(fault) => {
                return Err(SubgameBuildError::Validation(fault));
            },
        }
        let mut nodes: Vec<ActionTreeNode<S>> = Vec::new();
        assert(nodes_view(nodes@) =~= Seq::empty());
        let history: Vec<ActionKind<S>> = Vec::new();
        assert(history@ =~= Seq::empty());
        build_decision(&self.actions, self.root_player, self.pot, 0, history, &mut nodes);
        Ok(ActionTree { root: NodeId(0), nodes })
    }
}

} // verus!
