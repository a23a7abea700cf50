//! The decisions of a public tree in tables with as many columns as the widest decision has actions.
use vstd::prelude::*;
use crate::grid::cell_place;
use crate::postflop::ActionCandidate;
use crate::postflop_tree::{
    decisions, node_views, KindView, NodeView, PublicNode, PublicNodeKind, SubgameTree,
};
use crate::subgame_nodes::CfrVariant;

verus! {

/// The decisions of a public tree, numbered, with their actions and what follows each.
#[derive(Clone, Debug)]
pub struct PostflopDenseLayout {
    pub node_to_infoset: Vec<Option<usize>>,
    pub infoset_nodes: Vec<usize>,
    pub action_counts: Vec<usize>,
    pub max_actions: usize,
    pub legal_actions: Vec<bool>,
    pub child_by_action: Vec<Option<usize>>,
}

/// The places of the decisions among the first `n` nodes.
pub open spec fn decision_places(nodes: Seq<NodeView>, n: nat) -> Seq<usize>
    decreases n,
{
    if n == 0 {
        Seq::empty()
    } else {
        let front = decision_places(nodes, (n - 1) as nat);
        if nodes[n - 1].kind is Decision {
            front.push((n - 1) as usize)
        } else {
            front
        }
    }
}

/// How many actions a node has.
pub open spec fn width(node: NodeView) -> nat {
    match node.kind {
        KindView::Decision { state, actions } => actions.len(),
        _ => 0,
    }
}

/// How many actions the widest of the first `n` nodes has.
pub open spec fn widest(nodes: Seq<NodeView>, n: nat) -> nat
    decreases n,
{
    if n == 0 {
        0
    } else {
        let front = widest(nodes, (n - 1) as nat);
        if width(nodes[n - 1]) > front {
            width(nodes[n - 1])
        } else {
            front
        }
    }
}

/// The decisions among the first `n` nodes are listed in order, as many as there are.
pub proof fn decision_place_facts(nodes: Seq<NodeView>, n: nat)
    requires
        n <= nodes.len() <= usize::MAX,
    ensures
        decision_places(nodes, n).len() == decisions(nodes, n),
        decision_places(nodes, n).len() <= n,
        forall|k: int|
            0 <= k < decision_places(nodes, n).len() ==> {
                let i = #[trigger] decision_places(nodes, n)[k];
                &&& i < n
                &&& nodes[i as int].kind is Decision
                &&& decisions(nodes, i as nat) == k
                &&& width(nodes[i as int]) <= widest(nodes, n)
            },
        forall|i: int|
            0 <= i < n && (#[trigger] nodes[i]).kind is Decision ==> decisions(nodes, i as nat)
                < decision_places(nodes, n).len() && decision_places(nodes, n)[decisions(
                nodes,
                i as nat,
            ) as int] == i,
    decreases n,
{
    if n > 0 {
        decision_place_facts(nodes, (n - 1) as nat);
        let front = decision_places(nodes, (n - 1) as nat);
        let whole = decision_places(nodes, n);
        assert forall|k: int| 0 <= k < whole.len() implies {
            let i = #[trigger] whole[k];
            &&& i < n
            &&& nodes[i as int].kind is Decision
            &&& decisions(nodes, i as nat) == k
            &&& width(nodes[i as int]) <= widest(nodes, n)
        } by {
            if k < front.len() {
                assert(whole[k] == front[k]);
            }
        }
        assert forall|i: int| 0 <= i < n && (#[trigger] nodes[i]).kind is Decision implies decisions(
            nodes,
            i as nat,
        ) < whole.len() && whole[decisions(nodes, i as nat) as int] == i by {
            if i < n - 1 {
                assert(front[decisions(nodes, i as nat) as int] == i);
            }
        }
    }
}

/// Whether a tree can be laid out: some decision has an action, and each action is followed by a node.
pub open spec fn can_lay_out(nodes: Seq<NodeView>) -> bool {
    &&& widest(nodes, nodes.len()) > 0
    &&& forall|i: int|
        0 <= i < nodes.len() && (#[trigger] nodes[i]).kind is Decision ==> nodes[i].children.len()
            == width(nodes[i])
    &&& decisions(nodes, nodes.len()) * widest(nodes, nodes.len()) <= usize::MAX
}

/// What stands in a cell: whether there is such an action, and what follows it.
pub open spec fn layout_cell(nodes: Seq<NodeView>, infoset: int, action: int) -> (bool, Option<usize>) {
    let node = nodes[decision_places(nodes, nodes.len())[infoset] as int];
    if action < width(node) {
        (true, Some(node.children[action]))
    } else {
        (false, None)
    }
}

/// How many decisions and actions tables are for, and how their iterations are weighed.
#[derive(Clone, Copy, Debug, PartialEq, Eq, Structural)]
pub struct DenseCfrConfig {
    pub infosets: usize,
    pub actions: usize,
    pub variant: CfrVariant,
}

impl PostflopDenseLayout {
    /// Whether the tables are those of a tree.
    pub open spec fn lays_out(self, nodes: Seq<NodeView>) -> bool {
        let places = decision_places(nodes, nodes.len());
        &&& self.node_to_infoset@.len() == nodes.len()
        &&& forall|i: int|
            0 <= i < nodes.len() ==> #[trigger] self.node_to_infoset@[i] == if nodes[i].kind is Decision {
                Some(decisions(nodes, i as nat) as usize)
            } else {
                None::<usize>
            }
        &&& self.infoset_nodes@ == places
        &&& self.action_counts@.len() == places.len()
        &&& forall|k: int|
            0 <= k < places.len() ==> #[trigger] self.action_counts@[k] == width(
                nodes[places[k] as int],
            )
        &&& self.max_actions == widest(nodes, nodes.len())
        &&& self.legal_actions@.len() == places.len() * self.max_actions
        &&& self.child_by_action@.len() == places.len() * self.max_actions
        &&& forall|p: int|
            0 <= p < self.legal_actions@.len() ==> #[trigger] self.legal_actions@[p] == layout_cell(
                nodes,
                p / (self.max_actions as int),
                p % (self.max_actions as int),
            ).0
        &&& forall|p: int|
            0 <= p < self.child_by_action@.len() ==> #[trigger] self.child_by_action@[p]
                == layout_cell(
                nodes,
                p / (self.max_actions as int),
                p % (self.max_actions as int),
            ).1
    }

    /// A decision is found again by its number, and a number by its decision.
    pub proof fn numbers_round_trip(self, nodes: Seq<NodeView>, infoset: int, node: int)
        requires
            nodes.len() <= usize::MAX,
            self.lays_out(nodes),
        ensures
            0 <= infoset < self.infoset_nodes@.len() ==> self.node_to_infoset@[self.infoset_nodes@[infoset] as int]
                == Some(infoset as usize),
            0 <= node < nodes.len() && self.node_to_infoset@[node] is Some ==> self.infoset_nodes@[self.node_to_infoset@[node]->Some_0 as int]
                == node,
    {
        decision_place_facts(nodes, nodes.len());
        let places = decision_places(nodes, nodes.len());
        if 0 <= infoset < places.len() {
            let i = places[infoset];
            assert(nodes[i as int].kind is Decision);
        }
        if 0 <= node < nodes.len() {
            assert(self.node_to_infoset@[node] is Some ==> nodes[node].kind is Decision);
        }
    }

    /// The tables of a tree.
    pub fn from_tree(tree: &SubgameTree) -> (r: Self)
        requires
            can_lay_out(node_views(tree.nodes@)),
        ensures
            r.lays_out(node_views(tree.nodes@)),
    {
        let ghost nodes = node_views(tree.nodes@);
        let count: usize = tree.nodes.len();
        let mut node_to_infoset: Vec<Option<usize>> = Vec::new();
        let mut infoset_nodes: Vec<usize> = Vec::new();
        let mut action_counts: Vec<usize> = Vec::new();
        let mut max_actions: usize = 0;
        for i in 0..count
            invariant
                count == tree.nodes@.len(),
                nodes == node_views(tree.nodes@),
                node_to_infoset@.len() == i,
                forall|k: int|
                    0 <= k < i ==> #[trigger] node_to_infoset@[k] == if nodes[k].kind is Decision {
                        Some(decisions(nodes, k as nat) as usize)
                    } else {
                        None::<usize>
                    },
                infoset_nodes@ == decision_places(nodes, i as nat),
                infoset_nodes@.len() == decisions(nodes, i as nat),
                action_counts@.len() == infoset_nodes@.len(),
                forall|k: int|
                    0 <= k < action_counts@.len() ==> #[trigger] action_counts@[k] == width(
                        nodes[infoset_nodes@[k] as int],
                    ),
                max_actions == widest(nodes, i as nat),
        {
            proof {
                assert(nodes[i as int] == tree.nodes@[i as int]@);
            }
            match &tree.nodes[i].kind {
                PublicNodeKind::Decision { actions, .. } => {
                    node_to_infoset.push(Some(infoset_nodes.len()));
                    infoset_nodes.push(i);
                    action_counts.push(actions.len());
                    if actions.len() > max_actions {
                        max_actions = actions.len();
                    }
                },
                _ => {
                    node_to_infoset.push(None);
                },
            }
        }
        proof {
            decision_place_facts(nodes, nodes.len());
            assert(0int * (max_actions as int) == 0);
        }
        let infosets: usize = infoset_nodes.len();
        let mut legal_actions: Vec<bool> = Vec::new();
        let mut child_by_action: Vec<Option<usize>> = Vec::new();
        for infoset in 0..infosets
            invariant
                nodes == node_views(tree.nodes@),
                can_lay_out(nodes),
                infosets == infoset_nodes@.len(),
                infoset_nodes@ == decision_places(nodes, nodes.len()),
                max_actions == widest(nodes, nodes.len()),
                max_actions > 0,
                nodes.len() <= usize::MAX,
                action_counts@.len() == infosets,
                forall|k: int|
                    0 <= k < action_counts@.len() ==> #[trigger] action_counts@[k] == width(
                        nodes[infoset_nodes@[k] as int],
                    ),
                legal_actions@.len() == infoset * max_actions,
                child_by_action@.len() == infoset * max_actions,
                forall|p: int|
                    0 <= p < legal_actions@.len() ==> #[trigger] legal_actions@[p] == layout_cell(
                        nodes,
                        p / (max_actions as int),
                        p % (max_actions as int),
                    ).0,
                forall|p: int|
                    0 <= p < child_by_action@.len() ==> #[trigger] child_by_action@[p] == layout_cell(
                        nodes,
                        p / (max_actions as int),
                        p % (max_actions as int),
                    ).1,
        {
            proof {
                decision_place_facts(nodes, nodes.len());
                let i = infoset_nodes@[infoset as int];
                assert(nodes[i as int] == tree.nodes@[i as int]@);
                assert(nodes[i as int].kind is Decision);
            }
            let node: &PublicNode = &tree.nodes[infoset_nodes[infoset]];
            let action_count: usize = action_counts[infoset];
            for action in 0..max_actions
                invariant
                    infoset < infosets,
                    infosets == infoset_nodes@.len(),
                    infoset_nodes@ == decision_places(nodes, nodes.len()),
                    max_actions > 0,
                    node@ == nodes[infoset_nodes@[infoset as int] as int],
                    action_count == width(node@),
                    node.children@.len() == action_count,
                    legal_actions@.len() == infoset * max_actions + action,
                    child_by_action@.len() == infoset * max_actions + action,
                    forall|p: int|
                        0 <= p < legal_actions@.len() ==> #[trigger] legal_actions@[p] == layout_cell(
                            nodes,
                            p / (max_actions as int),
                            p % (max_actions as int),
                        ).0,
                    forall|p: int|
                        0 <= p < child_by_action@.len() ==> #[trigger] child_by_action@[p]
                            == layout_cell(
                            nodes,
                            p / (max_actions as int),
                            p % (max_actions as int),
                        ).1,
            {
                proof {
                    cell_place(
                        infosets as int,
                        max_actions as int,
                        infoset as int,
                        action as int,
                    );
                }
                if action < action_count {
                    legal_actions.push(true);
                    child_by_action.push(Some(node.children[action]));
                } else {
                    legal_actions.push(false);
                    child_by_action.push(None);
                }
            }
            proof {
                assert((infoset + 1) * max_actions == infoset * max_actions + max_actions)
                    by (nonlinear_arith);
            }
        }
        PostflopDenseLayout {
            node_to_infoset,
            infoset_nodes,
            action_counts,
            max_actions,
            legal_actions,
            child_by_action,
        }
    }

    /// The size of the tables of this layout.
    pub fn dense_config(&self, variant: CfrVariant) -> (r: DenseCfrConfig)
        ensures
            r.infosets == self.infoset_nodes@.len(),
            r.actions == self.max_actions,
            r.variant == variant,
    {
        DenseCfrConfig { infosets: self.infoset_count(), actions: self.max_actions, variant }
    }

    /// The number of a node, if it is a decision.
    pub fn node_infoset(&self, node: usize) -> (r: Option<usize>)
        requires
            node < self.node_to_infoset@.len(),
        ensures
            r == self.node_to_infoset@[node as int],
    {
        self.node_to_infoset[node]
    }

    /// The decision of a number.
    pub fn infoset_node(&self, infoset: usize) -> (r: usize)
        requires
            infoset < self.infoset_nodes@.len(),
        ensures
            r == self.infoset_nodes@[infoset as int],
    {
        self.infoset_nodes[infoset]
    }

    /// How many decisions there are.
    pub fn infoset_count(&self) -> (r: usize)
        ensures
            r == self.infoset_nodes@.len(),
    {
        self.infoset_nodes.len()
    }

    /// How many actions the widest decision has.
    pub fn max_actions(&self) -> (r: usize)
        ensures
            r == self.max_actions,
    {
        self.max_actions
    }

    /// How many actions a decision has.
    pub fn action_count(&self, infoset: usize) -> (r: usize)
        requires
            infoset < self.action_counts@.len(),
        ensures
            r == self.action_counts@[infoset as int],
    {
        self.action_counts[infoset]
    }

    /// Which cells are actions.
    pub fn legal_actions(&self) -> (r: &[bool])
        ensures
            r@ == self.legal_actions@,
    {
        self.legal_actions.as_slice()
    }

    /// What follows an action, if there is such an action.
    pub fn child_for_action(&self, infoset: usize, action: usize) -> (r: Option<usize>)
        requires
            infoset < self.infoset_nodes@.len(),
            action < self.max_actions,
            self.child_by_action@.len() == self.infoset_nodes@.len() * self.max_actions,
        ensures
            r == self.child_by_action@[infoset * self.max_actions + action],
    {
        let size: usize = self.child_by_action.len();
        proof {
            cell_place(
                self.infoset_nodes@.len() as int,
                self.max_actions as int,
                infoset as int,
                action as int,
            );
        }
        self.child_by_action[infoset * self.max_actions + action]
    }

    /// An action of a decision, if there is such an action.
    pub fn action<'a>(&self, tree: &'a SubgameTree, infoset: usize, action: usize) -> (r: Option<
        &'a ActionCandidate,
    >)
        requires
            self.lays_out(node_views(tree.nodes@)),
            infoset < self.infoset_nodes@.len(),
        ensures
            match r {
                Some(candidate) => {
                    let node = node_views(tree.nodes@)[self.infoset_nodes@[infoset as int] as int];
                    action < width(node) && *candidate == node.kind->actions[action as int]
                },
                None => action >= self.action_counts@[infoset as int],
            },
    {
        let ghost nodes = node_views(tree.nodes@);
        let count: usize = tree.nodes.len();
        proof {
            decision_place_facts(nodes, nodes.len());
            let i = self.infoset_nodes@[infoset as int];
            assert(nodes[i as int].kind is Decision);
            assert(nodes[i as int] == tree.nodes@[i as int]@);
        }
        if action >= self.action_count(infoset) {
            return None;
        }
        let node: &'a PublicNode = &tree.nodes[self.infoset_node(infoset)];
        match &node.kind {
            PublicNodeKind::Decision { actions, .. } => Some(&actions[action]),
            _ => None,
        }
    }
}

} // verus!
