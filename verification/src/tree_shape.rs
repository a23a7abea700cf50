//! The shape of public trees, and how large they are.
use vstd::prelude::*;
use crate::actions::{suits, transitions_keep_chips};
use crate::arith::{greater, max_usize};
use crate::scalar::Scalar;
use crate::tree::{PublicNode, PublicNodeKind, PublicTree, Spot, TreeStats, TreeTemplate};
use crate::tree_build::{
    chance_leads, child_placed, decision_leads, is_built, is_tree_of, placed, tree_end,
};

verus! {

/// Whether the nodes of a list form one tree in preorder.
pub open spec fn is_preorder(nodes: Seq<PublicNode>) -> bool {
    &&& forall|i: int| 0 <= i < nodes.len() ==> #[trigger] placed(nodes, i)
    &&& nodes.len() > 0 ==> tree_end(nodes, 0) == nodes.len()
}

/// The trees that are built are in preorder.
pub proof fn built_trees_are_preorder<S: Scalar>(
    template: TreeTemplate<S>,
    spot: Spot<S>,
    tree: PublicTree,
)
    requires
        is_tree_of(template, spot, tree),
    ensures
        is_preorder(tree.nodes@),
{
    let nodes = tree.nodes@;
    assert forall|i: int| 0 <= i < nodes.len() implies #[trigger] placed(nodes, i) by {
        assert(is_built(
            template,
            spot.oop_range.combos_spec(),
            spot.ip_range.combos_spec(),
            nodes,
            i,
        ));
    }
}

/// Whether a node has the children that its kind calls for, behind itself, and boards that grow by one
/// card at chance nodes only.
pub open spec fn is_shaped_at(nodes: Seq<PublicNode>, i: int) -> bool {
    let node = nodes[i];
    let cards = node.state.board@.len();
    &&& node.id == i
    &&& node.state.counts()
    &&& node.state.board.wf()
    &&& forall|k: int|
        0 <= k < node.children@.len() ==> i < #[trigger] node.children@[k] < nodes.len()
    &&& match node.kind {
        PublicNodeKind::Decision { player, actions } => {
            &&& actions@.len() > 0
            &&& node.children@.len() == actions@.len()
            &&& player == node.state.player
            &&& forall|k: int|
                0 <= k < node.children@.len() ==> nodes[#[trigger] node.children@[k] as int].state.board@.len()
                    == cards
        },
        PublicNodeKind::Chance(chance) => {
            &&& cards < 5
            &&& node.children@.len() == chance.cards@.len()
            &&& node.children@.len() == chance.child_multiplicities@.len()
            &&& node.children@.len() == chance.child_permutation_codes@.len()
            &&& forall|k: int|
                0 <= k < node.children@.len() ==> nodes[#[trigger] node.children@[k] as int].state.board@.len()
                    == cards + 1
        },
        PublicNodeKind::Terminal { reason } => node.children@.len() == 0,
    }
}

/// Whether a tree has nodes, starts on a flop, and every node has the children that its kind calls for.
pub open spec fn is_shaped(tree: PublicTree) -> bool {
    &&& tree.nodes@.len() > 0
    &&& tree.spot.board.wf()
    &&& tree.spot.board@.len() == 3
    &&& tree.nodes@[0].state.board@.len() == 3
    &&& forall|i: int| 0 <= i < tree.nodes@.len() ==> #[trigger] is_shaped_at(tree.nodes@, i)
}

/// The trees that are built are shaped.
pub proof fn built_trees_are_shaped<S: Scalar>(
    template: TreeTemplate<S>,
    spot: Spot<S>,
    tree: PublicTree,
)
    requires
        is_tree_of(template, spot, tree),
        template.action_abstraction.min_bet > 0,
        spot.board.wf(),
        spot.board@.len() == 3,
    ensures
        is_shaped(tree),
{
    let nodes = tree.nodes@;
    assert forall|i: int| 0 <= i < nodes.len() implies #[trigger] is_shaped_at(nodes, i) by {
        assert(is_built(
            template,
            spot.oop_range.combos_spec(),
            spot.ip_range.combos_spec(),
            nodes,
            i,
        ));
        let node = nodes[i];
        assert forall|k: int| 0 <= k < node.children@.len() implies i
            < #[trigger] node.children@[k] < nodes.len() by {
            assert(child_placed(nodes, i, k));
        }
        match node.kind {
            PublicNodeKind::Decision { player, actions } => {
                template.action_abstraction.legal_actions_suit(node.state);
                assert forall|k: int| 0 <= k < node.children@.len() implies nodes[#[trigger] node.children@[k] as int].state.board@.len()
                    == node.state.board@.len() by {
                    assert(decision_leads(template, nodes, i, k));
                    assert(suits(node.state, actions@[k]));
                    transitions_keep_chips(node.state, actions@[k]);
                }
            },
            PublicNodeKind::Chance(chance) => {
                assert forall|k: int| 0 <= k < node.children@.len() implies nodes[#[trigger] node.children@[k] as int].state.board@.len()
                    == node.state.board@.len() + 1 by {
                    assert(chance_leads(template, nodes, i, k, chance.cards@[k]));
                }
            },
            PublicNodeKind::Terminal { reason } => {},
        }
    }
}

/// The nodes below a node end behind it, and not behind the list.
pub proof fn tree_end_bounds(nodes: Seq<PublicNode>, i: int)
    requires
        0 <= i < nodes.len(),
    ensures
        i < tree_end(nodes, i) <= nodes.len(),
    decreases nodes.len() - i,
{
    let children = nodes[i].children@;
    if children.len() > 0 && i < children.last() < nodes.len() {
        tree_end_bounds(nodes, children.last() as int);
    }
}

/// How many nodes from one place to another are of a sort.
pub open spec fn tally(
    nodes: Seq<PublicNode>,
    sort: spec_fn(PublicNode) -> bool,
    from: int,
    to: int,
) -> nat
    decreases to - from,
{
    if to <= from {
        0
    } else {
        tally(nodes, sort, from, to - 1) + (if sort(nodes[to - 1]) {
            1nat
        } else {
            0
        })
    }
}

proof fn lemma_tally_split(
    nodes: Seq<PublicNode>,
    sort: spec_fn(PublicNode) -> bool,
    from: int,
    middle: int,
    to: int,
)
    requires
        from <= middle <= to,
    ensures
        tally(nodes, sort, from, to) == tally(nodes, sort, from, middle) + tally(
            nodes,
            sort,
            middle,
            to,
        ),
        tally(nodes, sort, middle, to) <= to - middle,
    decreases to - middle,
{
    if middle < to {
        lemma_tally_split(nodes, sort, from, middle, to - 1);
    }
}

/// The decision nodes.
pub open spec fn decisions() -> spec_fn(PublicNode) -> bool {
    |node: PublicNode| node.kind is Decision
}

/// The chance nodes.
pub open spec fn chances() -> spec_fn(PublicNode) -> bool {
    |node: PublicNode| node.kind is Chance
}

/// The terminal nodes.
pub open spec fn terminals() -> spec_fn(PublicNode) -> bool {
    |node: PublicNode| node.kind is Terminal
}

/// The decision nodes of a street.
pub open spec fn decisions_on(place: int) -> spec_fn(PublicNode) -> bool {
    |node: PublicNode| node.kind is Decision && node.state.street.place() == place
}

/// The length of the longest way down from a node through its first `k` children.
pub open spec fn height_below(nodes: Seq<PublicNode>, i: int, k: nat) -> nat
    decreases nodes.len() - i, k,
{
    let children = nodes[i].children@;
    if k == 0 || k > children.len() || !(i < children[k - 1] < nodes.len()) {
        0
    } else {
        greater(
            height_below(nodes, i, (k - 1) as nat) as int,
            1int + height_below(
                nodes,
                children[k - 1] as int,
                nodes[children[k - 1] as int].children@.len(),
            ),
        ) as nat
    }
}

/// The length of the longest way down from a node.
pub open spec fn height(nodes: Seq<PublicNode>, i: int) -> nat {
    height_below(nodes, i, nodes[i].children@.len())
}

/// What a visit of the nodes from one place to another adds to the statistics.
spec fn counted(nodes: Seq<PublicNode>, before: TreeStats, after: TreeStats, from: int, to: int) -> bool {
    &&& after.nodes == before.nodes
    &&& after.decisions == before.decisions + tally(nodes, decisions(), from, to)
    &&& after.chances == before.chances + tally(nodes, chances(), from, to)
    &&& after.terminals == before.terminals + tally(nodes, terminals(), from, to)
    &&& forall|s: int|
        0 <= s < 3 ==> #[trigger] after.decisions_by_street@[s] == before.decisions_by_street@[s]
            + tally(nodes, decisions_on(s), from, to)
}

proof fn lemma_counted_on(
    nodes: Seq<PublicNode>,
    a: TreeStats,
    b: TreeStats,
    c: TreeStats,
    from: int,
    middle: int,
    to: int,
)
    requires
        from <= middle <= to,
        counted(nodes, a, b, from, middle),
        counted(nodes, b, c, middle, to),
    ensures
        counted(nodes, a, c, from, to),
{
    lemma_tally_split(nodes, decisions(), from, middle, to);
    lemma_tally_split(nodes, chances(), from, middle, to);
    lemma_tally_split(nodes, terminals(), from, middle, to);
    assert forall|s: int| 0 <= s < 3 implies #[trigger] c.decisions_by_street@[s]
        == a.decisions_by_street@[s] + tally(nodes, decisions_on(s), from, to) by {
        lemma_tally_split(nodes, decisions_on(s), from, middle, to);
        assert(b.decisions_by_street@[s] == a.decisions_by_street@[s] + tally(
            nodes,
            decisions_on(s),
            from,
            middle,
        ));
    }
}

/// Counters that a visit of the nodes before a place cannot have driven beyond it.
spec fn below(stats: TreeStats, bound: int) -> bool {
    &&& stats.decisions <= bound
    &&& stats.chances <= bound
    &&& stats.terminals <= bound
    &&& forall|s: int| 0 <= s < 3 ==> #[trigger] stats.decisions_by_street@[s] <= bound
}

proof fn lemma_below(nodes: Seq<PublicNode>, a: TreeStats, b: TreeStats, from: int, to: int)
    requires
        from <= to,
        below(a, from),
        counted(nodes, a, b, from, to),
    ensures
        below(b, to),
{
    lemma_tally_split(nodes, decisions(), from, from, to);
    lemma_tally_split(nodes, chances(), from, from, to);
    lemma_tally_split(nodes, terminals(), from, from, to);
    assert forall|s: int| 0 <= s < 3 implies #[trigger] b.decisions_by_street@[s] <= to by {
        lemma_tally_split(nodes, decisions_on(s), from, from, to);
        assert(a.decisions_by_street@[s] <= from);
    }
}

proof fn lemma_all_sorts(nodes: Seq<PublicNode>, from: int, to: int)
    requires
        from <= to,
    ensures
        tally(nodes, decisions(), from, to) + tally(nodes, chances(), from, to) + tally(
            nodes,
            terminals(),
            from,
            to,
        ) == to - from,
        tally(nodes, decisions(), from, to) == tally(nodes, decisions_on(0), from, to) + tally(
            nodes,
            decisions_on(1),
            from,
            to,
        ) + tally(nodes, decisions_on(2), from, to),
    decreases to - from,
{
    if from < to {
        lemma_all_sorts(nodes, from, to - 1);
    }
}

impl PublicTree {
    /// How many nodes of each sort the tree has, and how deep it is.
    pub fn stats(&self) -> (r: TreeStats)
        requires
            is_preorder(self.nodes@),
        ensures
            r.nodes == self.nodes@.len(),
            r.decisions == tally(self.nodes@, decisions(), 0, self.nodes@.len() as int),
            r.chances == tally(self.nodes@, chances(), 0, self.nodes@.len() as int),
            r.terminals == tally(self.nodes@, terminals(), 0, self.nodes@.len() as int),
            forall|s: int|
                0 <= s < 3 ==> #[trigger] r.decisions_by_street@[s] == tally(
                    self.nodes@,
                    decisions_on(s),
                    0,
                    self.nodes@.len() as int,
                ),
            self.nodes@.len() > 0 ==> r.max_depth == height(self.nodes@, 0),
            self.nodes@.len() == 0 ==> r.max_depth == 0,
            r.decisions + r.chances + r.terminals == r.nodes,
            r.decisions_by_street@[0] + r.decisions_by_street@[1] + r.decisions_by_street@[2]
                == r.decisions,
    {
        let start = TreeStats {
            nodes: self.nodes.len(),
            decisions: 0,
            chances: 0,
            terminals: 0,
            max_depth: 0,
            decisions_by_street: [0, 0, 0],
        };
        let mut stats: TreeStats = start;
        proof {
            lemma_all_sorts(self.nodes@, 0, self.nodes@.len() as int);
            assert(start.decisions_by_street@ =~= seq![0usize, 0usize, 0usize]);
        }
        if self.nodes.len() > 0 {
            self.visit(0, 0, &mut stats);
        }
        proof {
            assert(counted(self.nodes@, start, stats, 0, self.nodes@.len() as int));
            assert(stats.decisions_by_street@[0] == tally(
                self.nodes@,
                decisions_on(0),
                0,
                self.nodes@.len() as int,
            ));
            assert(stats.decisions_by_street@[1] == tally(
                self.nodes@,
                decisions_on(1),
                0,
                self.nodes@.len() as int,
            ));
            assert(stats.decisions_by_street@[2] == tally(
                self.nodes@,
                decisions_on(2),
                0,
                self.nodes@.len() as int,
            ));
        }
        stats
    }

    fn visit(&self, node: usize, depth: usize, stats: &mut TreeStats)
        requires
            node < self.nodes@.len(),
            forall|i: int| 0 <= i < self.nodes@.len() ==> #[trigger] placed(self.nodes@, i),
            depth <= node,
            below(*old(stats), node as int),
        ensures
            counted(
                self.nodes@,
                *old(stats),
                *final(stats),
                node as int,
                tree_end(self.nodes@, node as int),
            ),
            final(stats).max_depth == greater(
                old(stats).max_depth as int,
                depth + height(self.nodes@, node as int),
            ),
        decreases self.nodes@.len() - node,
    {
        let ghost start = *stats;
        let ghost nodes = self.nodes@;
        let all: usize = self.nodes.len();
        proof {
            assert(node < all);
        }
        stats.max_depth = max_usize(stats.max_depth, depth);
        match self.nodes[node].kind {
            PublicNodeKind::Decision { .. } => {
                let place: usize = self.nodes[node].state.street.index();
                proof {
                    assert(stats.decisions_by_street@[place as int] <= node);
                }
                stats.decisions = stats.decisions + 1;
                let ghost streets = stats.decisions_by_street@;
                let count: usize = stats.decisions_by_street[place] + 1;
                stats.decisions_by_street[place] = count;
                proof {
                    assert(stats.decisions_by_street@ =~= streets.update(place as int, count));
                }
            },
            PublicNodeKind::Chance(_) => {
                stats.chances = stats.chances + 1;
            },
            PublicNodeKind::Terminal { .. } => {
                stats.terminals = stats.terminals + 1;
            },
        }
        proof {
            let i = node as int;
            reveal_with_fuel(tally, 2);
            assert forall|s: int| 0 <= s < 3 implies #[trigger] stats.decisions_by_street@[s]
                == start.decisions_by_street@[s] + tally(nodes, decisions_on(s), i, i + 1) by {}
            assert(counted(nodes, start, *stats, i, i + 1));
            lemma_below(nodes, start, *stats, i, i + 1);
        }
        let count: usize = self.nodes[node].children.len();
        let mut k: usize = 0;
        let ghost mut end: int = node + 1;
        while k < count
            invariant
                nodes == self.nodes@,
                node < nodes.len(),
                depth <= node,
                count == nodes[node as int].children@.len(),
                k <= count,
                forall|i: int| 0 <= i < nodes.len() ==> #[trigger] placed(nodes, i),
                counted(nodes, start, *stats, node as int, end),
                below(*stats, end),
                end == (if k == 0 {
                    node + 1
                } else {
                    tree_end(nodes, nodes[node as int].children@[k - 1] as int)
                }),
                node < end,
                k > 0 ==> node < nodes[node as int].children@[k - 1] < nodes.len(),
                stats.max_depth == greater(
                    start.max_depth as int,
                    depth + height_below(nodes, node as int, k as nat),
                ),
            decreases count - k,
        {
            let child: usize = self.nodes[node].children[k];
            proof {
                assert(placed(nodes, node as int));
                assert(child_placed(nodes, node as int, k as int));
                tree_end_bounds(nodes, child as int);
            }
            let ghost before = *stats;
            self.visit(child, depth + 1, stats);
            proof {
                let next = tree_end(nodes, child as int);
                lemma_counted_on(nodes, start, before, *stats, node as int, end, next);
                lemma_below(nodes, before, *stats, end, next);
                end = next;
            }
            k = k + 1;
        }
    }
}

/// Every node of a shaped tree in preorder is played on a flop, a turn or a river.
pub proof fn boards_are_streets(tree: PublicTree)
    requires
        is_shaped(tree),
        is_preorder(tree.nodes@),
    ensures
        forall|j: int|
            0 <= j < tree.nodes@.len() ==> 3 <= (#[trigger] tree.nodes@[j]).state.board@.len() <= 5,
{
    lemma_boards_below(tree.nodes@, 0);
}

proof fn lemma_boards_below(nodes: Seq<PublicNode>, i: int)
    requires
        0 <= i < nodes.len(),
        forall|j: int| 0 <= j < nodes.len() ==> #[trigger] placed(nodes, j),
        forall|j: int| 0 <= j < nodes.len() ==> #[trigger] is_shaped_at(nodes, j),
        3 <= nodes[i].state.board@.len() <= 5,
    ensures
        forall|j: int|
            i <= j < tree_end(nodes, i) ==> 3 <= (#[trigger] nodes[j]).state.board@.len() <= 5,
    decreases nodes.len() - i, 1int, 0int,
{
    let count = nodes[i].children@.len();
    assert(placed(nodes, i) && is_shaped_at(nodes, i));
    if count > 0 {
        lemma_boards_among(nodes, i, count);
        assert(child_placed(nodes, i, count - 1));
    }
}

proof fn lemma_boards_among(nodes: Seq<PublicNode>, i: int, n: nat)
    requires
        0 <= i < nodes.len(),
        forall|j: int| 0 <= j < nodes.len() ==> #[trigger] placed(nodes, j),
        forall|j: int| 0 <= j < nodes.len() ==> #[trigger] is_shaped_at(nodes, j),
        3 <= nodes[i].state.board@.len() <= 5,
        0 < n <= nodes[i].children@.len(),
    ensures
        forall|j: int|
            i <= j < tree_end(nodes, nodes[i].children@[n - 1] as int) ==> 3 <= (
            #[trigger] nodes[j]).state.board@.len() <= 5,
    decreases nodes.len() - i, 0int, n,
{
    assert(placed(nodes, i) && is_shaped_at(nodes, i));
    assert(child_placed(nodes, i, n - 1));
    let child = nodes[i].children@[n - 1] as int;
    assert(3 <= nodes[child].state.board@.len() <= 5);
    lemma_boards_below(nodes, child);
    if n > 1 {
        lemma_boards_among(nodes, i, (n - 1) as nat);
    }
}

} // verus!
