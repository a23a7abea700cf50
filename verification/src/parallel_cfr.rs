//! How a solve can be cut into parallel parts, and how much storage it takes.
use vstd::prelude::*;
use crate::arith::{bounded, bounded_product, bounded_sum, greater, lesser, max_usize, min_usize};
use crate::range::{ComboWeight, RangeSpec};
use crate::scalar::Scalar;
use crate::state_graph::{
    chance_child, collect_states, decision_child, is_expanded, is_graph, GraphState,
};
use crate::tree::{Player, PublicNode, PublicNodeKind, PublicTree};
use crate::tree_shape::{is_shaped, is_shaped_at};

verus! {

/// What a solve stores, and where it can be cut.
#[derive(Clone, Copy, Debug, PartialEq, Eq, Structural)]
pub struct ParallelCfrStorageReport {
    pub nodes: usize,
    pub decision_nodes: usize,
    pub chance_nodes: usize,
    pub terminal_nodes: usize,
    pub action_slots: usize,
    pub strategy_slots: usize,
    pub regret_slots: usize,
    pub ip_cfvalue_slots: usize,
    pub chance_cfvalue_slots: usize,
    pub scratch_value_slots: usize,
    pub parallel_cut_nodes: usize,
    pub max_parallel_fanout: usize,
    pub concrete_chance_events: usize,
    pub representative_chance_events: usize,
    pub chance_permutation_members: usize,
}

/// A state of the graph and its part in a solve.
#[derive(Clone, Debug)]
pub struct ParallelStatePlan {
    pub state: GraphState,
    pub postorder: usize,
    pub subtree_start_postorder: usize,
    pub subtree_end_postorder: usize,
    pub parallel_cut: bool,
    pub acting_player: Option<Player>,
    pub cfvalue_storage_player: Option<Player>,
}

/// The states of a graph, visited and listed from a state on: each behind all that follow it.
pub open spec fn walk(
    states: Seq<GraphState>,
    nodes: nat,
    i: int,
    seen: Set<int>,
    list: Seq<usize>,
) -> (Set<int>, Seq<usize>)
    decreases nodes - states[i].node_id, 1nat, 0nat,
{
    if seen.contains(i) || states[i].node_id >= nodes {
        (seen, list)
    } else {
        let (seen, list) = walk_children(
            states,
            nodes,
            i,
            states[i].children@.len(),
            seen.insert(i),
            list,
        );
        (seen, list.push(i as usize))
    }
}

/// The first `k` states that follow a state, visited and listed.
pub open spec fn walk_children(
    states: Seq<GraphState>,
    nodes: nat,
    i: int,
    k: nat,
    seen: Set<int>,
    list: Seq<usize>,
) -> (Set<int>, Seq<usize>)
    decreases nodes - states[i].node_id, 0nat, k,
{
    if k == 0 || states[i].node_id >= nodes {
        (seen, list)
    } else {
        let (seen, list) = walk_children(states, nodes, i, (k - 1) as nat, seen, list);
        let child = states[i].children@[k - 1] as int;
        if states[i].node_id < states[child].node_id < nodes {
            walk(states, nodes, child, seen, list)
        } else {
            (seen, list)
        }
    }
}

/// The states of a graph, each behind all that follow it.
pub open spec fn postorder_list(states: Seq<GraphState>, nodes: nat) -> Seq<usize> {
    walk(states, nodes, 0, Set::empty(), Seq::empty()).1
}

/// Whether states lead to states of later nodes.
pub open spec fn goes_down(states: Seq<GraphState>, nodes: nat) -> bool {
    &&& forall|i: int| 0 <= i < states.len() ==> (#[trigger] states[i]).node_id < nodes
    &&& forall|i: int, k: int|
        0 <= i < states.len() && 0 <= k < states[i].children@.len() ==> {
            let child = #[trigger] states[i].children@[k] as int;
            child < states.len() && states[i].node_id < states[child].node_id
        }
}

/// The graph of a tree leads to later nodes.
proof fn lemma_goes_down<S: Scalar>(
    ordered: bool,
    tree: PublicTree,
    oop: Seq<ComboWeight<S>>,
    ip: Seq<ComboWeight<S>>,
    states: Seq<GraphState>,
)
    requires
        is_shaped(tree),
        is_graph(ordered, tree, oop, ip, states),
    ensures
        goes_down(states, tree.nodes@.len()),
{
    let nodes = tree.nodes@;
    assert forall|i: int| 0 <= i < states.len() implies (#[trigger] states[i]).node_id
        < nodes.len() by {
        assert(is_expanded(ordered, nodes, oop, ip, states, i));
    }
    assert forall|i: int, k: int| 0 <= i < states.len() && 0 <= k < states[i].children@.len() implies {
        let child = #[trigger] states[i].children@[k] as int;
        child < states.len() && states[i].node_id < states[child].node_id
    } by {
        assert(is_expanded(ordered, nodes, oop, ip, states, i));
        assert(is_shaped_at(nodes, states[i].node_id as int));
        match nodes[states[i].node_id as int].kind {
            PublicNodeKind::Decision { player, actions } => {
                assert(decision_child(ordered, nodes, states, i, k));
                assert(states[i].node_id < nodes[states[i].node_id as int].children@[k]);
            },
            PublicNodeKind::Chance(chance) => {
                let classes = crate::isomorphism::next_card_classes(states[i].board@, oop, ip);
                assert(chance_child(ordered, nodes, states, i, k, classes[k]));
                assert(states[i].node_id < nodes[states[i].node_id as int].children@[0]);
            },
            PublicNodeKind::Terminal { reason } => {},
        }
    }
}

/// Whether flags name the members of a set.
spec fn flags(visited: Seq<bool>, seen: Set<int>) -> bool {
    forall|i: int| 0 <= i < visited.len() ==> #[trigger] visited[i] == seen.contains(i)
}

fn build_state_postorder(
    states: &Vec<GraphState>,
    nodes: usize,
    state_index: usize,
    visited: &mut Vec<bool>,
    list: &mut Vec<usize>,
    Ghost(seen): Ghost<Set<int>>,
) -> (r: Ghost<Set<int>>)
    requires
        goes_down(states@, nodes as nat),
        state_index < states@.len(),
        old(visited)@.len() == states@.len(),
        flags(old(visited)@, seen),
    ensures
        final(visited)@.len() == states@.len(),
        (r@, final(list)@) == walk(states@, nodes as nat, state_index as int, seen, old(list)@),
        flags(final(visited)@, r@),
    decreases nodes - states@[state_index as int].node_id,
{
    if visited[state_index] {
        return Ghost(seen);
    }
    let ghost i = state_index as int;
    let ghost start = list@;
    visited.set(state_index, true);
    let ghost mut now = seen.insert(i);
    let count: usize = states[state_index].children.len();
    for k in 0..count
        invariant
            goes_down(states@, nodes as nat),
            state_index < states@.len(),
            i == state_index,
            count == states@[i].children@.len(),
            visited@.len() == states@.len(),
            (now, list@) == walk_children(
                states@,
                nodes as nat,
                i,
                k as nat,
                seen.insert(i),
                start,
            ),
            flags(visited@, now),
    {
        let child: usize = states[state_index].children[k];
        proof {
            assert(states@[i].node_id < states@[states@[i].children@[k as int] as int].node_id);
        }
        let Ghost(next): Ghost<Set<int>> = build_state_postorder(
            states,
            nodes,
            child,
            visited,
            list,
            Ghost(now),
        );
        proof {
            now = next;
        }
    }
    list.push(state_index);
    Ghost(now)
}

/// The least of the numbers of the states without followers that a state leads to; a state without
/// followers has its own.
pub open spec fn subtree_start(states: Seq<GraphState>, nodes: nat, order: Seq<usize>, i: int) -> int
    decreases nodes - states[i].node_id, 1nat, 0nat,
{
    if states[i].children@.len() == 0 || states[i].node_id >= nodes {
        order[i] as int
    } else {
        least_start(states, nodes, order, i, states[i].children@.len())
    }
}

/// The least of the starts of the first `k` states that follow a state.
pub open spec fn least_start(
    states: Seq<GraphState>,
    nodes: nat,
    order: Seq<usize>,
    i: int,
    k: nat,
) -> int
    decreases nodes - states[i].node_id, 0nat, k,
{
    if k == 0 || states[i].node_id >= nodes {
        0
    } else {
        let child = states[i].children@[k - 1] as int;
        let start = if states[i].node_id < states[child].node_id < nodes {
            subtree_start(states, nodes, order, child)
        } else {
            0
        };
        if k == 1 {
            start
        } else {
            lesser(least_start(states, nodes, order, i, (k - 1) as nat), start)
        }
    }
}

fn state_subtree_start_postorder(
    states: &Vec<GraphState>,
    nodes: usize,
    order: &Vec<usize>,
    state_index: usize,
) -> (r: usize)
    requires
        goes_down(states@, nodes as nat),
        state_index < states@.len(),
        order@.len() == states@.len(),
    ensures
        r == subtree_start(states@, nodes as nat, order@, state_index as int),
    decreases nodes - states@[state_index as int].node_id,
{
    let count: usize = states[state_index].children.len();
    let ghost i = state_index as int;
    if count == 0 {
        return order[state_index];
    }
    let mut least: usize = 0;
    for k in 0..count
        invariant
            goes_down(states@, nodes as nat),
            state_index < states@.len(),
            i == state_index,
            count == states@[i].children@.len(),
            order@.len() == states@.len(),
            least == least_start(states@, nodes as nat, order@, i, k as nat),
    {
        let child: usize = states[state_index].children[k];
        proof {
            assert(states@[i].node_id < states@[states@[i].children@[k as int] as int].node_id);
        }
        let start: usize = state_subtree_start_postorder(states, nodes, order, child);
        least = if k == 0 {
            start
        } else {
            min_usize(least, start)
        };
    }
    least
}

/// The numbers that a list gives to the states that it names.
pub open spec fn places(list: Seq<usize>, count: nat) -> Seq<usize> {
    Seq::new(count, |i: int| place_of(list, i))
}

/// The last place of a list that names a state; zero if none does.
pub open spec fn place_of(list: Seq<usize>, state: int) -> usize
    decreases list.len(),
{
    if list.len() == 0 {
        0
    } else if list.last() == state {
        (list.len() - 1) as usize
    } else {
        place_of(list.drop_last(), state)
    }
}

fn number_states(list: &Vec<usize>, count: usize) -> (r: Vec<usize>)
    requires
        forall|p: int| 0 <= p < list@.len() ==> #[trigger] list@[p] < count,
    ensures
        r@ == places(list@, count as nat),
{
    let mut order: Vec<usize> = Vec::new();
    for i in 0..count
        invariant
            order@.len() == i,
            forall|j: int| 0 <= j < i ==> #[trigger] order@[j] == 0,
    {
        order.push(0);
    }
    proof {
        assert(list@.take(0).len() == 0);
    }
    for p in 0..list.len()
        invariant
            order@.len() == count,
            forall|q: int| 0 <= q < list@.len() ==> #[trigger] list@[q] < count,
            forall|j: int|
                0 <= j < count ==> #[trigger] order@[j] == place_of(list@.take(p as int), j),
    {
        proof {
            assert(list@.take(p + 1).drop_last() =~= list@.take(p as int));
            assert(list@.take(p + 1).last() == list@[p as int]);
        }
        order.set(list[p], p);
    }
    proof {
        assert(list@.take(list@.len() as int) =~= list@);
        assert(order@ =~= places(list@, count as nat));
    }
    order
}

/// Whether a state is played on a board that is not full and can go on in more than one way.
pub open spec fn is_cut(nodes: Seq<PublicNode>, state: GraphState) -> bool {
    &&& !(nodes[state.node_id as int].kind is Terminal)
    &&& state.board@.len() < 5
    &&& state.children@.len() > 1
}

/// The player who acts in a state.
pub open spec fn actor(node: PublicNode) -> Option<Player> {
    match node.kind {
        PublicNodeKind::Decision { player, actions } => Some(player),
        _ => None,
    }
}

/// The player whose values a state stores: in position at the root and where a street may end, the
/// player who does not act next at chance nodes.
pub open spec fn storage_player(nodes: Seq<PublicNode>, state: GraphState, i: int) -> Option<Player> {
    let node = nodes[state.node_id as int];
    match node.kind {
        PublicNodeKind::Decision { player, actions } => if i == 0 || (node.children@.len() > 0
            && nodes[node.children@[0] as int].state.street != node.state.street) {
            Some(Player::Ip)
        } else {
            None
        },
        PublicNodeKind::Chance(chance) => if node.children@.len() == 0 {
            None
        } else {
            Some(node.state.player.other_spec())
        },
        PublicNodeKind::Terminal { reason } => None,
    }
}

/// Whether the plan of a state is what its graph calls for.
pub open spec fn is_planned(
    nodes: Seq<PublicNode>,
    states: Seq<GraphState>,
    plan: ParallelStatePlan,
    i: int,
) -> bool {
    let order = places(postorder_list(states, nodes.len()), states.len());
    &&& plan.state == states[i]
    &&& plan.postorder == order[i]
    &&& plan.subtree_start_postorder == subtree_start(states, nodes.len(), order, i)
    &&& plan.subtree_end_postorder == order[i] + 1
    &&& plan.parallel_cut == is_cut(nodes, states[i])
    &&& plan.acting_player == actor(nodes[states[i].node_id as int])
    &&& plan.cfvalue_storage_player == storage_player(nodes, states[i], i)
}

/// The states of plans.
pub open spec fn states_of(plans: Seq<ParallelStatePlan>) -> Seq<GraphState> {
    plans.map(|i: int, plan: ParallelStatePlan| plan.state)
}

/// The sum of what the first `n` states add.
pub open spec fn state_total(
    states: Seq<GraphState>,
    adds: spec_fn(GraphState, int) -> int,
    n: nat,
) -> int
    decreases n,
{
    if n == 0 {
        0
    } else {
        state_total(states, adds, (n - 1) as nat) + adds(states[n - 1], n - 1)
    }
}

/// Decisions add a slot for each hand of the actor and each action.
pub open spec fn slots_added(nodes: Seq<PublicNode>, oop: int, ip: int) -> spec_fn(
    GraphState,
    int,
) -> int {
    |state: GraphState, i: int|
        match nodes[state.node_id as int].kind {
            PublicNodeKind::Decision { player, actions } => (if player == Player::Oop {
                oop
            } else {
                ip
            }) * actions@.len(),
            _ => 0,
        }
}

/// Decisions that store values of the player in position add a slot for each hand.
pub open spec fn ip_values_added(nodes: Seq<PublicNode>, ip: int) -> spec_fn(GraphState, int) -> int {
    |state: GraphState, i: int|
        if nodes[state.node_id as int].kind is Decision && storage_player(nodes, state, i) == Some(
            Player::Ip,
        ) {
            ip
        } else {
            0
        }
}

/// Chance states add a slot for each hand of the player who does not act next.
pub open spec fn chance_values_added(nodes: Seq<PublicNode>, oop: int, ip: int) -> spec_fn(
    GraphState,
    int,
) -> int {
    |state: GraphState, i: int|
        if nodes[state.node_id as int].kind is Chance {
            if nodes[state.node_id as int].state.player == Player::Oop {
                ip
            } else {
                oop
            }
        } else {
            0
        }
}

/// States of a sort add one.
pub open spec fn one_of(sort: spec_fn(GraphState) -> bool) -> spec_fn(GraphState, int) -> int {
    |state: GraphState, i: int|
        if sort(state) {
            1
        } else {
            0
        }
}

/// Chance states add the cards that may come.
pub open spec fn events_added(nodes: Seq<PublicNode>) -> spec_fn(GraphState, int) -> int {
    |state: GraphState, i: int|
        if nodes[state.node_id as int].kind is Chance {
            state.chance_concrete_events as int
        } else {
            0
        }
}

/// Chance states add the classes of cards that may come.
pub open spec fn classes_added(nodes: Seq<PublicNode>) -> spec_fn(GraphState, int) -> int {
    |state: GraphState, i: int|
        if nodes[state.node_id as int].kind is Chance {
            state.children@.len() as int
        } else {
            0
        }
}

/// How many codes the first `n` lists hold.
pub open spec fn code_total(codes: Seq<Vec<u8>>, n: nat) -> int
    decreases n,
{
    if n == 0 {
        0
    } else {
        code_total(codes, (n - 1) as nat) + codes[n - 1]@.len()
    }
}

/// Chance states add the members of their classes.
pub open spec fn members_added(nodes: Seq<PublicNode>) -> spec_fn(GraphState, int) -> int {
    |state: GraphState, i: int|
        if nodes[state.node_id as int].kind is Chance {
            code_total(state.chance_permutation_codes@, state.chance_permutation_codes@.len())
        } else {
            0
        }
}

/// The most states that follow one of the first `n`.
pub open spec fn widest(states: Seq<GraphState>, n: nat) -> int
    decreases n,
{
    if n == 0 {
        0
    } else {
        greater(widest(states, (n - 1) as nat), states[n - 1].children@.len() as int)
    }
}

/// Whether a report counts the first `n` states of a graph.
pub open spec fn is_report(
    nodes: Seq<PublicNode>,
    states: Seq<GraphState>,
    oop: int,
    ip: int,
    report: ParallelCfrStorageReport,
    n: nat,
) -> bool {
    let sort = |kind: spec_fn(PublicNodeKind) -> bool|
        one_of(|state: GraphState| kind(nodes[state.node_id as int].kind));
    &&& report.nodes == nodes.len()
    &&& report.decision_nodes == state_total(states, sort(|kind: PublicNodeKind| kind is Decision), n)
    &&& report.chance_nodes == state_total(states, sort(|kind: PublicNodeKind| kind is Chance), n)
    &&& report.terminal_nodes == state_total(states, sort(|kind: PublicNodeKind| kind is Terminal), n)
    &&& report.action_slots == bounded(state_total(states, slots_added(nodes, oop, ip), n))
    &&& report.strategy_slots == report.action_slots
    &&& report.regret_slots == report.action_slots
    &&& report.ip_cfvalue_slots == bounded(state_total(states, ip_values_added(nodes, ip), n))
    &&& report.chance_cfvalue_slots == bounded(
        state_total(states, chance_values_added(nodes, oop, ip), n),
    )
    &&& report.scratch_value_slots == report.chance_cfvalue_slots
    &&& report.parallel_cut_nodes == state_total(
        states,
        one_of(|state: GraphState| is_cut(nodes, state)),
        n,
    )
    &&& report.max_parallel_fanout == widest(states, n)
    &&& report.concrete_chance_events == bounded(state_total(states, events_added(nodes), n))
    &&& report.representative_chance_events == bounded(state_total(states, classes_added(nodes), n))
    &&& report.chance_permutation_members == bounded(state_total(states, members_added(nodes), n))
}

fn count_codes(codes: &Vec<Vec<u8>>) -> (r: usize)
    ensures
        r == bounded(code_total(codes@, codes@.len())),
{
    let mut total: usize = 0;
    for i in 0..codes.len()
        invariant
            code_total(codes@, i as nat) >= 0,
            total == bounded(code_total(codes@, i as nat)),
    {
        total = bounded_sum(total, codes[i].len());
    }
    total
}

proof fn lemma_one_of(states: Seq<GraphState>, sort: spec_fn(GraphState) -> bool, n: nat)
    ensures
        0 <= state_total(states, one_of(sort), n) <= n,
    decreases n,
{
    if n > 0 {
        lemma_one_of(states, sort, (n - 1) as nat);
    }
}

proof fn lemma_total(states: Seq<GraphState>, adds: spec_fn(GraphState, int) -> int, n: nat)
    requires
        forall|state: GraphState, i: int| #[trigger] adds(state, i) >= 0,
    ensures
        state_total(states, adds, n) >= 0,
    decreases n,
{
    if n > 0 {
        lemma_total(states, adds, (n - 1) as nat);
    }
}

proof fn lemma_codes(codes: Seq<Vec<u8>>, n: nat)
    ensures
        code_total(codes, n) >= 0,
    decreases n,
{
    if n > 0 {
        lemma_codes(codes, (n - 1) as nat);
    }
}

#[verifier::rlimit(40)]
fn storage_report(
    tree: &PublicTree,
    oop_combos: usize,
    ip_combos: usize,
    plans: &Vec<ParallelStatePlan>,
) -> (r: ParallelCfrStorageReport)
    requires
        forall|i: int|
            0 <= i < plans@.len() ==> {
                let plan = #[trigger] plans@[i];
                &&& plan.state.node_id < tree.nodes@.len()
                &&& plan.parallel_cut == is_cut(tree.nodes@, plan.state)
                &&& plan.cfvalue_storage_player == storage_player(tree.nodes@, plan.state, i)
            },
    ensures
        is_report(
            tree.nodes@,
            states_of(plans@),
            oop_combos as int,
            ip_combos as int,
            r,
            plans@.len(),
        ),
{
    let ghost nodes = tree.nodes@;
    let ghost states = states_of(plans@);
    let ghost oop = oop_combos as int;
    let ghost ip = ip_combos as int;
    let mut report = ParallelCfrStorageReport {
        nodes: tree.nodes.len(),
        decision_nodes: 0,
        chance_nodes: 0,
        terminal_nodes: 0,
        action_slots: 0,
        strategy_slots: 0,
        regret_slots: 0,
        ip_cfvalue_slots: 0,
        chance_cfvalue_slots: 0,
        scratch_value_slots: 0,
        parallel_cut_nodes: 0,
        max_parallel_fanout: 0,
        concrete_chance_events: 0,
        representative_chance_events: 0,
        chance_permutation_members: 0,
    };
    for i in 0..plans.len()
        invariant
            nodes == tree.nodes@,
            states == states_of(plans@),
            states.len() == plans@.len(),
            oop == oop_combos,
            ip == ip_combos,
            forall|j: int|
                0 <= j < plans@.len() ==> {
                    let plan = #[trigger] plans@[j];
                    &&& plan.state.node_id < nodes.len()
                    &&& plan.parallel_cut == is_cut(nodes, plan.state)
                    &&& plan.cfvalue_storage_player == storage_player(nodes, plan.state, j)
                },
            is_report(nodes, states, oop, ip, report, i as nat),
    {
        let ghost before = report;
        let plan: &ParallelStatePlan = &plans[i];
        proof {
            assert(states[i as int] == plan.state);
            let sort = |kind: spec_fn(PublicNodeKind) -> bool|
                one_of(|state: GraphState| kind(nodes[state.node_id as int].kind));
            let n = i as nat;
            let by_kind = |kind: spec_fn(PublicNodeKind) -> bool|
                (|state: GraphState| kind(nodes[state.node_id as int].kind));
            lemma_one_of(states, by_kind(|kind: PublicNodeKind| kind is Decision), n);
            lemma_one_of(states, by_kind(|kind: PublicNodeKind| kind is Chance), n);
            lemma_one_of(states, by_kind(|kind: PublicNodeKind| kind is Terminal), n);
            lemma_one_of(states, |state: GraphState| is_cut(nodes, state), n);
            assert forall|state: GraphState, j: int| #[trigger]
                slots_added(nodes, oop, ip)(state, j) >= 0 by {
                if let PublicNodeKind::Decision { player, actions } = nodes[state.node_id as int].kind {
                    let combos = if player == Player::Oop {
                        oop
                    } else {
                        ip
                    };
                    assert(combos * actions@.len() >= 0) by (nonlinear_arith)
                        requires
                            combos >= 0,
                            actions@.len() >= 0,
                    ;
                }
            }
            lemma_total(states, slots_added(nodes, oop, ip), n);
            lemma_total(states, ip_values_added(nodes, ip), n);
            lemma_total(states, chance_values_added(nodes, oop, ip), n);
            lemma_total(states, events_added(nodes), n);
            lemma_total(states, classes_added(nodes), n);
            assert forall|state: GraphState, j: int| #[trigger]
                members_added(nodes)(state, j) >= 0 by {
                lemma_codes(
                    state.chance_permutation_codes@,
                    state.chance_permutation_codes@.len(),
                );
            }
            lemma_total(states, members_added(nodes), n);
        }
        report.max_parallel_fanout = max_usize(
            report.max_parallel_fanout,
            plan.state.children.len(),
        );
        if plan.parallel_cut {
            report.parallel_cut_nodes = report.parallel_cut_nodes + 1;
        }
        match &tree.nodes[plan.state.node_id].kind {
            PublicNodeKind::Decision { player, actions } => {
                report.decision_nodes = report.decision_nodes + 1;
                let combos: usize = match player {
                    Player::Oop => oop_combos,
                    Player::Ip => ip_combos,
                };
                let slots: usize = bounded_product(combos, actions.len());
                report.action_slots = bounded_sum(report.action_slots, slots);
                report.strategy_slots = report.action_slots;
                report.regret_slots = report.action_slots;
                if let Some(Player::Ip) = plan.cfvalue_storage_player {
                    report.ip_cfvalue_slots = bounded_sum(report.ip_cfvalue_slots, ip_combos);
                }
            },
            PublicNodeKind::Chance(_) => {
                report.chance_nodes = report.chance_nodes + 1;
                report.concrete_chance_events = bounded_sum(
                    report.concrete_chance_events,
                    plan.state.chance_concrete_events,
                );
                report.representative_chance_events = bounded_sum(
                    report.representative_chance_events,
                    plan.state.children.len(),
                );
                report.chance_permutation_members = bounded_sum(
                    report.chance_permutation_members,
                    count_codes(&plan.state.chance_permutation_codes),
                );
                let combos: usize = match tree.nodes[plan.state.node_id].state.player {
                    Player::Oop => ip_combos,
                    Player::Ip => oop_combos,
                };
                report.chance_cfvalue_slots = bounded_sum(report.chance_cfvalue_slots, combos);
                report.scratch_value_slots = report.chance_cfvalue_slots;
            },
            PublicNodeKind::Terminal { .. } => {
                report.terminal_nodes = report.terminal_nodes + 1;
            },
        }
    }
    report
}

/// A plan of a solve in parallel parts.
#[derive(Clone, Debug)]
pub struct ParallelCfrSolver {
    pub oop_combos: usize,
    pub ip_combos: usize,
    pub states: Vec<ParallelStatePlan>,
    pub storage: ParallelCfrStorageReport,
}

/// The intervals of the first `n` plans at which a solve can be cut.
pub open spec fn cut_ranges(plans: Seq<ParallelStatePlan>, n: nat) -> Seq<(usize, usize)>
    decreases n,
{
    if n == 0 {
        Seq::empty()
    } else {
        let front = cut_ranges(plans, (n - 1) as nat);
        let plan = plans[n - 1];
        if plan.parallel_cut {
            front.push((plan.subtree_start_postorder, plan.subtree_end_postorder))
        } else {
            front
        }
    }
}

impl ParallelCfrSolver {
    /// Whether the plan is that of a tree and ranges.
    pub open spec fn plans<S: Scalar>(
        self,
        tree: PublicTree,
        oop: Seq<ComboWeight<S>>,
        ip: Seq<ComboWeight<S>>,
    ) -> bool {
        let states = states_of(self.states@);
        &&& is_graph(false, tree, oop, ip, states)
        &&& self.oop_combos == oop.len()
        &&& self.ip_combos == ip.len()
        &&& forall|i: int|
            0 <= i < self.states@.len() ==> is_planned(
                tree.nodes@,
                states,
                #[trigger] self.states@[i],
                i,
            )
        &&& is_report(
            tree.nodes@,
            states,
            oop.len() as int,
            ip.len() as int,
            self.storage,
            states.len(),
        )
    }

    /// The plan of a solve of a tree.
    pub fn new<S: Scalar>(tree: &PublicTree, oop_range: &RangeSpec<S>, ip_range: &RangeSpec<S>) -> (r:
        Result<Self, String>)
        requires
            is_shaped(*tree),
        ensures
            match r {
                Ok(solver) => solver.plans(*tree, oop_range.combos_spec(), ip_range.combos_spec()),
                Err(_) => false,
            },
    {
        let states: Vec<GraphState> = collect_states(tree, oop_range, ip_range, false);
        let ghost all = states@;
        let ghost nodes = tree.nodes@;
        let count: usize = states.len();
        let node_count: usize = tree.nodes.len();
        proof {
            lemma_goes_down(false, *tree, oop_range.combos_spec(), ip_range.combos_spec(), all);
        }
        let mut visited: Vec<bool> = Vec::new();
        for i in 0..count
            invariant
                visited@.len() == i,
                forall|j: int| 0 <= j < i ==> !(#[trigger] visited@[j]),
        {
            visited.push(false);
        }
        let mut list: Vec<usize> = Vec::new();
        proof {
            assert(list@ =~= Seq::empty());
            assert forall|j: int| 0 <= j < visited@.len() implies #[trigger] visited@[j] == Set::<
                int,
            >::empty().contains(j) by {}
        }
        let Ghost(seen): Ghost<Set<int>> = build_state_postorder(
            &states,
            node_count,
            0,
            &mut visited,
            &mut list,
            Ghost(Set::<int>::empty()),
        );
        proof {
            assert((seen, list@) == walk(
                all,
                nodes.len(),
                0,
                Set::<int>::empty(),
                Seq::<usize>::empty(),
            ));
            assert(list@ == postorder_list(all, nodes.len()));
            postorder_lists_once(all, nodes.len());
        }
        let order: Vec<usize> = number_states(&list, count);
        let mut plans: Vec<ParallelStatePlan> = Vec::new();
        let mut starts: Vec<usize> = Vec::new();
        for i in 0..count
            invariant
                count == states@.len(),
                goes_down(states@, node_count as nat),
                order@.len() == states@.len(),
                starts@.len() == i,
                forall|j: int|
                    0 <= j < i ==> #[trigger] starts@[j] == subtree_start(
                        states@,
                        node_count as nat,
                        order@,
                        j,
                    ),
        {
            starts.push(state_subtree_start_postorder(&states, node_count, &order, i));
        }
        let mut rest: Vec<GraphState> = states;
        let mut reversed: Vec<GraphState> = Vec::new();
        while rest.len() > 0
            invariant
                rest@.len() + reversed@.len() == count,
                all.len() == count,
                rest@ =~= all.take(rest@.len() as int),
                forall|j: int|
                    0 <= j < reversed@.len() ==> #[trigger] reversed@[j] == all[count - 1 - j],
            decreases rest@.len(),
        {
            let ghost was = rest@;
            match rest.pop() {
                Some(state) => {
                    proof {
                        assert(state == was.last());
                    }
                    reversed.push(state);
                },
                None => {},
            }
        }
        let mut i: usize = 0;
        while reversed.len() > 0
            invariant
                is_shaped(*tree),
                nodes == tree.nodes@,
                is_graph(false, *tree, oop_range.combos_spec(), ip_range.combos_spec(), all),
                goes_down(all, nodes.len()),
                all.len() == count,
                order@.len() == count,
                starts@.len() == count,
                order@ == places(postorder_list(all, nodes.len()), all.len()),
                forall|j: int| 0 <= j < count ==> #[trigger] order@[j] < count,
                forall|j: int|
                    0 <= j < count ==> #[trigger] starts@[j] == subtree_start(
                        all,
                        nodes.len(),
                        order@,
                        j,
                    ),
                i + reversed@.len() == count,
                plans@.len() == i,
                forall|j: int|
                    0 <= j < reversed@.len() ==> #[trigger] reversed@[j] == all[count - 1 - j],
                forall|j: int| 0 <= j < i ==> is_planned(nodes, all, #[trigger] plans@[j], j),
            decreases reversed@.len(),
        {
            let ghost was = reversed@;
            match reversed.pop() {
                Some(state) => {
                    proof {
                        assert(state == was.last());
                        assert(state == all[i as int]);
                        assert(is_expanded(
                            false,
                            nodes,
                            oop_range.combos_spec(),
                            ip_range.combos_spec(),
                            all,
                            i as int,
                        ));
                        assert(is_shaped_at(nodes, state.node_id as int));
                        assert(order@[i as int] < count);
                    }
                    let node: &PublicNode = &tree.nodes[state.node_id];
                    let open: bool = state.board.len() < 5 && state.children.len() > 1;
                    let (parallel_cut, acting_player, cfvalue_storage_player): (
                        bool,
                        Option<Player>,
                        Option<Player>,
                    ) = match &node.kind {
                        PublicNodeKind::Decision { player, actions } => {
                            let stores: bool = i == 0 || (node.children.len() > 0
                                && tree.nodes[node.children[0]].state.street != node.state.street);
                            (
                                open,
                                Some(*player),
                                if stores {
                                    Some(Player::Ip)
                                } else {
                                    None
                                },
                            )
                        },
                        PublicNodeKind::Chance(_) => (
                            open,
                            None,
                            if node.children.len() == 0 {
                                None
                            } else {
                                Some(node.state.player.other())
                            },
                        ),
                        PublicNodeKind::Terminal { .. } => (false, None, None),
                    };
                    let postorder: usize = order[i];
                    let plan = ParallelStatePlan {
                        state,
                        postorder,
                        subtree_start_postorder: starts[i],
                        subtree_end_postorder: postorder + 1,
                        parallel_cut,
                        acting_player,
                        cfvalue_storage_player,
                    };
                    plans.push(plan);
                    i = i + 1;
                },
                None => {},
            }
        }
        proof {
            assert(states_of(plans@) =~= all) by {
                assert forall|j: int| 0 <= j < all.len() implies states_of(plans@)[j] == all[j] by {
                    assert(is_planned(nodes, all, plans@[j], j));
                }
            }
            assert forall|j: int| 0 <= j < plans@.len() implies {
                let plan = #[trigger] plans@[j];
                &&& plan.state.node_id < nodes.len()
                &&& plan.parallel_cut == is_cut(nodes, plan.state)
                &&& plan.cfvalue_storage_player == storage_player(nodes, plan.state, j)
            } by {
                assert(is_planned(nodes, all, plans@[j], j));
                assert(all[j].node_id < nodes.len());
            }
        }
        let oop_combos: usize = oop_range.combos().len();
        let ip_combos: usize = ip_range.combos().len();
        let storage: ParallelCfrStorageReport = storage_report(tree, oop_combos, ip_combos, &plans);
        Ok(ParallelCfrSolver { oop_combos, ip_combos, states: plans, storage })
    }

    /// What the solve stores.
    pub fn storage_report(&self) -> (r: ParallelCfrStorageReport)
        ensures
            r == self.storage,
    {
        self.storage
    }

    /// How many nodes the tree has.
    pub fn node_count(&self) -> (r: usize)
        ensures
            r == self.storage.nodes,
    {
        self.storage.nodes
    }

    /// How many hands each range has.
    pub fn combo_counts(&self) -> (r: (usize, usize))
        ensures
            r == (self.oop_combos, self.ip_combos),
    {
        (self.oop_combos, self.ip_combos)
    }

    /// The intervals of numbers below the states at which the solve can be cut.
    pub fn parallel_cut_subtree_postorder_ranges(&self) -> (r: Vec<(usize, usize)>)
        ensures
            r@ == cut_ranges(self.states@, self.states@.len()),
    {
        let mut ranges: Vec<(usize, usize)> = Vec::new();
        for i in 0..self.states.len()
            invariant
                ranges@ == cut_ranges(self.states@, i as nat),
        {
            let plan: &ParallelStatePlan = &self.states[i];
            if plan.parallel_cut {
                ranges.push((plan.subtree_start_postorder, plan.subtree_end_postorder));
            }
        }
        ranges
    }
}

/// Whether a list names states of a set, each once.
spec fn is_listing(states: Seq<GraphState>, seen: Set<int>, list: Seq<usize>) -> bool {
    &&& forall|p: int| 0 <= p < list.len() ==> #[trigger] list[p] < states.len()
    &&& forall|p: int| 0 <= p < list.len() ==> seen.contains(#[trigger] list[p] as int)
    &&& forall|p: int, q: int| 0 <= p < q < list.len() ==> #[trigger] list[p] != #[trigger] list[q]
}

proof fn lemma_walk(
    states: Seq<GraphState>,
    nodes: nat,
    i: int,
    seen: Set<int>,
    list: Seq<usize>,
)
    requires
        goes_down(states, nodes),
        states.len() <= usize::MAX,
        0 <= i < states.len(),
        is_listing(states, seen, list),
    ensures
        is_listing(
            states,
            walk(states, nodes, i, seen, list).0,
            walk(states, nodes, i, seen, list).1,
        ),
        seen.subset_of(walk(states, nodes, i, seen, list).0),
        forall|x: int|
            #[trigger] walk(states, nodes, i, seen, list).0.contains(x) && !seen.contains(x)
                ==> states[x].node_id >= states[i].node_id,
        forall|p: int|
            list.len() <= p < walk(states, nodes, i, seen, list).1.len() ==> !seen.contains(
                #[trigger] walk(states, nodes, i, seen, list).1[p] as int,
            ),
        list.len() <= walk(states, nodes, i, seen, list).1.len(),
        forall|p: int|
            0 <= p < list.len() ==> #[trigger] walk(states, nodes, i, seen, list).1[p] == list[p],
    decreases nodes - states[i].node_id, 1nat, 0nat,
{
    if !seen.contains(i) {
        let inner = seen.insert(i);
        let count = states[i].children@.len();
        lemma_walk_children(states, nodes, i, count, inner, list);
        let (s, l) = walk_children(states, nodes, i, count, inner, list);
        let done = l.push(i as usize);
        assert forall|p: int, q: int| 0 <= p < q < done.len() implies #[trigger] done[p]
            != #[trigger] done[q] by {
            if q == l.len() {
                if p < list.len() {
                    assert(l[p] == list[p]);
                    assert(seen.contains(list[p] as int));
                } else {
                    assert(!inner.contains(l[p] as int));
                }
            }
        }
    }
}

proof fn lemma_walk_children(
    states: Seq<GraphState>,
    nodes: nat,
    i: int,
    k: nat,
    seen: Set<int>,
    list: Seq<usize>,
)
    requires
        goes_down(states, nodes),
        states.len() <= usize::MAX,
        0 <= i < states.len(),
        k <= states[i].children@.len(),
        is_listing(states, seen, list),
    ensures
        is_listing(
            states,
            walk_children(states, nodes, i, k, seen, list).0,
            walk_children(states, nodes, i, k, seen, list).1,
        ),
        seen.subset_of(walk_children(states, nodes, i, k, seen, list).0),
        forall|x: int|
            #[trigger] walk_children(states, nodes, i, k, seen, list).0.contains(x)
                && !seen.contains(x) ==> states[x].node_id > states[i].node_id,
        forall|p: int|
            list.len() <= p < walk_children(states, nodes, i, k, seen, list).1.len()
                ==> !seen.contains(
                #[trigger] walk_children(states, nodes, i, k, seen, list).1[p] as int,
            ),
        list.len() <= walk_children(states, nodes, i, k, seen, list).1.len(),
        forall|p: int|
            0 <= p < list.len() ==> #[trigger] walk_children(states, nodes, i, k, seen, list).1[p]
                == list[p],
    decreases nodes - states[i].node_id, 0nat, k,
{
    if k > 0 {
        lemma_walk_children(states, nodes, i, (k - 1) as nat, seen, list);
        let (s, l) = walk_children(states, nodes, i, (k - 1) as nat, seen, list);
        let child = states[i].children@[k - 1] as int;
        lemma_walk(states, nodes, child, s, l);
    }
}

/// The list of a graph in postorder names states of the graph, and none of them twice.
pub proof fn postorder_lists_once(states: Seq<GraphState>, nodes: nat)
    requires
        goes_down(states, nodes),
        0 < states.len() <= usize::MAX,
    ensures
        forall|p: int|
            0 <= p < postorder_list(states, nodes).len() ==> #[trigger] postorder_list(
                states,
                nodes,
            )[p] < states.len(),
        forall|p: int, q: int|
            0 <= p < q < postorder_list(states, nodes).len() ==> #[trigger] postorder_list(
                states,
                nodes,
            )[p] != #[trigger] postorder_list(states, nodes)[q],
        forall|i: int|
            0 <= i < states.len() ==> #[trigger] places(
                postorder_list(states, nodes),
                states.len(),
            )[i] < states.len(),
{
    lemma_walk(states, nodes, 0, Set::empty(), Seq::empty());
    let list = postorder_list(states, nodes);
    lemma_list_short(list, states.len());
    assert forall|i: int| 0 <= i < states.len() implies #[trigger] places(list, states.len())[i]
        < states.len() by {
        lemma_place_bound(list, i);
    }
}

proof fn lemma_place_bound(list: Seq<usize>, state: int)
    requires
        list.len() <= usize::MAX,
    ensures
        list.len() > 0 ==> place_of(list, state) < list.len(),
        list.len() == 0 ==> place_of(list, state) == 0,
    decreases list.len(),
{
    if list.len() > 0 {
        lemma_place_bound(list.drop_last(), state);
    }
}

/// A list of different numbers below a bound is not longer than the bound.
proof fn lemma_list_short(list: Seq<usize>, bound: nat)
    requires
        forall|p: int| 0 <= p < list.len() ==> #[trigger] list[p] < bound,
        forall|p: int, q: int| 0 <= p < q < list.len() ==> #[trigger] list[p] != #[trigger] list[q],
    ensures
        list.len() <= bound,
{
    assert(list.no_duplicates());
    list.unique_seq_to_set();
    let all = vstd::set_lib::set_int_range(0, bound as int);
    vstd::set_lib::lemma_int_range(0, bound as int);
    let numbers = list.map_values(|v: usize| v as int);
    assert(numbers.no_duplicates());
    numbers.unique_seq_to_set();
    assert(numbers.to_set().subset_of(all)) by {
        assert forall|v: int| numbers.to_set().contains(v) implies all.contains(v) by {
            let p = choose|p: int| 0 <= p < numbers.len() && numbers[p] == v;
            assert(list[p] < bound);
        }
    }
    vstd::set_lib::lemma_len_subset(numbers.to_set(), all);
}

} // verus!
