//! The states of a solver's tree in an order in which they can be worked on side by side: by how far they
//! are from the end, then by where their numbers stand.
use vstd::prelude::*;
use crate::boards::{boards_are, completions, member_codes, terminal_boards};
use crate::cards::{deck_without, mask_of, Board, Card};
use crate::isomorphism::next_card_classes;
use crate::real_setup::{board_count_of, RealSetup};
use crate::real_terminal::ref_views;
use crate::scalar::Scalar;
use crate::sorting::{comes_before, is_sorting, sorted_positions, sorting_is_injective, SortKey};
use crate::state_graph::{
    chance_child, collect_states, decision_child, has_parent, is_expanded, is_graph, key_of_board,
    GraphState,
};
use crate::terminal_cache::TerminalCacheRef;
use crate::tree::{PublicNode, PublicNodeKind, TerminalReason};
use crate::tree_shape::is_shaped_at;

verus! {

/// A node on a board, with all that a solver needs to know of it.
#[derive(Clone, Debug)]
pub struct PhaseState {
    pub node_id: usize,
    pub board: Board,
    pub board_slot: usize,
    pub children: Vec<usize>,
    pub chance_member_permutation_codes: Vec<Vec<u8>>,
    pub chance_concrete_events: usize,
    pub terminal_cache_indices: Vec<usize>,
    pub terminal_cache_refs: Vec<TerminalCacheRef>,
}

/// What follows each state.
pub open spec fn kids(states: Seq<PhaseState>) -> Seq<Seq<usize>> {
    states.map(|i: int, state: PhaseState| state.children@)
}

/// What follows each state of a graph.
pub open spec fn graph_kids(states: Seq<GraphState>) -> Seq<Seq<usize>> {
    states.map(|i: int, state: GraphState| state.children@)
}

/// Whether everything that follows a state stands behind it.
pub open spec fn goes_on(kids: Seq<Seq<usize>>) -> bool {
    forall|i: int, k: int|
        0 <= i < kids.len() && 0 <= k < kids[i].len() ==> i < #[trigger] kids[i][k] < kids.len()
}

/// How many steps lead from a state to the end, at most.
pub open spec fn level(kids: Seq<Seq<usize>>, i: int) -> nat
    decreases kids.len() - i, 1int, 0int,
{
    level_among(kids, i, kids[i].len())
}

/// How many steps lead from a state to the end by way of one of the first `n` that follow it.
pub open spec fn level_among(kids: Seq<Seq<usize>>, i: int, n: nat) -> nat
    decreases kids.len() - i, 0int, n,
{
    if n == 0 {
        0
    } else {
        let front = level_among(kids, i, (n - 1) as nat);
        let child = kids[i][n - 1] as int;
        if i < child < kids.len() {
            let below = level(kids, child) + 1;
            if below > front {
                below
            } else {
                front
            }
        } else {
            front
        }
    }
}

/// A state is farther from the end than what follows it, and at the end exactly if nothing does.
pub proof fn level_facts(kids: Seq<Seq<usize>>, i: int)
    requires
        goes_on(kids),
        0 <= i < kids.len(),
    ensures
        level(kids, i) < kids.len() - i,
        forall|k: int|
            0 <= k < kids[i].len() ==> level(kids, #[trigger] kids[i][k] as int) < level(kids, i),
        level(kids, i) == 0 <==> kids[i].len() == 0,
    decreases kids.len() - i, 1int, 0int,
{
    lemma_level_among(kids, i, kids[i].len());
}

proof fn lemma_level_among(kids: Seq<Seq<usize>>, i: int, n: nat)
    requires
        goes_on(kids),
        0 <= i < kids.len(),
        n <= kids[i].len(),
    ensures
        level_among(kids, i, n) < kids.len() - i,
        forall|k: int|
            0 <= k < n ==> level(kids, #[trigger] kids[i][k] as int) < level_among(kids, i, n),
        level_among(kids, i, n) == 0 <==> n == 0,
    decreases kids.len() - i, 0int, n,
{
    if n > 0 {
        lemma_level_among(kids, i, (n - 1) as nat);
        assert(i < kids[i][n - 1] < kids.len());
        level_facts(kids, kids[i][n - 1] as int);
    }
}

/// How many steps lead from each state to the end.
pub fn phase_state_levels(states: &[PhaseState]) -> (r: Vec<usize>)
    requires
        goes_on(kids(states@)),
    ensures
        r@.len() == states@.len(),
        forall|i: int| 0 <= i < r@.len() ==> #[trigger] r@[i] == level(kids(states@), i),
{
    let mut lists: Vec<&Vec<usize>> = Vec::new();
    for i in 0..states.len()
        invariant
            lists@.len() == i,
            forall|k: int| 0 <= k < i ==> #[trigger] lists@[k]@ == kids(states@)[k],
    {
        lists.push(&states[i].children);
    }
    levels_of(&lists, Ghost(kids(states@)))
}

fn levels_of(lists: &Vec<&Vec<usize>>, Ghost(kids): Ghost<Seq<Seq<usize>>>) -> (r: Vec<usize>)
    requires
        goes_on(kids),
        lists@.len() == kids.len(),
        forall|k: int| 0 <= k < kids.len() ==> #[trigger] lists@[k]@ == kids[k],
    ensures
        r@.len() == kids.len(),
        forall|i: int| 0 <= i < r@.len() ==> #[trigger] r@[i] == level(kids, i),
{
    let count: usize = lists.len();
    let mut levels: Vec<usize> = Vec::new();
    for i in 0..count
        invariant
            levels@.len() == i,
    {
        levels.push(0);
    }
    let mut at: usize = count;
    while at > 0
        invariant
            at <= count,
            count == kids.len(),
            goes_on(kids),
            lists@.len() == kids.len(),
            forall|k: int| 0 <= k < kids.len() ==> #[trigger] lists@[k]@ == kids[k],
            levels@.len() == count,
            forall|i: int| at <= i < count ==> #[trigger] levels@[i] == level(kids, i),
        decreases at,
    {
        at = at - 1;
        let list: &Vec<usize> = lists[at];
        let mut most: usize = 0;
        for k in 0..list.len()
            invariant
                at < count,
                count == kids.len(),
                goes_on(kids),
                list@ == kids[at as int],
                levels@.len() == count,
                forall|i: int| at < i < count ==> #[trigger] levels@[i] == level(kids, i),
                most == level_among(kids, at as int, k as nat),
        {
            let child: usize = list[k];
            proof {
                assert(at < kids[at as int][k as int] < kids.len());
                level_facts(kids, child as int);
            }
            let below: usize = levels[child] + 1;
            if below > most {
                most = below;
            }
        }
        levels.set(at, most);
    }
    levels
}

/// Whether a state of a list is a node on a board.
pub open spec fn follows(states: Seq<PhaseState>, state: int, node_id: usize, board: Seq<Card>) -> bool {
    &&& 0 <= state < states.len()
    &&& states[state].node_id == node_id
    &&& states[state].board@ == board
}

/// Whether a node ends in a comparison of hands.
pub open spec fn compares(node: PublicNode) -> bool {
    node.kind matches PublicNodeKind::Terminal { reason } && reason != TerminalReason::Fold
}

impl<S: Scalar> RealSetup<S> {
    /// Where the numbers of a state stand, if it has any.
    pub open spec fn slot_range(self, state: PhaseState) -> Option<(int, int)> {
        if self.infosets@[state.node_id as int] is Some {
            let start = self.row_start(state.node_id as int, state.board_slot as int);
            Some((start, start + self.row_len(state.node_id as int)))
        } else {
            None
        }
    }

    /// The places of the prepared boards of all finished boards that a board can become.
    pub open spec fn cache_indices(self, board: Seq<Card>) -> Seq<usize> {
        completions(board).map(
            |k: int, finished: Seq<Card>| self.terminal_cache_index_by_key@[mask_of(finished)],
        )
    }

    /// Whether a state of a list is as its node and its board call for.
    pub open spec fn is_phase_state(self, states: Seq<PhaseState>, i: int) -> bool {
        let state = states[i];
        let node = self.tree.nodes@[state.node_id as int];
        let codes = state.chance_member_permutation_codes@;
        &&& self.plays(state.node_id as int, state.board)
        &&& state.board_slot == self.slot(state.board@)
        &&& match node.kind {
            PublicNodeKind::Decision { player, actions } => {
                &&& state.children@.len() == node.children@.len()
                &&& codes.len() == 0
                &&& state.chance_concrete_events == 0
                &&& forall|k: int|
                    0 <= k < state.children@.len() ==> follows(
                        states,
                        #[trigger] state.children@[k] as int,
                        node.children@[k],
                        state.board@,
                    )
            },
            PublicNodeKind::Chance(chance) => if node.children@.len() == 0 {
                &&& state.children@.len() == 0
                &&& codes.len() == 0
                &&& state.chance_concrete_events == 0
            } else {
                let classes = next_card_classes(state.board@, self.oop(), self.ip());
                &&& state.children@.len() == classes.len()
                &&& codes.len() == classes.len()
                &&& state.chance_concrete_events == deck_without(state.board@).len()
                &&& forall|k: int|
                    0 <= k < state.children@.len() ==> follows(
                        states,
                        #[trigger] state.children@[k] as int,
                        node.children@[0],
                        state.board@.push(classes[k].representative),
                    )
                &&& forall|k: int|
                    0 <= k < codes.len() ==> (#[trigger] codes[k])@ == member_codes(classes[k].members)
            },
            PublicNodeKind::Terminal { reason } => {
                &&& state.children@.len() == 0
                &&& codes.len() == 0
                &&& state.chance_concrete_events == 0
            },
        }
        &&& if compares(node) {
            &&& ref_views(state.terminal_cache_refs@) == self.refs(state.board@)
            &&& state.terminal_cache_indices@ == self.cache_indices(state.board@)
        } else {
            &&& state.terminal_cache_refs@.len() == 0
            &&& state.terminal_cache_indices@.len() == 0
        }
    }

    /// By what states are ordered: the farther from the end the earlier, then those with numbers by where
    /// these stand, then those without.
    pub open spec fn state_key(self, states: Seq<PhaseState>, i: int) -> SortKey {
        self.key_at(
            states.len(),
            level(kids(states), i),
            self.slot_range(states[i]),
        )
    }

    /// The key of a state at a level with numbers at a place.
    pub open spec fn key_at(self, count: nat, level: nat, range: Option<(int, int)>) -> SortKey {
        match range {
            Some((start, end)) => SortKey {
                first: (count - level) as u64,
                second: 0,
                third: start as u64,
                fourth: end as u64,
            },
            None => SortKey {
                first: (count - level) as u64,
                second: 1,
                third: u64::MAX,
                fourth: u64::MAX,
            },
        }
    }

    /// Whether states are those of the tree: the root first, each followed by what its node calls for,
    /// each but the root following one, none twice, in order.
    pub open spec fn is_phase(self, states: Seq<PhaseState>) -> bool {
        &&& 0 < states.len() <= usize::MAX
        &&& states[0].node_id == 0
        &&& states[0].board@ == self.flop_board@
        &&& forall|i: int| 0 <= i < states.len() ==> #[trigger] self.is_phase_state(states, i)
        &&& goes_on(kids(states))
        &&& forall|i: int| 0 < i < states.len() ==> #[trigger] is_followed(states, i)
        &&& forall|i: int, j: int|
            0 <= i < j < states.len() ==> !(#[trigger] states[i].node_id == #[trigger] states[j].node_id
                && states[i].board@ == states[j].board@)
        &&& forall|i: int, j: int|
            0 <= i < j < states.len() ==> #[trigger] self.in_order(states, i, j)
    }

    /// Whether a state may stand before another.
    pub open spec fn in_order(self, states: Seq<PhaseState>, i: int, j: int) -> bool {
        !self.state_key(states, j).less(self.state_key(states, i))
    }
}

/// Whether a state follows one of the states before it.
pub open spec fn is_followed(states: Seq<PhaseState>, i: int) -> bool {
    exists|j: int, k: int|
        0 <= j < i && 0 <= k < states[j].children@.len() && #[trigger] states[j].children@[k] == i
}

/// Every board of the graph is known.
pub proof fn lemma_graph_knows<S: Scalar>(setup: RealSetup<S>, states: Seq<GraphState>, i: int)
    requires
        setup.wf(),
        is_graph(true, setup.tree, setup.oop(), setup.ip(), states),
        0 <= i < states.len(),
    ensures
        setup.plays(states[i].node_id as int, states[i].board),
    decreases i,
{
    let nodes = setup.tree.nodes@;
    let (oop, ip) = (setup.oop(), setup.ip());
    assert(is_expanded(true, nodes, oop, ip, states, i));
    if i > 0 {
        assert(has_parent(states, i));
        let (j, k) = choose|j: int, k: int|
            0 <= j < i && 0 <= k < states[j].children@.len() && #[trigger] states[j].children@[k] == i;
        lemma_graph_knows(setup, states, j);
        assert(is_expanded(true, nodes, oop, ip, states, j));
        let node = nodes[states[j].node_id as int];
        assert(is_shaped_at(nodes, states[j].node_id as int));
        match node.kind {
            PublicNodeKind::Decision { player, actions } => {
                assert(decision_child(true, nodes, states, j, k));
            },
            PublicNodeKind::Chance(chance) => {
                assert(chance_child(
                    true,
                    nodes,
                    states,
                    j,
                    k,
                    next_card_classes(states[j].board@, oop, ip)[k],
                ));
                setup.knows_next(states[j].board@, k);
            },
            PublicNodeKind::Terminal { reason } => {},
        }
    }
}

/// No state is farther from the end than the root.
proof fn lemma_root_is_farthest(states: Seq<GraphState>, i: int)
    requires
        goes_on(graph_kids(states)),
        forall|k: int| 0 < k < states.len() ==> #[trigger] has_parent(states, k),
        0 < i < states.len(),
    ensures
        level(graph_kids(states), i) < level(graph_kids(states), 0),
    decreases i,
{
    let all = graph_kids(states);
    assert(has_parent(states, i));
    let (j, k) = choose|j: int, k: int|
        0 <= j < i && 0 <= k < states[j].children@.len() && #[trigger] states[j].children@[k] == i;
    level_facts(all, j);
    assert(all[j][k] == i);
    if j > 0 {
        lemma_root_is_farthest(states, j);
    }
}

/// Whether states are those of a graph in another order, with what follows renamed.
pub open spec fn is_renamed(
    graph: Seq<GraphState>,
    order: Seq<usize>,
    states: Seq<PhaseState>,
) -> bool {
    &&& order.len() == graph.len()
    &&& states.len() == graph.len()
    &&& forall|n: int|
        0 <= n < states.len() ==> {
            let was = graph[order[n] as int];
            &&& (#[trigger] states[n]).node_id == was.node_id
            &&& states[n].board == was.board
            &&& states[n].children@.len() == was.children@.len()
            &&& forall|k: int|
                0 <= k < was.children@.len() ==> {
                    &&& #[trigger] states[n].children@[k] < order.len()
                    &&& order[states[n].children@[k] as int] == was.children@[k]
                }
        }
}

/// Renaming keeps the distance from the end.
proof fn lemma_renamed_level(
    graph: Seq<GraphState>,
    order: Seq<usize>,
    states: Seq<PhaseState>,
    n: int,
)
    requires
        is_renamed(graph, order, states),
        goes_on(graph_kids(graph)),
        goes_on(kids(states)),
        forall|i: int| 0 <= i < order.len() ==> #[trigger] order[i] < order.len(),
        0 <= n < states.len(),
    ensures
        level(kids(states), n) == level(graph_kids(graph), order[n] as int),
    decreases graph.len() - order[n], 1int, 0int,
{
    lemma_renamed_among(graph, order, states, n, states[n].children@.len());
}

proof fn lemma_renamed_among(
    graph: Seq<GraphState>,
    order: Seq<usize>,
    states: Seq<PhaseState>,
    n: int,
    m: nat,
)
    requires
        is_renamed(graph, order, states),
        goes_on(graph_kids(graph)),
        goes_on(kids(states)),
        forall|i: int| 0 <= i < order.len() ==> #[trigger] order[i] < order.len(),
        0 <= n < states.len(),
        m <= states[n].children@.len(),
    ensures
        level_among(kids(states), n, m) == level_among(graph_kids(graph), order[n] as int, m),
    decreases graph.len() - order[n], 0int, m,
{
    if m > 0 {
        lemma_renamed_among(graph, order, states, n, (m - 1) as nat);
        let new = kids(states);
        let old = graph_kids(graph);
        let child = states[n].children@[m - 1];
        assert(new[n][m - 1] == child);
        assert(old[order[n] as int][m - 1] == graph[order[n] as int].children@[m - 1]);
        assert(order[child as int] == graph[order[n] as int].children@[m - 1]);
        assert(order[n] < old[order[n] as int][m - 1] < old.len());
        assert(n < new[n][m - 1] < new.len());
        lemma_renamed_level(graph, order, states, child as int);
    }
}

impl<S: Scalar> RealSetup<S> {
    /// Where the numbers of a node on a board stand, if it has any.
    pub fn backup_state_slot_range(&self, node_id: usize, board_slot: usize) -> (r: Option<(usize, usize)>)
        requires
            self.wf(),
            node_id < self.tree.nodes@.len(),
            board_slot < board_count_of(
                self.tree.nodes@[node_id as int].state.board@.len(),
                self.turns().len(),
                self.rivers().len(),
            ),
        ensures
            match r {
                Some((start, end)) => {
                    &&& self.infosets@[node_id as int] is Some
                    &&& start == self.row_start(node_id as int, board_slot as int)
                    &&& end == start + self.row_len(node_id as int)
                    &&& end <= self.action_slots
                },
                None => self.infosets@[node_id as int] is None,
            },
    {
        if self.infosets[node_id].is_some() {
            let (start, row): (usize, usize) = self.row_of(node_id, board_slot);
            Some((start, start + row))
        } else {
            None
        }
    }

    /// The places of the prepared boards of all finished boards that a known board can become.
    pub fn terminal_cache_indices(&self, board: &Board) -> (r: Vec<usize>)
        requires
            self.wf(),
            board.wf(),
            self.knows(board@),
        ensures
            r@ == self.cache_indices(board@),
            forall|k: int| 0 <= k < r@.len() ==> #[trigger] r@[k] < self.terminal_cache@.len(),
    {
        proof {
            self.knows_starts_with_flop(board@);
        }
        let boards: Vec<Board> = match terminal_boards(board) {
            Ok(boards) => boards,
            Err(_) => Vec::new(),
        };
        let mut indices: Vec<usize> = Vec::new();
        for k in 0..boards.len()
            invariant
                self.wf(),
                board.wf(),
                self.knows(board@),
                boards_are(boards@, completions(board@)),
                indices@.len() == k,
                forall|m: int|
                    0 <= m < k ==> #[trigger] indices@[m] == self.cache_indices(board@)[m] && indices@[m]
                        < self.terminal_cache@.len(),
        {
            proof {
                assert(boards@[k as int].wf());
                self.lemma_completion_is_cached(*board, boards@[k as int], k as int);
            }
            let index: usize = match self.terminal_cache_index(&boards[k]) {
                Ok(index) => index,
                Err(_) => 0,
            };
            indices.push(index);
        }
        proof {
            assert(indices@ =~= self.cache_indices(board@));
        }
        indices
    }

    /// Every finished board that a known board can become was prepared.
    pub proof fn lemma_completion_is_cached(self, board: Board, finished: Board, k: int)
        requires
            self.wf(),
            board.wf(),
            self.knows(board@),
            0 <= k < completions(board@).len(),
            finished.wf(),
            finished@ == completions(board@)[k],
        ensures
            self.terminal_cache_index_by_key@.contains_key(mask_of(finished@)),
            self.terminal_cache_index_by_key@[mask_of(finished@)] < self.terminal_cache@.len(),
    {
        self.knows_starts_with_flop(board@);
        finished.wf_facts();
        assert(finished@.len() == 5 && finished@.take(3) =~= board@.take(3));
        self.finished_is_cached(finished@);
    }

    /// A state of the graph with all that a solver needs to know of it.
    fn phase_state(&self, state: &GraphState, children: Vec<usize>) -> (r: PhaseState)
        requires
            self.wf(),
            self.plays(state.node_id as int, state.board),
        ensures
            r.node_id == state.node_id,
            r.board == state.board,
            r.board_slot == self.slot(state.board@),
            r.children == children,
            r.chance_concrete_events == state.chance_concrete_events,
            r.chance_member_permutation_codes@.len() == state.chance_permutation_codes@.len(),
            forall|k: int|
                0 <= k < r.chance_member_permutation_codes@.len() ==> (
                #[trigger] r.chance_member_permutation_codes@[k])@
                    == state.chance_permutation_codes@[k]@,
            ({
                if compares(self.tree.nodes@[state.node_id as int]) {
                    &&& ref_views(r.terminal_cache_refs@) == self.refs(state.board@)
                    &&& r.terminal_cache_indices@ == self.cache_indices(state.board@)
                } else {
                    &&& r.terminal_cache_refs@.len() == 0
                    &&& r.terminal_cache_indices@.len() == 0
                }
            }),
    {
        proof {
            self.knows_has_slot(state.board@);
        }
        let board_slot: usize = match self.board_slot(&state.board) {
            Ok(slot) => slot,
            Err(_) => 0,
        };
        let showdown: bool = match &self.tree.nodes[state.node_id].kind {
            PublicNodeKind::Terminal { reason } => *reason != TerminalReason::Fold,
            _ => false,
        };
        let (refs, indices): (Vec<TerminalCacheRef>, Vec<usize>) = if showdown {
            (self.terminal_cache_refs(&state.board), self.terminal_cache_indices(&state.board))
        } else {
            (Vec::new(), Vec::new())
        };
        let mut codes: Vec<Vec<u8>> = Vec::new();
        for k in 0..state.chance_permutation_codes.len()
            invariant
                codes@.len() == k,
                forall|m: int|
                    0 <= m < k ==> (#[trigger] codes@[m])@ == state.chance_permutation_codes@[m]@,
        {
            let list: &Vec<u8> = &state.chance_permutation_codes[k];
            let mut copy: Vec<u8> = Vec::new();
            for m in 0..list.len()
                invariant
                    copy@ =~= list@.take(m as int),
            {
                copy.push(list[m]);
            }
            proof {
                assert(list@.take(list@.len() as int) =~= list@);
            }
            codes.push(copy);
        }
        PhaseState {
            node_id: state.node_id,
            board: state.board,
            board_slot,
            children,
            chance_member_permutation_codes: codes,
            chance_concrete_events: state.chance_concrete_events,
            terminal_cache_indices: indices,
            terminal_cache_refs: refs,
        }
    }

    /// The keys by which the states of a graph are ordered.
    pub open spec fn graph_key(self, graph: Seq<GraphState>, i: int) -> SortKey {
        self.key_at(
            graph.len(),
            level(graph_kids(graph), i),
            if self.infosets@[graph[i].node_id as int] is Some {
                let start = self.row_start(
                    graph[i].node_id as int,
                    self.slot(graph[i].board@) as int,
                );
                Some((start, start + self.row_len(graph[i].node_id as int)))
            } else {
                None
            },
        )
    }

    /// Whether states are those of the tree's graph in the order of their keys, ties as they were.
    pub open spec fn is_reordering(
        self,
        graph: Seq<GraphState>,
        order: Seq<usize>,
        states: Seq<PhaseState>,
    ) -> bool {
        &&& is_graph(true, self.tree, self.oop(), self.ip(), graph)
        &&& is_sorting(
            Seq::new(graph.len(), |i: int| self.graph_key(graph, i)),
            0,
            graph.len() as int,
            order,
        )
        &&& is_renamed(graph, order, states)
    }

    /// The states of the tree in order.
    pub fn collect_phase_states(&self) -> (r: Vec<PhaseState>)
        requires
            self.wf(),
        ensures
            self.is_phase(r@),
            exists|graph: Seq<GraphState>, order: Seq<usize>| #[trigger]
                self.is_reordering(graph, order, r@),
    {
        let graph: Vec<GraphState> = collect_states(
            &self.tree,
            &self.oop_range,
            &self.ip_range,
            true,
        );
        let count: usize = graph.len();
        let ghost all = graph_kids(graph@);
        proof {
            lemma_graph_goes_on(*self, graph@);
            assert forall|i: int| 0 <= i < graph@.len() implies self.plays(
                (#[trigger] graph@[i]).node_id as int,
                graph@[i].board,
            ) by {
                lemma_graph_knows(*self, graph@, i);
            }
        }
        let mut lists: Vec<&Vec<usize>> = Vec::new();
        for i in 0..count
            invariant
                count == graph@.len(),
                all == graph_kids(graph@),
                lists@.len() == i,
                forall|k: int| 0 <= k < i ==> #[trigger] lists@[k]@ == all[k],
        {
            lists.push(&graph[i].children);
        }
        let levels: Vec<usize> = levels_of(&lists, Ghost(all));
        let mut keys: Vec<SortKey> = Vec::new();
        for i in 0..count
            invariant
                self.wf(),
                count == graph@.len(),
                all == graph_kids(graph@),
                goes_on(all),
                all.len() == count,
                levels@.len() == count,
                forall|k: int| 0 <= k < count ==> #[trigger] levels@[k] == level(all, k),
                forall|k: int|
                    0 <= k < graph@.len() ==> self.plays(
                        (#[trigger] graph@[k]).node_id as int,
                        graph@[k].board,
                    ),
                keys@.len() == i,
                forall|k: int| 0 <= k < i ==> #[trigger] keys@[k] == self.graph_key(graph@, k),
        {
            let state: &GraphState = &graph[i];
            proof {
                assert(self.plays(graph@[i as int].node_id as int, graph@[i as int].board));
                self.knows_has_slot(state.board@);
                level_facts(all, i as int);
            }
            let board_slot: usize = match self.board_slot(&state.board) {
                Ok(slot) => slot,
                Err(_) => 0,
            };
            let first: u64 = (count - levels[i]) as u64;
            let key: SortKey = match self.backup_state_slot_range(state.node_id, board_slot) {
                Some((start, end)) => SortKey {
                    first,
                    second: 0,
                    third: start as u64,
                    fourth: end as u64,
                },
                None => SortKey { first, second: 1, third: u64::MAX, fourth: u64::MAX },
            };
            keys.push(key);
        }
        let order: Vec<usize> = sorted_positions(&keys);
        let ghost sort_keys = Seq::new(graph@.len(), |i: int| self.graph_key(graph@, i));
        proof {
            assert(keys@ =~= sort_keys);
            sorting_is_injective(keys@, 0, keys@.len() as int, order@);
        }
        let mut old_to_new: Vec<usize> = Vec::new();
        for i in 0..count
            invariant
                old_to_new@.len() == i,
        {
            old_to_new.push(0);
        }
        for n in 0..count
            invariant
                count == graph@.len(),
                keys@.len() == count,
                is_sorting(keys@, 0, keys@.len() as int, order@),
                forall|i: int, j: int|
                    0 <= i < order@.len() && 0 <= j < order@.len() && i != j ==> #[trigger] order@[i]
                        != #[trigger] order@[j],
                old_to_new@.len() == count,
                forall|m: int|
                    0 <= m < n ==> old_to_new@[#[trigger] order@[m] as int] == m,
        {
            let ghost was = old_to_new@;
            proof {
                assert(0 <= order@[n as int] < count);
            }
            old_to_new.set(order[n], n);
            proof {
                assert forall|m: int| 0 <= m < n + 1 implies old_to_new@[#[trigger] order@[m] as int]
                    == m by {
                    assert(0 <= order@[m] < count);
                    if m < n {
                        assert(order@[m] != order@[n as int]);
                    }
                }
            }
        }
        let mut states: Vec<PhaseState> = Vec::new();
        for n in 0..count
            invariant
                self.wf(),
                count == graph@.len(),
                all == graph_kids(graph@),
                goes_on(all),
                all.len() == count,
                keys@.len() == count,
                is_sorting(keys@, 0, keys@.len() as int, order@),
                old_to_new@.len() == count,
                forall|m: int| 0 <= m < count ==> old_to_new@[#[trigger] order@[m] as int] == m,
                forall|k: int|
                    0 <= k < graph@.len() ==> self.plays(
                        (#[trigger] graph@[k]).node_id as int,
                        graph@[k].board,
                    ),
                states@.len() == n,
                forall|m: int| 0 <= m < n ==> #[trigger] self.is_copy(graph@, order@, states@, m),
        {
            let ghost was_states = states@;
            proof {
                assert(0 <= order@[n as int] < count);
            }
            let old: usize = order[n];
            let list: &Vec<usize> = &graph[old].children;
            let mut children: Vec<usize> = Vec::new();
            for k in 0..list.len()
                invariant
                    count == graph@.len(),
                    all == graph_kids(graph@),
                    goes_on(all),
                    all.len() == count,
                    old < count,
                    list@ == graph@[old as int].children@,
                    keys@.len() == count,
                    is_sorting(keys@, 0, keys@.len() as int, order@),
                    old_to_new@.len() == count,
                    forall|m: int| 0 <= m < count ==> old_to_new@[#[trigger] order@[m] as int] == m,
                    children@.len() == k,
                    forall|m: int|
                        0 <= m < k ==> #[trigger] children@[m] < order@.len()
                            && order@[children@[m] as int] == list@[m],
            {
                let child: usize = list[k];
                proof {
                    assert(old < all[old as int][k as int] < all.len());
                    assert(order@.contains(child));
                    let m = choose|m: int| 0 <= m < order@.len() && order@[m] == child;
                    assert(old_to_new@[order@[m] as int] == m);
                }
                children.push(old_to_new[child]);
            }
            proof {
                assert(self.plays(graph@[old as int].node_id as int, graph@[old as int].board));
            }
            let state: PhaseState = self.phase_state(&graph[old], children);
            states.push(state);
            proof {
                assert forall|m: int| 0 <= m < n + 1 implies #[trigger] self.is_copy(
                    graph@,
                    order@,
                    states@,
                    m,
                ) by {
                    if m < n {
                        assert(self.is_copy(graph@, order@, was_states, m));
                        assert(states@[m] == was_states[m]);
                    }
                }
            }
        }
        proof {
            assert(is_renamed(graph@, order@, states@)) by {
                assert forall|n: int| 0 <= n < states@.len() implies {
                    let was = graph@[order@[n] as int];
                    &&& (#[trigger] states@[n]).node_id == was.node_id
                    &&& states@[n].board == was.board
                    &&& states@[n].children@.len() == was.children@.len()
                    &&& forall|k: int|
                        0 <= k < was.children@.len() ==> {
                            &&& #[trigger] states@[n].children@[k] < order@.len()
                            &&& order@[states@[n].children@[k] as int] == was.children@[k]
                        }
                } by {
                    assert(self.is_copy(graph@, order@, states@, n));
                }
            }
            self.lemma_reordered(graph@, order@, states@);
            assert(self.is_reordering(graph@, order@, states@));
        }
        states
    }

    /// Whether a state is that of the graph which the order names, with what follows renamed.
    spec fn is_copy(
        self,
        graph: Seq<GraphState>,
        order: Seq<usize>,
        states: Seq<PhaseState>,
        n: int,
    ) -> bool {
        let state = states[n];
        let was = graph[order[n] as int];
        &&& state.node_id == was.node_id
        &&& state.board == was.board
        &&& state.board_slot == self.slot(was.board@)
        &&& state.children@.len() == was.children@.len()
        &&& forall|k: int|
            0 <= k < was.children@.len() ==> {
                &&& #[trigger] state.children@[k] < order.len()
                &&& order[state.children@[k] as int] == was.children@[k]
            }
        &&& state.chance_concrete_events == was.chance_concrete_events
        &&& state.chance_member_permutation_codes@.len() == was.chance_permutation_codes@.len()
        &&& forall|k: int|
            0 <= k < was.chance_permutation_codes@.len() ==> (
            #[trigger] state.chance_member_permutation_codes@[k])@ == was.chance_permutation_codes@[k]@
        &&& if compares(self.tree.nodes@[was.node_id as int]) {
            &&& ref_views(state.terminal_cache_refs@) == self.refs(was.board@)
            &&& state.terminal_cache_indices@ == self.cache_indices(was.board@)
        } else {
            &&& state.terminal_cache_refs@.len() == 0
            &&& state.terminal_cache_indices@.len() == 0
        }
    }

    proof fn lemma_reordered(self, graph: Seq<GraphState>, order: Seq<usize>, states: Seq<PhaseState>)
        requires
            self.wf(),
            graph.len() <= usize::MAX,
            is_graph(true, self.tree, self.oop(), self.ip(), graph),
            is_sorting(
                Seq::new(graph.len(), |i: int| self.graph_key(graph, i)),
                0,
                graph.len() as int,
                order,
            ),
            is_renamed(graph, order, states),
            forall|n: int| 0 <= n < states.len() ==> #[trigger] self.is_copy(graph, order, states, n),
        ensures
            self.is_phase(states),
    {
        let keys = Seq::new(graph.len(), |i: int| self.graph_key(graph, i));
        let old = graph_kids(graph);
        let new = kids(states);
        let nodes = self.tree.nodes@;
        let (oop, ip) = (self.oop(), self.ip());
        lemma_graph_goes_on(self, graph);
        sorting_is_injective(keys, 0, graph.len() as int, order);
        assert forall|i: int, k: int| 0 <= i < new.len() && 0 <= k < new[i].len() implies i
            < #[trigger] new[i][k] < new.len() by {
            assert(self.is_copy(graph, order, states, i));
            let child = states[i].children@[k];
            let (a, b) = (order[i] as int, order[child as int] as int);
            assert(0 <= order[i] < graph.len());
            level_facts(old, a);
            level_facts(old, 0);
            assert(b == graph[a].children@[k]);
            assert(old[a][k] == b);
            level_facts(old, b);
            assert(keys[a].first < keys[b].first);
            if child <= i {
                if child < i {
                    assert(comes_before(keys, order[child as int] as int, order[i] as int));
                }
            }
        }
        assert(order[0] == 0) by {
            assert(order.contains(0usize));
            let n = choose|n: int| 0 <= n < order.len() && order[n] == 0usize;
            assert(0 <= order[0] < graph.len());
            let x = order[0] as int;
            if x != 0 {
                lemma_root_is_farthest(graph, x);
                level_facts(old, x);
                level_facts(old, 0);
                assert(keys[0].first < keys[x].first);
                assert(comes_before(keys, order[0] as int, order[n] as int));
            }
        }
        assert forall|i: int| 0 <= i < states.len() implies #[trigger] self.is_phase_state(states, i) by {
            assert(self.is_copy(graph, order, states, i));
            assert(0 <= order[i] < graph.len());
            let was = graph[order[i] as int];
            lemma_graph_knows(self, graph, order[i] as int);
            assert(is_expanded(true, nodes, oop, ip, graph, order[i] as int));
            let node = nodes[was.node_id as int];
            let state = states[i];
            assert forall|k: int| 0 <= k < state.children@.len() implies {
                &&& 0 <= #[trigger] state.children@[k] < states.len()
                &&& states[state.children@[k] as int].node_id == graph[was.children@[k] as int].node_id
                &&& states[state.children@[k] as int].board == graph[was.children@[k] as int].board
            } by {
                let child = state.children@[k] as int;
                assert(self.is_copy(graph, order, states, child));
            }
            match node.kind {
                PublicNodeKind::Decision { player, actions } => {
                    assert forall|k: int| 0 <= k < state.children@.len() implies follows(
                        states,
                        #[trigger] state.children@[k] as int,
                        node.children@[k],
                        state.board@,
                    ) by {
                        assert(decision_child(true, nodes, graph, order[i] as int, k));
                    }
                },
                PublicNodeKind::Chance(chance) => {
                    if node.children@.len() > 0 {
                        let classes = next_card_classes(state.board@, oop, ip);
                        assert forall|k: int| 0 <= k < state.children@.len() implies follows(
                            states,
                            #[trigger] state.children@[k] as int,
                            node.children@[0],
                            state.board@.push(classes[k].representative),
                        ) by {
                            assert(chance_child(
                                true,
                                nodes,
                                graph,
                                order[i] as int,
                                k,
                                classes[k],
                            ));
                        }
                        let codes = state.chance_member_permutation_codes@;
                        assert forall|k: int| 0 <= k < codes.len() implies (#[trigger] codes[k])@
                            == member_codes(classes[k].members) by {
                            assert(chance_child(
                                true,
                                nodes,
                                graph,
                                order[i] as int,
                                k,
                                classes[k],
                            ));
                            assert(codes[k]@ =~= member_codes(classes[k].members));
                        }
                    }
                },
                PublicNodeKind::Terminal { reason } => {},
            }
        }
        assert forall|i: int| 0 < i < states.len() implies #[trigger] is_followed(states, i) by {
            let x = order[i] as int;
            assert(0 <= order[i] < graph.len());
            assert(order[0] != order[i]);
            assert(has_parent(graph, x));
            let (j, k) = choose|j: int, k: int|
                0 <= j < x && 0 <= k < graph[j].children@.len() && #[trigger] graph[j].children@[k] == x;
            assert(order.contains(j as usize));
            let n = choose|n: int| 0 <= n < order.len() && order[n] == j as usize;
            assert(self.is_copy(graph, order, states, n));
            let child = states[n].children@[k];
            assert(order[child as int] == x);
            assert(child == i) by {
                if child != i {
                    assert(order[child as int] != order[i]);
                }
            }
            assert(new[n][k] == i);
        }
        assert forall|i: int, j: int| 0 <= i < j < states.len() implies !(
        #[trigger] states[i].node_id == #[trigger] states[j].node_id && states[i].board@
            == states[j].board@) by {
            assert(0 <= order[i] < graph.len() && 0 <= order[j] < graph.len());
            let (a, b) = (order[i] as int, order[j] as int);
            assert(a != b);
            if a < b {
                assert(!(graph[a].node_id == graph[b].node_id && key_of_board(true, graph[a].board@)
                    == key_of_board(true, graph[b].board@)));
            } else {
                assert(!(graph[b].node_id == graph[a].node_id && key_of_board(true, graph[b].board@)
                    == key_of_board(true, graph[a].board@)));
            }
        }
        assert forall|i: int| 0 <= i < states.len() implies #[trigger] self.state_key(states, i)
            == keys[order[i] as int] by {
            assert(0 <= order[i] < graph.len());
            lemma_renamed_level(graph, order, states, i);
            assert(self.is_copy(graph, order, states, i));
        }
        assert forall|i: int, j: int| 0 <= i < j < states.len() implies #[trigger] self.in_order(
            states,
            i,
            j,
        ) by {
            assert(comes_before(keys, order[i] as int, order[j] as int));
            assert(self.state_key(states, i) == keys[order[i] as int]);
            assert(self.state_key(states, j) == keys[order[j] as int]);
        }
        assert(self.is_copy(graph, order, states, 0));
    }
}

pub proof fn lemma_graph_goes_on<S: Scalar>(setup: RealSetup<S>, graph: Seq<GraphState>)
    requires
        setup.wf(),
        is_graph(true, setup.tree, setup.oop(), setup.ip(), graph),
    ensures
        goes_on(graph_kids(graph)),
{
    let nodes = setup.tree.nodes@;
    let (oop, ip) = (setup.oop(), setup.ip());
    let all = graph_kids(graph);
    assert forall|i: int, k: int| 0 <= i < all.len() && 0 <= k < all[i].len() implies i
        < #[trigger] all[i][k] < all.len() by {
        assert(is_expanded(true, nodes, oop, ip, graph, i));
        assert(i < graph[i].children@[k]);
        match nodes[graph[i].node_id as int].kind {
            PublicNodeKind::Decision { player, actions } => {
                assert(decision_child(true, nodes, graph, i, k));
            },
            PublicNodeKind::Chance(chance) => {
                assert(chance_child(
                    true,
                    nodes,
                    graph,
                    i,
                    k,
                    next_card_classes(graph[i].board@, oop, ip)[k],
                ));
            },
            PublicNodeKind::Terminal { reason } => {},
        }
    }
}

} // verus!
