//! What a solver on a flop knows before it starts: its tree, its boards, and where its numbers stand.
use vstd::prelude::*;
use crate::boards::{
    boards_are, completions, representative_ordered_future_boards, river_boards,
    river_boards_from_flop, turn_boards,
};
use crate::cards::{all_different, deck_without, mask_of, Board, Card};
use crate::deals::{deck_without_facts, pairs, pairs_are_all};
use crate::fold_weights::{are_places, same_combo_indices, same_places};
use crate::index_map::KeyMap;
use crate::isomorphism::next_card_classes;
use crate::range::{combo_fits, ComboWeight, RangeSpec};
use crate::scalar::Scalar;
use crate::state_graph::{
    board_key, key_bound, ordered_board_key, ordered_key, ordered_keys_differ,
};
use crate::terminal_cache::{ComboPermutations, TerminalEvalCache};
use crate::text::{around, around_spec};
use crate::tree::{Player, PublicNode, PublicNodeKind, PublicTree};
use crate::tree_shape::{is_preorder, is_shaped, is_shaped_at};

verus! {

/// Where the numbers of a decision node stand: for each board, for each hand, one for each action.
#[derive(Clone, Copy, Debug, PartialEq, Eq)]
pub struct RealInfoset {
    pub player: Player,
    pub board_count: usize,
    pub actions: usize,
    pub slots_start: usize,
    pub slots_len: usize,
}

/// Everything about a solver that does not change while it runs.
#[derive(Clone, Debug)]
pub struct RealSetup<S> {
    pub tree: PublicTree,
    pub oop_range: RangeSpec<S>,
    pub ip_range: RangeSpec<S>,
    pub infosets: Vec<Option<RealInfoset>>,
    pub action_slots: usize,
    pub flop_board: Board,
    pub turn_count: usize,
    pub river_count: usize,
    pub turn_index_by_key: KeyMap<usize>,
    pub river_index_by_key: KeyMap<usize>,
    pub terminal_cache_index_by_key: KeyMap<usize>,
    pub terminal_cache: Vec<TerminalEvalCache>,
    pub combo_permutations: ComboPermutations,
    pub oop_same_ip_combo_indices: Vec<Option<usize>>,
    pub ip_same_oop_combo_indices: Vec<Option<usize>>,
}

/// Whether an index finds every board of a list.
pub open spec fn finds_boards(index: Map<u64, usize>, boards: Seq<Seq<Card>>) -> bool {
    forall|k: int|
        0 <= k < boards.len() ==> {
            let key = ordered_key(#[trigger] boards[k]) as u64;
            &&& index.contains_key(key)
            &&& index[key] < boards.len()
            &&& boards[index[key] as int] == boards[k]
        }
}

/// How many boards of so many cards there are.
pub open spec fn board_count_of(cards: nat, turns: nat, rivers: nat) -> nat {
    if cards == 3 {
        1
    } else if cards == 4 {
        turns
    } else {
        rivers
    }
}

/// How many numbers a node needs: none if it leaves no choice.
pub open spec fn node_slots(node: PublicNode, oop: nat, ip: nat, turns: nat, rivers: nat) -> nat {
    match node.kind {
        PublicNodeKind::Decision { player, actions } => if actions@.len() <= 1 {
            0
        } else {
            board_count_of(node.state.board@.len(), turns, rivers) * (match player {
                Player::Oop => oop,
                Player::Ip => ip,
            }) * actions@.len()
        },
        _ => 0,
    }
}

/// How many numbers the first `n` nodes need.
pub open spec fn slots_below(
    nodes: Seq<PublicNode>,
    oop: nat,
    ip: nat,
    turns: nat,
    rivers: nat,
    n: nat,
) -> nat
    decreases n,
{
    if n == 0 {
        0
    } else {
        slots_below(nodes, oop, ip, turns, rivers, (n - 1) as nat) + node_slots(
            nodes[n - 1],
            oop,
            ip,
            turns,
            rivers,
        )
    }
}

/// More nodes need no fewer numbers.
pub proof fn slots_grow(
    nodes: Seq<PublicNode>,
    oop: nat,
    ip: nat,
    turns: nat,
    rivers: nat,
    m: nat,
    n: nat,
)
    requires
        m <= n,
    ensures
        slots_below(nodes, oop, ip, turns, rivers, m) <= slots_below(nodes, oop, ip, turns, rivers, n),
    decreases n,
{
    if m < n {
        slots_grow(nodes, oop, ip, turns, rivers, m, (n - 1) as nat);
    }
}

/// Whether a node is a decision with a choice on a board that is neither flop, turn nor river.
pub open spec fn is_misplaced(node: PublicNode) -> bool {
    &&& node.kind matches PublicNodeKind::Decision { player, actions }
    &&& actions@.len() > 1
    &&& !(3 <= node.state.board@.len() <= 5)
}

/// The infoset of a node, if it leaves a choice.
pub open spec fn infoset_of(
    nodes: Seq<PublicNode>,
    oop: nat,
    ip: nat,
    turns: nat,
    rivers: nat,
    i: int,
) -> Option<RealInfoset> {
    match nodes[i].kind {
        PublicNodeKind::Decision { player, actions } => if actions@.len() <= 1 {
            None
        } else {
            Some(
                RealInfoset {
                    player,
                    board_count: board_count_of(nodes[i].state.board@.len(), turns, rivers) as usize,
                    actions: actions@.len() as usize,
                    slots_start: slots_below(nodes, oop, ip, turns, rivers, i as nat) as usize,
                    slots_len: node_slots(nodes[i], oop, ip, turns, rivers) as usize,
                },
            )
        },
        _ => None,
    }
}

impl<S: Scalar> RealSetup<S> {
    /// The hands of the player out of position.
    pub open spec fn oop(self) -> Seq<ComboWeight<S>> {
        self.oop_range.combos_spec()
    }

    /// The hands of the player in position.
    pub open spec fn ip(self) -> Seq<ComboWeight<S>> {
        self.ip_range.combos_spec()
    }

    /// How many hands a player has.
    pub open spec fn combos(self, player: Player) -> nat {
        match player {
            Player::Oop => self.oop().len(),
            Player::Ip => self.ip().len(),
        }
    }

    /// The representative turn boards.
    pub open spec fn turns(self) -> Seq<Seq<Card>> {
        turn_boards(self.flop_board@, self.oop(), self.ip())
    }

    /// The representative river boards.
    pub open spec fn rivers(self) -> Seq<Seq<Card>> {
        river_boards(self.flop_board@, self.oop(), self.ip(), self.turns().len())
    }

    /// Whether a board is the flop or a representative one.
    pub open spec fn knows(self, board: Seq<Card>) -> bool {
        if board.len() == 3 {
            board == self.flop_board@
        } else if board.len() == 4 {
            self.turns().contains(board)
        } else {
            board.len() == 5 && self.rivers().contains(board)
        }
    }

    /// The place of a board among those of as many cards.
    pub open spec fn slot(self, board: Seq<Card>) -> usize {
        let key = ordered_key(board) as u64;
        if board.len() == 3 {
            0
        } else if board.len() == 4 {
            self.turn_index_by_key@[key]
        } else {
            self.river_index_by_key@[key]
        }
    }

    /// Whether a board has a place.
    pub open spec fn has_slot(self, board: Seq<Card>) -> bool {
        let key = ordered_key(board) as u64;
        if board.len() == 3 {
            true
        } else if board.len() == 4 {
            self.turn_index_by_key@.contains_key(key)
        } else {
            board.len() == 5 && self.river_index_by_key@.contains_key(key)
        }
    }

    /// Whether finished boards are found by their cards.
    pub open spec fn finds_finished(self) -> bool {
        forall|k: int|
            0 <= k < self.terminal_cache@.len() ==> {
                let mask = mask_of((#[trigger] self.terminal_cache@[k]).board@);
                &&& self.terminal_cache_index_by_key@.contains_key(mask)
                &&& self.terminal_cache_index_by_key@[mask] < self.terminal_cache@.len()
                &&& mask_of(
                    self.terminal_cache@[self.terminal_cache_index_by_key@[mask] as int].board@,
                ) == mask
            }
    }

    /// Whether every table is that of the tree and the ranges.
    pub open spec fn wf(self) -> bool {
        &&& is_shaped(self.tree)
        &&& is_preorder(self.tree.nodes@)
        &&& self.oop_range.wf()
        &&& self.ip_range.wf()
        &&& self.flop_board.wf()
        &&& self.flop_board@ == self.tree.spot.board@
        &&& self.oop().len() <= usize::MAX
        &&& self.ip().len() <= usize::MAX
        &&& self.turn_count == self.turns().len()
        &&& self.river_count == self.rivers().len()
        &&& finds_boards(self.turn_index_by_key@, self.turns())
        &&& finds_boards(self.river_index_by_key@, self.rivers())
        &&& self.terminal_cache@.len() == completions(self.flop_board@).len()
        &&& forall|k: int|
            0 <= k < self.terminal_cache@.len() ==> {
                let cache = #[trigger] self.terminal_cache@[k];
                cache.fits(self.oop(), self.ip()) && cache.board@ == completions(self.flop_board@)[k]
            }
        &&& self.finds_finished()
        &&& self.combo_permutations.fits(self.oop(), self.ip())
        &&& self.oop_same_ip_combo_indices@ == same_places(self.oop(), self.ip())
        &&& self.ip_same_oop_combo_indices@ == same_places(self.ip(), self.oop())
        &&& are_places(self.oop_same_ip_combo_indices@, self.ip().len())
        &&& are_places(self.ip_same_oop_combo_indices@, self.oop().len())
        &&& self.infosets@.len() == self.tree.nodes@.len()
        &&& forall|i: int|
            0 <= i < self.infosets@.len() ==> #[trigger] self.infosets@[i] == infoset_of(
                self.tree.nodes@,
                self.oop().len(),
                self.ip().len(),
                self.turns().len(),
                self.rivers().len(),
                i,
            ) && !is_misplaced(self.tree.nodes@[i]) && (self.infosets@[i] is Some
                ==> self.infosets@[i]->Some_0.actions == self.tree.nodes@[i].kind->actions@.len())
        &&& self.action_slots == slots_below(
            self.tree.nodes@,
            self.oop().len(),
            self.ip().len(),
            self.turns().len(),
            self.rivers().len(),
            self.tree.nodes@.len(),
        )
    }

    /// Where the numbers of a node on a board start.
    pub open spec fn row_start(self, node_id: int, board_slot: int) -> int {
        let infoset = self.infosets@[node_id]->Some_0;
        infoset.slots_start + board_slot * (self.combos(infoset.player) * infoset.actions)
    }

    /// How many numbers a node has on a board.
    pub open spec fn row_len(self, node_id: int) -> int {
        let infoset = self.infosets@[node_id]->Some_0;
        (self.combos(infoset.player) * infoset.actions) as int
    }

    /// The numbers of a node on a board stand inside the table.
    pub proof fn row_fits(self, node_id: int, board_slot: int)
        requires
            self.wf(),
            0 <= node_id < self.tree.nodes@.len(),
            self.infosets@[node_id] is Some,
            0 <= board_slot < board_count_of(
                self.tree.nodes@[node_id].state.board@.len(),
                self.turns().len(),
                self.rivers().len(),
            ),
        ensures
            0 <= board_slot * self.row_len(node_id),
            0 <= self.row_start(node_id, board_slot),
            0 <= self.row_len(node_id),
            self.row_start(node_id, board_slot) + self.row_len(node_id) <= self.action_slots,
            self.infosets@[node_id]->Some_0.player == self.tree.nodes@[node_id].kind->player,
            self.infosets@[node_id]->Some_0.actions == self.tree.nodes@[node_id].kind->actions@.len(),
            self.tree.nodes@[node_id].kind is Decision,
    {
        let nodes = self.tree.nodes@;
        let (oop, ip) = (self.oop().len(), self.ip().len());
        let (turns, rivers) = (self.turns().len(), self.rivers().len());
        let infoset = self.infosets@[node_id]->Some_0;
        let boards = board_count_of(nodes[node_id].state.board@.len(), turns, rivers) as int;
        let combos = self.combos(infoset.player) as int;
        let actions = infoset.actions as int;
        assert(self.infosets@[node_id] == infoset_of(nodes, oop, ip, turns, rivers, node_id));
        slots_grow(nodes, oop, ip, turns, rivers, node_id as nat, nodes.len());
        slots_grow(nodes, oop, ip, turns, rivers, (node_id + 1) as nat, nodes.len());
        assert(combos * actions >= 0) by (nonlinear_arith)
            requires
                combos >= 0,
                actions >= 0,
        ;
        assert(boards * combos * actions == boards * (combos * actions)) by (nonlinear_arith);
        assert(0 <= board_slot * (combos * actions) && board_slot * (combos * actions) + combos * actions
            <= boards * (combos * actions)) by (nonlinear_arith)
            requires
                0 <= board_slot < boards,
                0 <= combos * actions,
        ;
    }

    /// A board with a card that stands for a class is known if the board is.
    pub proof fn knows_next(self, board: Seq<Card>, k: int)
        requires
            self.flop_board@.len() == 3,
            self.knows(board),
            board.len() < 5,
            0 <= k < next_card_classes(board, self.oop(), self.ip()).len(),
        ensures
            self.knows(board.push(next_card_classes(board, self.oop(), self.ip())[k].representative)),
    {
        let (oop, ip) = (self.oop(), self.ip());
        let next = board.push(next_card_classes(board, oop, ip)[k].representative);
        assert(turn_boards(board, oop, ip)[k] == next);
        if board.len() == 4 {
            let i = choose|i: int| 0 <= i < self.turns().len() && self.turns()[i] == board;
            lemma_rivers_hold(self.flop_board@, oop, ip, i, k, self.turns().len());
        }
    }

    /// Known boards start with the flop.
    pub proof fn knows_starts_with_flop(self, board: Seq<Card>)
        requires
            self.flop_board@.len() == 3,
            self.knows(board),
        ensures
            3 <= board.len() <= 5,
            board.take(3) == self.flop_board@,
    {
        let (oop, ip) = (self.oop(), self.ip());
        if board.len() == 4 {
            let i = choose|i: int| 0 <= i < self.turns().len() && self.turns()[i] == board;
            assert(self.turns()[i].take(3) =~= self.flop_board@);
        } else if board.len() == 5 {
            let i = choose|i: int| 0 <= i < self.rivers().len() && self.rivers()[i] == board;
            lemma_rivers_start(self.flop_board@, oop, ip, self.turns().len());
            assert(self.rivers()[i].take(3) == self.flop_board@);
        } else {
            assert(board.take(3) =~= board);
        }
    }

    /// Known boards have places, and the place finds the board.
    pub proof fn knows_has_slot(self, board: Seq<Card>)
        requires
            self.wf(),
            self.knows(board),
        ensures
            self.has_slot(board),
            self.slot(board) < board_count_of(
                board.len(),
                self.turns().len(),
                self.rivers().len(),
            ),
            board.len() == 4 ==> self.turns()[self.slot(board) as int] == board,
            board.len() == 5 ==> self.rivers()[self.slot(board) as int] == board,
    {
        if board.len() == 4 {
            let i = choose|i: int| 0 <= i < self.turns().len() && self.turns()[i] == board;
            assert(self.turns()[i] == board);
        } else if board.len() == 5 {
            let i = choose|i: int| 0 <= i < self.rivers().len() && self.rivers()[i] == board;
            assert(self.rivers()[i] == board);
        }
    }

    /// A finished board that starts with the flop was prepared, up to the order of its cards.
    pub proof fn finished_is_cached(self, board: Seq<Card>)
        requires
            self.wf(),
            board.len() == 5,
            all_different(board),
            board.take(3) == self.flop_board@,
        ensures
            self.terminal_cache_index_by_key@.contains_key(mask_of(board)),
            self.terminal_cache_index_by_key@[mask_of(board)] < self.terminal_cache@.len(),
            mask_of(
                self.terminal_cache@[self.terminal_cache_index_by_key@[mask_of(board)] as int].board@,
            ) == mask_of(board),
    {
        let flop = self.flop_board@;
        let deck = deck_without(flop);
        let (a, b) = (board[3], board[4]);
        deck_without_facts(flop);
        assert forall|i: int| 0 <= i < 3 implies #[trigger] flop[i] == board[i] by {
            assert(board.take(3)[i] == board[i]);
        }
        assert(!flop.contains(a) && !flop.contains(b));
        assert(deck.contains(a) && deck.contains(b));
        let i = choose|i: int| 0 <= i < deck.len() && deck[i] == a;
        let j = choose|j: int| 0 <= j < deck.len() && deck[j] == b;
        assert(i != j) by {
            assert(board[3] != board[4]);
        }
        pairs_are_all(deck.len());
        let (lo, hi) = if i < j {
            (i, j)
        } else {
            (j, i)
        };
        assert(pairs(deck.len()).contains((lo as usize, hi as usize)));
        let k = choose|k: int|
            0 <= k < pairs(deck.len()).len() && pairs(deck.len())[k] == (lo as usize, hi as usize);
        let made = completions(flop)[k];
        assert(made == flop.push(deck[lo]).push(deck[hi]));
        assert(self.terminal_cache@[k].board@ == made);
        assert(board =~= flop.push(a).push(b));
        lemma_mask_swap(flop, a, b);
    }
}

proof fn lemma_mask_swap(board: Seq<Card>, a: Card, b: Card)
    ensures
        mask_of(board.push(a).push(b)) == mask_of(board.push(b).push(a)),
{
    let ab = board.push(a).push(b);
    let ba = board.push(b).push(a);
    assert(ab.drop_last() =~= board.push(a));
    assert(ba.drop_last() =~= board.push(b));
    assert(board.push(a).drop_last() =~= board);
    assert(board.push(b).drop_last() =~= board);
    assert(mask_of(board.push(a)) == mask_of(board) | a.bit());
    assert(mask_of(board.push(b)) == mask_of(board) | b.bit());
    assert(ab.last() == b && ba.last() == a);
    let m = mask_of(board);
    let x = a.bit();
    let y = b.bit();
    assert((m | x) | y == (m | y) | x) by (bit_vector);
}

proof fn lemma_rivers_hold<S: Scalar>(
    flop: Seq<Card>,
    oop: Seq<ComboWeight<S>>,
    ip: Seq<ComboWeight<S>>,
    i: int,
    k: int,
    n: nat,
)
    requires
        0 <= i < n <= turn_boards(flop, oop, ip).len(),
        0 <= k < turn_boards(turn_boards(flop, oop, ip)[i], oop, ip).len(),
    ensures
        river_boards(flop, oop, ip, n).contains(
            turn_boards(turn_boards(flop, oop, ip)[i], oop, ip)[k],
        ),
    decreases n,
{
    let front = river_boards(flop, oop, ip, (n - 1) as nat);
    let next = turn_boards(turn_boards(flop, oop, ip)[n - 1], oop, ip);
    let whole = river_boards(flop, oop, ip, n);
    let board = turn_boards(turn_boards(flop, oop, ip)[i], oop, ip)[k];
    if i == n - 1 {
        assert(whole[front.len() + k] == board);
    } else {
        lemma_rivers_hold(flop, oop, ip, i, k, (n - 1) as nat);
        let j = choose|j: int| 0 <= j < front.len() && front[j] == board;
        assert(whole[j] == board);
    }
}

proof fn lemma_rivers_start<S: Scalar>(
    flop: Seq<Card>,
    oop: Seq<ComboWeight<S>>,
    ip: Seq<ComboWeight<S>>,
    n: nat,
)
    requires
        flop.len() == 3,
        n <= turn_boards(flop, oop, ip).len(),
    ensures
        forall|j: int|
            0 <= j < river_boards(flop, oop, ip, n).len() ==> (#[trigger] river_boards(
                flop,
                oop,
                ip,
                n,
            )[j]).take(3) == flop,
    decreases n,
{
    if n > 0 {
        lemma_rivers_start(flop, oop, ip, (n - 1) as nat);
        let front = river_boards(flop, oop, ip, (n - 1) as nat);
        let turn = turn_boards(flop, oop, ip)[n - 1];
        let next = turn_boards(turn, oop, ip);
        let whole = river_boards(flop, oop, ip, n);
        assert forall|j: int| 0 <= j < whole.len() implies (#[trigger] whole[j]).take(3) == flop by {
            if j < front.len() {
                assert(whole[j] == front[j]);
            } else {
                assert(whole[j] == next[j - front.len()]);
                assert(whole[j].take(3) =~= flop);
            }
        }
    }
}

fn index_boards(boards: &Vec<Board>, Ghost(cards): Ghost<Seq<Seq<Card>>>) -> (r: KeyMap<usize>)
    requires
        boards_are(boards@, cards),
        forall|i: int, j: int|
            0 <= i < cards.len() && 0 <= j < cards.len() ==> (#[trigger] cards[i]).len() == (
            #[trigger] cards[j]).len(),
    ensures
        finds_boards(r@, cards),
{
    let mut index: KeyMap<usize> = KeyMap::new();
    for n in 0..boards.len()
        invariant
            boards_are(boards@, cards),
            forall|i: int, j: int|
                0 <= i < cards.len() && 0 <= j < cards.len() ==> (#[trigger] cards[i]).len() == (
                #[trigger] cards[j]).len(),
            forall|k: int|
                0 <= k < n ==> {
                    let key = ordered_key(#[trigger] cards[k]) as u64;
                    &&& index@.contains_key(key)
                    &&& index@[key] < cards.len()
                    &&& cards[index@[key] as int] == cards[k]
                },
    {
        let ghost was = index@;
        proof {
            assert(boards@[n as int].wf());
        }
        let key: u64 = ordered_board_key(&boards[n]);
        index.insert(key, n);
        proof {
            assert(boards@[n as int]@ == cards[n as int]);
            assert forall|k: int| 0 <= k < n + 1 implies {
                let key = ordered_key(#[trigger] cards[k]) as u64;
                &&& index@.contains_key(key)
                &&& index@[key] < cards.len()
                &&& cards[index@[key] as int] == cards[k]
            } by {
                assert(boards@[k]@ == cards[k]);
                let other = ordered_key(cards[k]) as u64;
                if k < n && other == key {
                    lemma_key_small(boards@[k]);
                    lemma_key_small(boards@[n as int]);
                    ordered_keys_differ(cards[k], cards[n as int]);
                }
            }
        }
    }
    index
}

proof fn lemma_key_small(board: Board)
    requires
        board.wf(),
    ensures
        ordered_key(board@) <= u64::MAX,
{
    board.wf_facts();
    crate::state_graph::ordered_key_bound(board@);
    reveal_with_fuel(key_bound, 6);
}

impl<S: Scalar> RealSetup<S> {
    /// How many numbers a solver of a tree needs.
    pub open spec fn slots_needed(tree: PublicTree, oop: Seq<ComboWeight<S>>, ip: Seq<ComboWeight<S>>) -> nat {
        let turns = turn_boards(tree.spot.board@, oop, ip);
        slots_below(
            tree.nodes@,
            oop.len(),
            ip.len(),
            turns.len(),
            river_boards(tree.spot.board@, oop, ip, turns.len()).len(),
            tree.nodes@.len(),
        )
    }

    /// Whether the numbers that a solver of a tree from a flop needs can be counted.
    pub fn slots_can_be_counted(
        tree: &PublicTree,
        oop_range: &RangeSpec<S>,
        ip_range: &RangeSpec<S>,
    ) -> (r: bool)
        requires
            tree.spot.board.wf(),
            tree.spot.board@.len() == 3,
            is_shaped(*tree),
            oop_range.wf(),
            ip_range.wf(),
        ensures
            r == (Self::slots_needed(*tree, oop_range.combos_spec(), ip_range.combos_spec())
                <= usize::MAX),
    {
        let boards: Result<(Vec<Board>, Vec<Board>), String> = representative_ordered_future_boards(
            &tree.spot.board,
            oop_range,
            ip_range,
        );
        let (turns, rivers): (usize, usize) = match boards {
            Ok((turns, rivers)) => (turns.len(), rivers.len()),
            Err(_) => (0, 0),
        };
        let oop: usize = oop_range.combos().len();
        let ip: usize = ip_range.combos().len();
        let ghost nodes = tree.nodes@;
        let mut total: usize = 0;
        for i in 0..tree.nodes.len()
            invariant
                nodes == tree.nodes@,
                forall|j: int| 0 <= j < nodes.len() ==> #[trigger] is_shaped_at(nodes, j),
                total == slots_below(
                    nodes,
                    oop as nat,
                    ip as nat,
                    turns as nat,
                    rivers as nat,
                    i as nat,
                ),
                Self::slots_needed(*tree, oop_range.combos_spec(), ip_range.combos_spec())
                    == slots_below(
                    nodes,
                    oop as nat,
                    ip as nat,
                    turns as nat,
                    rivers as nat,
                    nodes.len(),
                ),
        {
            proof {
                assert(is_shaped_at(nodes, i as int));
                slots_grow(
                    nodes,
                    oop as nat,
                    ip as nat,
                    turns as nat,
                    rivers as nat,
                    (i + 1) as nat,
                    nodes.len(),
                );
            }
            let node: &PublicNode = &tree.nodes[i];
            if let PublicNodeKind::Decision { player, actions } = &node.kind {
                if actions.len() > 1 {
                    let cards: usize = node.state.board.len();
                    let count: usize = if cards == 3 {
                        1
                    } else if cards == 4 {
                        turns
                    } else {
                        rivers
                    };
                    let combos: usize = match player {
                        Player::Oop => oop,
                        Player::Ip => ip,
                    };
                    let width: usize = actions.len();
                    proof {
                        assert(count * combos <= count * combos * width) by (nonlinear_arith)
                            requires
                                width >= 1,
                                count >= 0,
                                combos >= 0,
                        ;
                    }
                    let slots: usize = match count.checked_mul(combos) {
                        Some(rows) => match rows.checked_mul(width) {
                            Some(slots) => slots,
                            None => return false,
                        },
                        None => return false,
                    };
                    total =
                    match total.checked_add(slots) {
                        Some(sum) => sum,
                        None => return false,
                    };
                }
            }
        }
        true
    }

    /// What a solver of a tree knows. It starts on a flop, and no decision stands off the streets.
    pub fn new(tree: PublicTree, oop_range: RangeSpec<S>, ip_range: RangeSpec<S>) -> (r: Result<
        Self,
        String,
    >)
        requires
            tree.spot.board.wf(),
            tree.spot.board@.len() == 3 ==> is_shaped(tree) && is_preorder(tree.nodes@),
            oop_range.wf(),
            ip_range.wf(),
            tree.spot.board@.len() == 3 ==> Self::slots_needed(
                tree,
                oop_range.combos_spec(),
                ip_range.combos_spec(),
            ) <= usize::MAX,
        ensures
            match r {
                Ok(setup) => {
                    &&& setup.wf()
                    &&& setup.tree == tree
                    &&& setup.oop_range == oop_range
                    &&& setup.ip_range == ip_range
                },
                Err(message) => if tree.spot.board@.len() != 3 {
                    message@ == "real CFR solver must start from a flop board"@
                } else {
                    exists|i: int|
                        0 <= i < tree.nodes@.len() && #[trigger] is_misplaced(tree.nodes@[i])
                            && message@ == around_spec(
                            "invalid public board length "@,
                            tree.nodes@[i].state.board@.len(),
                            ""@,
                        ) && forall|j: int| 0 <= j < i ==> !is_misplaced(#[trigger] tree.nodes@[j])
                },
            },
            r is Ok == (tree.spot.board@.len() == 3 && forall|i: int|
                0 <= i < tree.nodes@.len() ==> !is_misplaced(#[trigger] tree.nodes@[i])),
    {
        let flop_board: Board = tree.spot.board;
        let boards: Result<(Vec<Board>, Vec<Board>), String> = representative_ordered_future_boards(
            &flop_board,
            &oop_range,
            &ip_range,
        );
        let (turns, rivers): (Vec<Board>, Vec<Board>) = match boards {
            Ok(boards) => boards,
            Err(message) => return Err(message),
        };
        let ghost oop = oop_range.combos_spec();
        let ghost ip = ip_range.combos_spec();
        let ghost turn_cards = turn_boards(flop_board@, oop, ip);
        let ghost river_cards = river_boards(flop_board@, oop, ip, turn_cards.len());
        proof {
            lemma_turn_length(flop_board@, oop, ip);
            lemma_river_length(flop_board@, oop, ip, turn_cards.len());
        }
        let turn_index_by_key: KeyMap<usize> = index_boards(&turns, Ghost(turn_cards));
        let river_index_by_key: KeyMap<usize> = index_boards(&rivers, Ghost(river_cards));
        let combo_permutations: ComboPermutations = ComboPermutations::new(
            oop_range.combos(),
            ip_range.combos(),
        );
        proof {
            assert forall|i: int| 0 <= i < oop.len() implies (#[trigger] oop[i]).first != oop[i].second by {
                assert(combo_fits(oop[i]));
            }
            assert forall|i: int| 0 <= i < ip.len() implies (#[trigger] ip[i]).first != ip[i].second by {
                assert(combo_fits(ip[i]));
            }
        }
        let oop_same_ip_combo_indices: Vec<Option<usize>> = same_combo_indices(
            oop_range.combos(),
            ip_range.combos(),
        );
        let ip_same_oop_combo_indices: Vec<Option<usize>> = same_combo_indices(
            ip_range.combos(),
            oop_range.combos(),
        );
        let finished: Vec<Board> = match river_boards_from_flop(&flop_board) {
            Ok(boards) => boards,
            Err(message) => {
                proof {
                    assert(false);
                }
                return Err(message);
            },
        };
        let mut terminal_cache: Vec<TerminalEvalCache> = Vec::new();
        let mut terminal_cache_index_by_key: KeyMap<usize> = KeyMap::new();
        for n in 0..finished.len()
            invariant
                boards_are(finished@, completions(flop_board@)),
                flop_board@.len() == 3,
                oop == oop_range.combos_spec(),
                ip == ip_range.combos_spec(),
                terminal_cache@.len() == n,
                forall|k: int|
                    0 <= k < n ==> {
                        let cache = #[trigger] terminal_cache@[k];
                        cache.fits(oop, ip) && cache.board@ == completions(flop_board@)[k]
                    },
                forall|k: int|
                    0 <= k < n ==> {
                        let mask = mask_of((#[trigger] terminal_cache@[k]).board@);
                        &&& terminal_cache_index_by_key@.contains_key(mask)
                        &&& terminal_cache_index_by_key@[mask] < n
                        &&& mask_of(
                            terminal_cache@[terminal_cache_index_by_key@[mask] as int].board@,
                        ) == mask
                    },
        {
            let ghost was = terminal_cache@;
            proof {
                assert(finished@[n as int].wf());
                assert(completions(flop_board@)[n as int].len() == 5);
            }
            let key: u64 = board_key(&finished[n]);
            let cache: TerminalEvalCache = TerminalEvalCache::new(
                &finished[n],
                oop_range.combos(),
                ip_range.combos(),
            );
            terminal_cache_index_by_key.insert(key, n);
            terminal_cache.push(cache);
            proof {
                assert forall|k: int| 0 <= k < n + 1 implies {
                    let cache = #[trigger] terminal_cache@[k];
                    cache.fits(oop, ip) && cache.board@ == completions(flop_board@)[k]
                } by {
                    if k < n {
                        assert(terminal_cache@[k] == was[k]);
                    }
                }
                assert forall|k: int| 0 <= k < n + 1 implies {
                    let mask = mask_of((#[trigger] terminal_cache@[k]).board@);
                    &&& terminal_cache_index_by_key@.contains_key(mask)
                    &&& terminal_cache_index_by_key@[mask] < n + 1
                    &&& mask_of(
                        terminal_cache@[terminal_cache_index_by_key@[mask] as int].board@,
                    ) == mask
                } by {
                    if k < n {
                        assert(terminal_cache@[k] == was[k]);
                        let mask = mask_of(was[k].board@);
                        if mask != key {
                            let v = terminal_cache_index_by_key@[mask] as int;
                            assert(terminal_cache@[v] == was[v]);
                        }
                    }
                }
            }
        }
        let mut infosets: Vec<Option<RealInfoset>> = Vec::new();
        let mut total: usize = 0;
        let oop_len: usize = oop_range.combos().len();
        let ip_len: usize = ip_range.combos().len();
        let turn_count: usize = turns.len();
        let river_count: usize = rivers.len();
        for i in 0..tree.nodes.len()
            invariant
                flop_board@ == tree.spot.board@,
                flop_board@.len() == 3,
                oop_len == oop.len(),
                ip_len == ip.len(),
                turn_count == turn_cards.len(),
                river_count == river_cards.len(),
                oop == oop_range.combos_spec(),
                ip == ip_range.combos_spec(),
                turn_cards == turn_boards(flop_board@, oop, ip),
                river_cards == river_boards(flop_board@, oop, ip, turn_cards.len()),
                Self::slots_needed(tree, oop, ip) <= usize::MAX,
                forall|j: int| 0 <= j < tree.nodes@.len() ==> #[trigger] is_shaped_at(tree.nodes@, j),
                infosets@.len() == i,
                forall|j: int| 0 <= j < i ==> !is_misplaced(#[trigger] tree.nodes@[j]),
                forall|j: int|
                    0 <= j < i ==> #[trigger] infosets@[j] == infoset_of(
                        tree.nodes@,
                        oop.len(),
                        ip.len(),
                        turn_cards.len(),
                        river_cards.len(),
                        j,
                    ) && (infosets@[j] is Some ==> infosets@[j]->Some_0.actions
                        == tree.nodes@[j].kind->actions@.len()),
                total == slots_below(
                    tree.nodes@,
                    oop.len(),
                    ip.len(),
                    turn_cards.len(),
                    river_cards.len(),
                    i as nat,
                ),
        {
            let ghost was = infosets@;
            proof {
                slots_grow(
                    tree.nodes@,
                    oop.len(),
                    ip.len(),
                    turn_cards.len(),
                    river_cards.len(),
                    (i + 1) as nat,
                    tree.nodes@.len(),
                );
                assert(is_shaped_at(tree.nodes@, i as int));
            }
            let node: &PublicNode = &tree.nodes[i];
            let mut infoset: Option<RealInfoset> = None;
            if let PublicNodeKind::Decision { player, actions } = &node.kind {
                if actions.len() > 1 {
                    let cards: usize = node.state.board.len();
                    let board_count: usize = if cards == 3 {
                        1
                    } else if cards == 4 {
                        turn_count
                    } else if cards == 5 {
                        river_count
                    } else {
                        proof {
                            assert(is_misplaced(tree.nodes@[i as int]));
                        }
                        return Err(around("invalid public board length ", cards, ""));
                    };
                    let combos: usize = match player {
                        Player::Oop => oop_len,
                        Player::Ip => ip_len,
                    };
                    let width: usize = actions.len();
                    proof {
                        assert(board_count * combos * width == node_slots(
                            tree.nodes@[i as int],
                            oop.len(),
                            ip.len(),
                            turn_cards.len(),
                            river_cards.len(),
                        ));
                        assert(board_count * combos <= board_count * combos * width)
                            by (nonlinear_arith)
                            requires
                                width >= 1,
                                board_count >= 0,
                                combos >= 0,
                        ;
                    }
                    let slots_len: usize = board_count * combos * width;
                    infoset =
                    Some(
                        RealInfoset {
                            player: *player,
                            board_count,
                            actions: width,
                            slots_start: total,
                            slots_len,
                        },
                    );
                    total = total + slots_len;
                }
            }
            infosets.push(infoset);
            proof {
                assert(!is_misplaced(tree.nodes@[i as int]));
                assert forall|j: int| 0 <= j < i + 1 implies #[trigger] infosets@[j] == infoset_of(
                    tree.nodes@,
                    oop.len(),
                    ip.len(),
                    turn_cards.len(),
                    river_cards.len(),
                    j,
                ) && (infosets@[j] is Some ==> infosets@[j]->Some_0.actions
                    == tree.nodes@[j].kind->actions@.len()) by {
                    if j < i {
                        assert(infosets@[j] == was[j]);
                    }
                }
            }
        }
        let setup = RealSetup {
            tree,
            oop_range,
            ip_range,
            infosets,
            action_slots: total,
            flop_board,
            turn_count,
            river_count,
            turn_index_by_key,
            river_index_by_key,
            terminal_cache_index_by_key,
            terminal_cache,
            combo_permutations,
            oop_same_ip_combo_indices,
            ip_same_oop_combo_indices,
        };
        Ok(setup)
    }

    /// The place of a board among those of as many cards.
    pub fn board_slot(&self, board: &Board) -> (r: Result<usize, String>)
        requires
            board.wf(),
        ensures
            match r {
                Ok(slot) => self.has_slot(board@) && slot == self.slot(board@),
                Err(message) => {
                    &&& !self.has_slot(board@)
                    &&& message@ == (if board@.len() == 4 {
                        "turn board is outside the solver board index"@
                    } else if board@.len() == 5 {
                        "river board is outside the solver board index"@
                    } else {
                        around_spec("invalid public board length "@, board@.len(), ""@)
                    })
                },
            },
    {
        let cards: usize = board.len();
        if cards == 3 {
            return Ok(0);
        }
        if cards == 4 {
            return match self.turn_index_by_key.get(ordered_board_key(board)) {
                Some(slot) => Ok(*slot),
                None => Err("turn board is outside the solver board index".to_owned()),
            };
        }
        if cards == 5 {
            return match self.river_index_by_key.get(ordered_board_key(board)) {
                Some(slot) => Ok(*slot),
                None => Err("river board is outside the solver board index".to_owned()),
            };
        }
        Err(around("invalid public board length ", cards, ""))
    }

    /// The place of the prepared board that has the cards of a finished board.
    pub fn terminal_cache_index(&self, board: &Board) -> (r: Result<usize, String>)
        requires
            board.wf(),
        ensures
            match r {
                Ok(index) => self.terminal_cache_index_by_key@.contains_key(mask_of(board@)) && index
                    == self.terminal_cache_index_by_key@[mask_of(board@)],
                Err(message) => !self.terminal_cache_index_by_key@.contains_key(mask_of(board@))
                    && message@ == "terminal board is outside the solver board cache"@,
            },
    {
        match self.terminal_cache_index_by_key.get(board_key(board)) {
            Some(index) => Ok(*index),
            None => Err("terminal board is outside the solver board cache".to_owned()),
        }
    }
}

proof fn lemma_turn_length<S: Scalar>(
    board: Seq<Card>,
    oop: Seq<ComboWeight<S>>,
    ip: Seq<ComboWeight<S>>,
)
    ensures
        forall|j: int|
            0 <= j < turn_boards(board, oop, ip).len() ==> (#[trigger] turn_boards(board, oop, ip)[j]).len()
                == board.len() + 1,
{
}

proof fn lemma_river_length<S: Scalar>(
    flop: Seq<Card>,
    oop: Seq<ComboWeight<S>>,
    ip: Seq<ComboWeight<S>>,
    n: nat,
)
    requires
        n <= turn_boards(flop, oop, ip).len(),
    ensures
        forall|j: int|
            0 <= j < river_boards(flop, oop, ip, n).len() ==> (#[trigger] river_boards(
                flop,
                oop,
                ip,
                n,
            )[j]).len() == flop.len() + 2,
    decreases n,
{
    if n > 0 {
        lemma_river_length(flop, oop, ip, (n - 1) as nat);
        let front = river_boards(flop, oop, ip, (n - 1) as nat);
        let turn = turn_boards(flop, oop, ip)[n - 1];
        let whole = river_boards(flop, oop, ip, n);
        assert forall|j: int| 0 <= j < whole.len() implies (#[trigger] whole[j]).len() == flop.len()
            + 2 by {
            if j < front.len() {
                assert(whole[j] == front[j]);
            } else {
                assert(whole[j] == turn_boards(turn, oop, ip)[j - front.len()]);
            }
        }
    }
}

} // verus!
