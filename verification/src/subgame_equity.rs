//! The share of a pot that a hand of a subgame wins against another.
use vstd::prelude::*;
use crate::cards::{
    all_different, card_bits_overlap, mask_of, mask_of_contains, masks_together, Card,
};
use crate::deals::{index_pairs, pairs, pairs_are_all};
use crate::evaluator::evaluate_seven;
use crate::river::Combo;
use crate::runouts::{deck_outside, remaining_cards, unordered_pairs};
use crate::scalar::{ratio, ratio_spec, Scalar};
use crate::subgame_deals::{board_mask, drawn_place, sampled_index, PostflopCombo};
use crate::terminal_board::{strength_on, PrivateCombo};

verus! {

/// A board with all cards that can come.
pub open spec fn runouts_of(board: Seq<Card>, used: u64) -> Seq<Seq<Card>> {
    let cards = deck_outside(used);
    if board.len() >= 5 {
        seq![board]
    } else if board.len() == 4 {
        Seq::new(cards.len(), |i: int| board.push(cards[i]))
    } else {
        let both = unordered_pairs(cards);
        Seq::new(both.len(), |i: int| board.push(both[i].0).push(both[i].1))
    }
}

/// As many finished boards as are looked at: all, or a number of draws.
pub open spec fn looked_at(boards: Seq<Seq<Card>>, max_runouts: nat) -> Seq<Seq<Card>> {
    if max_runouts == 0 || boards.len() <= max_runouts {
        boards
    } else {
        Seq::new(max_runouts, |i: int| boards[drawn_place(i, boards.len() as int)])
    }
}

/// Whether five cards are a board and new cards outside a mask, all different.
pub open spec fn completes(full: Seq<Card>, board: Seq<Card>, used: u64) -> bool {
    &&& full.len() == 5
    &&& board.len() <= 5
    &&& full.take(board.len() as int) == board
    &&& forall|i: int| board.len() <= i < 5 ==> (#[trigger] full[i]).bit() & used == 0
    &&& forall|i: int, j: int|
        board.len() <= i < j < 5 ==> #[trigger] full[i] != #[trigger] full[j]
}

fn five_of(board: &[Card], first: Card, second: Card) -> (r: [Card; 5])
    requires
        3 <= board@.len() <= 5,
    ensures
        board@.len() == 5 ==> r@ == board@,
        board@.len() == 4 ==> r@ == board@.push(first),
        board@.len() == 3 ==> r@ == board@.push(first).push(second),
{
    let fourth: Card = if board.len() > 3 {
        board[3]
    } else {
        first
    };
    let fifth: Card = if board.len() > 4 {
        board[4]
    } else if board.len() == 4 {
        first
    } else {
        second
    };
    let full: [Card; 5] = [board[0], board[1], board[2], fourth, fifth];
    proof {
        if board@.len() == 5 {
            assert(full@ =~= board@);
        } else if board@.len() == 4 {
            assert(full@ =~= board@.push(first));
        } else {
            assert(full@ =~= board@.push(first).push(second));
        }
    }
    full
}

/// Whether finished boards are those of a list.
pub open spec fn boards_match(boards: Seq<[Card; 5]>, list: Seq<Seq<Card>>) -> bool {
    &&& boards.len() == list.len()
    &&& forall|i: int| 0 <= i < boards.len() ==> (#[trigger] boards[i])@ == list[i]
}

fn all_runouts(board: &[Card], used_mask: u64) -> (r: Vec<[Card; 5]>)
    requires
        3 <= board@.len() <= 5,
    ensures
        boards_match(r@, runouts_of(board@, used_mask)),
        forall|i: int| 0 <= i < r@.len() ==> completes((#[trigger] r@[i])@, board@, used_mask),
        r@.len() <= 0x7fff_ffff,
{
    let mut boards: Vec<[Card; 5]> = Vec::new();
    if board.len() == 5 {
        boards.push(five_of(board, board[0], board[0]));
        assert(boards@[0]@.take(5) =~= board@);
        return boards;
    }
    if board.len() == 4 {
        let cards: Vec<Card> = remaining_cards(used_mask);
        for i in 0..cards.len()
            invariant
                board@.len() == 4,
                cards@ == deck_outside(used_mask),
                cards@.len() <= 52,
                forall|k: int|
                    0 <= k < cards@.len() ==> (#[trigger] cards@[k]).bit() & used_mask == 0,
                boards@.len() == i,
                forall|k: int|
                    0 <= k < i ==> (#[trigger] boards@[k])@ == board@.push(cards@[k]),
                forall|k: int|
                    0 <= k < i ==> completes((#[trigger] boards@[k])@, board@, used_mask),
        {
            let full: [Card; 5] = five_of(board, cards[i], cards[i]);
            assert(full@.take(4) =~= board@);
            assert(completes(full@, board@, used_mask));
            boards.push(full);
        }
        return boards;
    }
    let cards: Vec<Card> = remaining_cards(used_mask);
    let places: Vec<(usize, usize)> = index_pairs(cards.len());
    proof {
        pairs_are_all(cards@.len());
    }
    for i in 0..places.len()
        invariant
            board@.len() == 3,
            cards@ == deck_outside(used_mask),
            places@ == pairs(cards@.len()),
            places@.len() <= 0x7fff_ffff,
            forall|k: int|
                0 <= k < cards@.len() ==> (#[trigger] cards@[k]).bit() & used_mask == 0,
            forall|a: int, b: int|
                0 <= a < b < cards@.len() ==> (#[trigger] cards@[a]).id() < (
                #[trigger] cards@[b]).id(),
            forall|k: int|
                0 <= k < places@.len() ==> (#[trigger] places@[k]).0 < places@[k].1 < cards@.len(),
            boards@.len() == i,
            forall|k: int|
                0 <= k < i ==> (#[trigger] boards@[k])@ == board@.push(
                    cards@[places@[k].0 as int],
                ).push(cards@[places@[k].1 as int]),
            forall|k: int|
                0 <= k < i ==> completes((#[trigger] boards@[k])@, board@, used_mask),
    {
        let place: (usize, usize) = places[i];
        assert(places@[i as int].0 < places@[i as int].1 < cards@.len());
        let full: [Card; 5] = five_of(board, cards[place.0], cards[place.1]);
        proof {
            assert(full@.take(3) =~= board@);
            assert(full@[3] == cards@[place.0 as int]);
            assert(full@[4] == cards@[place.1 as int]);
            assert(completes(full@, board@, used_mask));
        }
        boards.push(full);
    }
    boards
}

/// The finished boards that are looked at.
pub fn sampled_runouts(board: &[Card], used_mask: u64, max_runouts: usize) -> (r: Vec<[Card; 5]>)
    requires
        3 <= board@.len() <= 5,
    ensures
        boards_match(r@, looked_at(runouts_of(board@, used_mask), max_runouts as nat)),
        forall|i: int| 0 <= i < r@.len() ==> completes((#[trigger] r@[i])@, board@, used_mask),
{
    let boards: Vec<[Card; 5]> = all_runouts(board, used_mask);
    if max_runouts == 0 || boards.len() <= max_runouts {
        return boards;
    }
    let mut drawn: Vec<[Card; 5]> = Vec::new();
    for i in 0..max_runouts
        invariant
            max_runouts < boards@.len() <= 0x7fff_ffff,
            boards_match(boards@, runouts_of(board@, used_mask)),
            forall|k: int|
                0 <= k < boards@.len() ==> completes((#[trigger] boards@[k])@, board@, used_mask),
            drawn@.len() == i,
            forall|k: int|
                0 <= k < i ==> (#[trigger] drawn@[k])@ == runouts_of(board@, used_mask)[drawn_place(
                    k,
                    boards@.len() as int,
                )],
            forall|k: int|
                0 <= k < i ==> completes((#[trigger] drawn@[k])@, board@, used_mask),
    {
        let place: usize = sampled_index(i, boards.len());
        let full: [Card; 5] = boards[place];
        assert(completes(boards@[place as int]@, board@, used_mask));
        drawn.push(full);
    }
    drawn
}

/// What a hand is worth on a finished board.
pub open spec fn worth(full: Seq<Card>, hand: Combo) -> nat {
    strength_on(full, PrivateCombo { first: hand.first, second: hand.second })
}

/// Whether a hand holds two different cards that are not on a finished board.
pub open spec fn is_off(full: Seq<Card>, hand: Combo) -> bool {
    &&& hand.first != hand.second
    &&& !full.contains(hand.first)
    &&& !full.contains(hand.second)
}

fn worth_of(full: [Card; 5], hand: Combo) -> (r: u64)
    requires
        all_different(full@),
        is_off(full@, hand),
    ensures
        r == worth(full@, hand),
{
    let cards: [Card; 7] = [
        hand.first,
        hand.second,
        full[0],
        full[1],
        full[2],
        full[3],
        full[4],
    ];
    proof {
        assert forall|i: int, j: int| 0 <= i < j < 7 implies #[trigger] cards@[i]
            != #[trigger] cards@[j] by {
            if i >= 2 {
                assert(cards@[i] == full@[i - 2] && cards@[j] == full@[j - 2]);
            } else if j >= 2 {
                assert(cards@[j] == full@[j - 2]);
                assert(full@.contains(full@[j - 2]));
            }
        }
        let want = full@.to_set().insert(hand.first).insert(hand.second);
        assert forall|card: Card| #[trigger] cards@.to_set().contains(card) == want.contains(
            card,
        ) by {
            if cards@.contains(card) {
                let i = choose|i: int| 0 <= i < 7 && cards@[i] == card;
                if i >= 2 {
                    assert(full@[i - 2] == card);
                    assert(full@.contains(card));
                }
            }
            if full@.contains(card) {
                let i = choose|i: int| 0 <= i < 5 && full@[i] == card;
                assert(cards@[i + 2] == card);
            }
            assert(cards@[0] == hand.first && cards@[1] == hand.second);
        }
        assert(cards@.to_set() =~= want);
    }
    evaluate_seven(cards).packed
}

/// What is counted over finished boards: wins, ties and all.
pub ghost struct Tally<S> {
    pub wins: S,
    pub ties: S,
    pub total: S,
}

/// The tally of the first `n` finished boards.
pub open spec fn tallied<S: Scalar>(boards: Seq<Seq<Card>>, oop: Combo, ip: Combo, n: nat) -> Tally<S>
    decreases n,
{
    if n == 0 {
        Tally { wins: S::zero_spec(), ties: S::zero_spec(), total: S::zero_spec() }
    } else {
        let front = tallied::<S>(boards, oop, ip, (n - 1) as nat);
        let (mine, other) = (worth(boards[n - 1], oop), worth(boards[n - 1], ip));
        Tally {
            wins: if mine > other {
                front.wins.plus_spec(S::one_spec())
            } else {
                front.wins
            },
            ties: if mine == other {
                front.ties.plus_spec(S::one_spec())
            } else {
                front.ties
            },
            total: front.total.plus_spec(S::one_spec()),
        }
    }
}

/// The share of the finished boards that a hand wins, ties counted half.
pub open spec fn share_of<S: Scalar>(tally: Tally<S>) -> S {
    if tally.total.same_spec(S::zero_spec()) {
        S::zero_spec()
    } else {
        tally.wins.plus_spec(tally.ties.times_spec(ratio_spec(1, 2))).over_spec(tally.total)
    }
}

/// The share of the pot that a hand wins against another over the cards to come.
pub open spec fn equity_spec<S: Scalar>(
    board: Seq<Card>,
    oop: PostflopCombo,
    ip: PostflopCombo,
    max_runouts: nat,
) -> S {
    if oop.mask & ip.mask != 0 {
        S::zero_spec()
    } else {
        let boards = looked_at(
            runouts_of(board, mask_of(board) | oop.mask | ip.mask),
            max_runouts,
        );
        share_of(tallied::<S>(boards, oop.combo, ip.combo, boards.len()))
    }
}

/// Whether a hand holds two different cards off a board.
pub open spec fn is_live(board: Seq<Card>, hand: PostflopCombo) -> bool {
    &&& hand.mask == hand.combo.mask_spec()
    &&& hand.combo.first != hand.combo.second
    &&& hand.mask & mask_of(board) == 0
}

proof fn lemma_completed(full: Seq<Card>, board: Seq<Card>, hand: PostflopCombo, used: u64, more: u64)
    requires
        all_different(board),
        completes(full, board, used),
        is_live(board, hand),
        used == (mask_of(board) | hand.mask) | more || used == (mask_of(board) | more) | hand.mask,
    ensures
        all_different(full),
        is_off(full, hand.combo),
{
    let n = board.len() as int;
    let (a, b) = (hand.combo.first, hand.combo.second);
    masks_together(a.bit(), b.bit(), mask_of(board));
    mask_of_contains(board, a);
    mask_of_contains(board, b);
    assert forall|i: int| n <= i < 5 implies !board.contains(#[trigger] full[i]) && full[i] != a
        && full[i] != b by {
        let c = full[i].bit();
        assert(c & used == 0);
        masks_together(used, used, c);
        if used == (mask_of(board) | hand.mask) | more {
            masks_together(mask_of(board) | hand.mask, more, c);
            masks_together(mask_of(board), hand.mask, c);
        } else {
            masks_together(mask_of(board) | more, hand.mask, c);
            masks_together(mask_of(board), more, c);
        }
        masks_together(mask_of(board), hand.mask, c);
        masks_together(c, c, mask_of(board));
        mask_of_contains(board, full[i]);
        masks_together(hand.mask, hand.mask, c);
        masks_together(a.bit(), b.bit(), c);
        card_bits_overlap(full[i], a);
        card_bits_overlap(full[i], b);
    }
    assert forall|i: int| 0 <= i < n implies #[trigger] full[i] == board[i] by {
        assert(full.take(n)[i] == board[i]);
    }
    assert forall|i: int, j: int| 0 <= i < j < full.len() implies #[trigger] full[i]
        != #[trigger] full[j] by {
        if j >= n && i < n {
            assert(full[i] == board[i]);
            assert(board.contains(board[i]));
        }
    }
    if full.contains(a) {
        let i = choose|i: int| 0 <= i < full.len() && full[i] == a;
        if i < n {
            assert(board[i] == a);
            assert(board.contains(a));
        }
    }
    if full.contains(b) {
        let i = choose|i: int| 0 <= i < full.len() && full[i] == b;
        if i < n {
            assert(board[i] == b);
            assert(board.contains(b));
        }
    }
}

/// The share of the pot that a hand wins against another over the cards to come.
pub fn combo_equity<S: Scalar>(
    board: &[Card],
    oop: &PostflopCombo,
    ip: &PostflopCombo,
    max_runouts: usize,
) -> (r: S)
    requires
        3 <= board@.len() <= 5,
        all_different(board@),
        is_live(board@, *oop),
        is_live(board@, *ip),
    ensures
        r == equity_spec::<S>(board@, *oop, *ip, max_runouts as nat),
{
    if oop.mask & ip.mask != 0 {
        return S::zero();
    }
    let used: u64 = board_mask(board) | oop.mask | ip.mask;
    let boards: Vec<[Card; 5]> = sampled_runouts(board, used, max_runouts);
    let ghost list = looked_at(runouts_of(board@, used), max_runouts as nat);
    let mut wins: S = S::zero();
    let mut ties: S = S::zero();
    let mut total: S = S::zero();
    for n in 0..boards.len()
        invariant
            all_different(board@),
            is_live(board@, *oop),
            is_live(board@, *ip),
            used == mask_of(board@) | oop.mask | ip.mask,
            boards_match(boards@, list),
            forall|i: int|
                0 <= i < boards@.len() ==> completes((#[trigger] boards@[i])@, board@, used),
            ({
                let tally = tallied::<S>(list, oop.combo, ip.combo, n as nat);
                wins == tally.wins && ties == tally.ties && total == tally.total
            }),
    {
        proof {
            assert(completes(boards@[n as int]@, board@, used));
            lemma_completed(boards@[n as int]@, board@, *oop, used, ip.mask);
            lemma_completed(boards@[n as int]@, board@, *ip, used, oop.mask);
        }
        let mine: u64 = worth_of(boards[n], oop.combo);
        let other: u64 = worth_of(boards[n], ip.combo);
        if mine > other {
            wins = wins.plus(S::one());
        } else if mine == other {
            ties = ties.plus(S::one());
        }
        total = total.plus(S::one());
    }
    if total.same(S::zero()) {
        S::zero()
    } else {
        wins.plus(ties.times(ratio(1, 2))).over(total)
    }
}

} // verus!
