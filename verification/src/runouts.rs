//! The cards still to come, one by one and in pairs.
use vstd::prelude::*;
use crate::cards::{deck_spec, deck_without, mask_of, mask_of_contains, masks_together, Board, Card};
use crate::deals::{deck_without_facts, index_pairs, pairs, pairs_are_all};

verus! {

/// The cards of the deck whose bits are not in a mask, in ascending order.
pub open spec fn deck_outside(dead_mask: u64) -> Seq<Card> {
    deck_spec().filter(|card: Card| card.bit() & dead_mask == 0)
}

/// The cards outside the mask of others are those without the others.
pub proof fn outside_is_without(cards: Seq<Card>)
    ensures
        deck_outside(mask_of(cards)) == deck_without(cards),
{
    let mask = mask_of(cards);
    let outside = |card: Card| card.bit() & mask == 0;
    let without = |card: Card| !cards.contains(card);
    assert forall|card: Card| #[trigger] outside(card) == without(card) by {
        mask_of_contains(cards, card);
        masks_together(card.bit(), card.bit(), mask);
    }
    assert(outside =~= without);
}

/// The cards whose bits are not in a mask, in ascending order.
pub fn remaining_cards(dead_mask: u64) -> (r: Vec<Card>)
    ensures
        r@ == deck_outside(dead_mask),
        r@.len() <= 52,
        forall|i: int, j: int|
            0 <= i < j < r@.len() ==> (#[trigger] r@[i]).id() < (#[trigger] r@[j]).id(),
        forall|i: int| 0 <= i < r@.len() ==> (#[trigger] r@[i]).bit() & dead_mask == 0,
{
    let mut cards: Vec<Card> = Vec::new();
    let ghost keep = |card: Card| card.bit() & dead_mask == 0;
    for i in 0..52
        invariant
            keep == (|card: Card| card.bit() & dead_mask == 0),
            cards@ == deck_spec().take(i as int).filter(keep),
            cards@.len() <= i,
            forall|k: int| 0 <= k < cards@.len() ==> (#[trigger] cards@[k]).id() < i,
            forall|j: int, k: int|
                0 <= j < k < cards@.len() ==> (#[trigger] cards@[j]).id() < (#[trigger] cards@[k]).id(),
            forall|k: int| 0 <= k < cards@.len() ==> (#[trigger] cards@[k]).bit() & dead_mask == 0,
    {
        let card: Card = Card::from_index(i as u8);
        proof {
            assert(deck_spec().take(i + 1).drop_last() =~= deck_spec().take(i as int));
            reveal(Seq::filter);
        }
        if card.deck_mask() & dead_mask == 0 {
            cards.push(card);
        }
    }
    proof {
        assert(deck_spec().take(52) =~= deck_spec());
    }
    cards
}

/// The pairs of a card with each of the first `m` others.
pub open spec fn runout_row(cards: Seq<Card>, turn: int, m: nat) -> Seq<(Card, Card)>
    decreases m,
{
    if m == 0 {
        Seq::empty()
    } else {
        let front = runout_row(cards, turn, (m - 1) as nat);
        if cards[turn] == cards[m - 1] {
            front
        } else {
            front.push((cards[turn], cards[m - 1]))
        }
    }
}

/// The pairs of each of the first `n` cards with each other card.
pub open spec fn runout_rows(cards: Seq<Card>, n: nat) -> Seq<(Card, Card)>
    decreases n,
{
    if n == 0 {
        Seq::empty()
    } else {
        runout_rows(cards, (n - 1) as nat) + runout_row(cards, n - 1, cards.len())
    }
}

/// The pairs of different cards in either order.
pub open spec fn ordered_pairs(cards: Seq<Card>) -> Seq<(Card, Card)> {
    runout_rows(cards, cards.len())
}

/// The pairs of different cards, each once.
pub open spec fn unordered_pairs(cards: Seq<Card>) -> Seq<(Card, Card)> {
    Seq::new(
        pairs(cards.len()).len(),
        |k: int|
            (cards[pairs(cards.len())[k].0 as int], cards[pairs(cards.len())[k].1 as int]),
    )
}

/// Whether no card is listed twice.
pub open spec fn ascend(cards: Seq<Card>) -> bool {
    forall|i: int, j: int|
        0 <= i < j < cards.len() ==> (#[trigger] cards[i]).id() < (#[trigger] cards[j]).id()
}

proof fn lemma_row_length(cards: Seq<Card>, turn: int, m: nat)
    requires
        ascend(cards),
        0 <= turn < cards.len(),
        m <= cards.len(),
    ensures
        runout_row(cards, turn, m).len() == m - (if turn < m {
            1int
        } else {
            0
        }),
    decreases m,
{
    if m > 0 {
        lemma_row_length(cards, turn, (m - 1) as nat);
        if turn < m - 1 {
            assert(cards[turn].id() < cards[m - 1].id());
        } else if turn > m - 1 {
            assert(cards[m - 1].id() < cards[turn].id());
        }
    }
}

/// Each card is followed by all others: so many pairs.
pub proof fn ordered_pair_count(cards: Seq<Card>, n: nat)
    requires
        ascend(cards),
        n <= cards.len(),
    ensures
        runout_rows(cards, n).len() == n * (cards.len() - 1),
    decreases n,
{
    if n > 0 {
        ordered_pair_count(cards, (n - 1) as nat);
        lemma_row_length(cards, n - 1, cards.len());
        assert(n * (cards.len() - 1) == (n - 1) * (cards.len() - 1) + (cards.len() - 1))
            by (nonlinear_arith);
    } else {
        assert(0 * (cards.len() - 1) == 0);
    }
}

/// Every ordered pair of cards still to come is a runout, and nothing else is.
pub proof fn ordered_pairs_are_all(cards: Seq<Card>, a: Card, b: Card)
    requires
        ascend(cards),
    ensures
        ordered_pairs(cards).contains((a, b)) == (a != b && cards.contains(a) && cards.contains(b)),
{
    lemma_rows_hold(cards, a, b, cards.len());
    if cards.contains(a) && cards.contains(b) && a != b {
        let i = choose|i: int| 0 <= i < cards.len() && cards[i] == a;
        assert(cards[i] == a);
    }
}

proof fn lemma_rows_hold(cards: Seq<Card>, a: Card, b: Card, n: nat)
    requires
        n <= cards.len(),
    ensures
        runout_rows(cards, n).contains((a, b)) == (a != b && cards.contains(b) && exists|i: int|
            0 <= i < n && #[trigger] cards[i] == a),
    decreases n,
{
    if n > 0 {
        lemma_rows_hold(cards, a, b, (n - 1) as nat);
        lemma_row_holds(cards, n - 1, a, b, cards.len());
        let front = runout_rows(cards, (n - 1) as nat);
        let row = runout_row(cards, n - 1, cards.len());
        let whole = runout_rows(cards, n);
        assert(whole == front + row);
        if front.contains((a, b)) {
            let k = choose|k: int| 0 <= k < front.len() && front[k] == (a, b);
            assert(whole[k] == (a, b));
        }
        if row.contains((a, b)) {
            let k = choose|k: int| 0 <= k < row.len() && row[k] == (a, b);
            assert(whole[front.len() + k] == (a, b));
            assert(cards[n - 1] == a);
        }
        if whole.contains((a, b)) {
            let k = choose|k: int| 0 <= k < whole.len() && whole[k] == (a, b);
            if k < front.len() {
                assert(front[k] == (a, b));
            } else {
                assert(row[k - front.len()] == (a, b));
            }
        }
        if cards.contains(b) {
            let j = choose|j: int| 0 <= j < cards.len() && cards[j] == b;
            assert(cards[j] == b);
        }
    } else {
        assert(runout_rows(cards, 0).len() == 0);
    }
}

proof fn lemma_row_holds(cards: Seq<Card>, turn: int, a: Card, b: Card, m: nat)
    requires
        0 <= turn < cards.len(),
        m <= cards.len(),
    ensures
        runout_row(cards, turn, m).contains((a, b)) == (a == cards[turn] && a != b && exists|j: int|
            0 <= j < m && #[trigger] cards[j] == b),
    decreases m,
{
    if m > 0 {
        lemma_row_holds(cards, turn, a, b, (m - 1) as nat);
        let front = runout_row(cards, turn, (m - 1) as nat);
        let whole = runout_row(cards, turn, m);
        if front.contains((a, b)) {
            let k = choose|k: int| 0 <= k < front.len() && front[k] == (a, b);
            assert(whole[k] == (a, b));
        }
        if cards[turn] != cards[m - 1] {
            assert(whole[front.len() as int] == (cards[turn], cards[m - 1]));
        }
        if whole.contains((a, b)) {
            let k = choose|k: int| 0 <= k < whole.len() && whole[k] == (a, b);
            if k < front.len() {
                assert(front[k] == (a, b));
            } else {
                assert(cards[m - 1] == b);
            }
        }
    } else {
        assert(runout_row(cards, turn, 0).len() == 0);
    }
}

/// The turns and rivers that can come, in either order.
pub fn ordered_runouts_from_dead_mask(dead_mask: u64) -> (r: Vec<(Card, Card)>)
    ensures
        r@ == ordered_pairs(deck_outside(dead_mask)),
        r@.len() == deck_outside(dead_mask).len() * (deck_outside(dead_mask).len() - 1),
{
    let cards: Vec<Card> = remaining_cards(dead_mask);
    let mut runouts: Vec<(Card, Card)> = Vec::new();
    for i in 0..cards.len()
        invariant
            runouts@ == runout_rows(cards@, i as nat),
    {
        let turn: Card = cards[i];
        let ghost front = runouts@;
        proof {
            assert(front + runout_row(cards@, i as int, 0) =~= front);
        }
        for j in 0..cards.len()
            invariant
                i < cards@.len(),
                turn == cards@[i as int],
                runouts@ =~= front + runout_row(cards@, i as int, j as nat),
        {
            if turn != cards[j] {
                runouts.push((turn, cards[j]));
            }
        }
    }
    proof {
        assert(ascend(cards@));
        ordered_pair_count(cards@, cards@.len());
    }
    runouts
}

/// The turns and rivers that can come, each pair once.
pub fn unordered_runouts_from_dead_mask(dead_mask: u64) -> (r: Vec<(Card, Card)>)
    ensures
        r@ == unordered_pairs(deck_outside(dead_mask)),
        2 * r@.len() == deck_outside(dead_mask).len() * (deck_outside(dead_mask).len() - 1),
{
    let cards: Vec<Card> = remaining_cards(dead_mask);
    let places: Vec<(usize, usize)> = index_pairs(cards.len());
    proof {
        pairs_are_all(cards@.len());
    }
    let mut runouts: Vec<(Card, Card)> = Vec::new();
    for k in 0..places.len()
        invariant
            places@ == pairs(cards@.len()),
            forall|l: int|
                0 <= l < places@.len() ==> (#[trigger] places@[l]).0 < places@[l].1 < cards@.len(),
            runouts@ =~= unordered_pairs(cards@).take(k as int),
    {
        proof {
            assert(places@[k as int].0 < places@[k as int].1 < cards@.len());
        }
        runouts.push((cards[places[k].0], cards[places[k].1]));
    }
    proof {
        assert(runouts@ =~= unordered_pairs(cards@));
    }
    runouts
}

/// The turns and rivers that can come on a flop, in either order.
pub fn ordered_runouts(board: &Board) -> (r: Vec<(Card, Card)>)
    requires
        board.wf(),
        board@.len() == 3,
    ensures
        r@ == ordered_pairs(deck_without(board@)),
        r@.len() == 49 * 48,
{
    proof {
        outside_is_without(board@);
        board.wf_facts();
        deck_without_facts(board@);
        assert(49 * 48 == 2352);
    }
    ordered_runouts_from_dead_mask(board.deck_mask())
}

/// The turns and rivers that can come on a flop, each pair once.
pub fn unordered_runouts(board: &Board) -> (r: Vec<(Card, Card)>)
    requires
        board.wf(),
        board@.len() == 3,
    ensures
        r@ == unordered_pairs(deck_without(board@)),
        r@.len() == 49 * 48 / 2,
{
    proof {
        outside_is_without(board@);
        board.wf_facts();
        deck_without_facts(board@);
    }
    unordered_runouts_from_dead_mask(board.deck_mask())
}

} // verus!
