//! Hands of five to seven cards and what they are worth.
use vstd::prelude::*;
use crate::cards::{Card, Rank, Suit, card_position_round_trip};
use crate::hand_value::{
    hand_value, hand_value_monotone, lead, lemma_lead_bound, masks_fit, top_two,
};
use crate::rank_mask::{
    holds, is_mask, lemma_bits, lemma_mask_ops, lemma_straight, lemma_straight_mask, lemma_top_bounds,
    lemma_top_within, lemma_within, lemma_within_both, lemma_within_use, rest, single, size, straight,
    straight_mask, top, within,
};

verus! {

/// The card of a rank and a suit, both by position.
pub open spec fn card_at(rank: int, suit: int) -> Card {
    Card { rank: Rank::at(rank), suit: Suit::at(suit) }
}

/// One if the hand holds a card, else zero.
pub open spec fn one_if_held(hand: Set<Card>, rank: int, suit: int) -> nat {
    if hand.contains(card_at(rank, suit)) {
        1
    } else {
        0
    }
}

/// How many cards of a rank the hand holds.
pub open spec fn rank_count(hand: Set<Card>, rank: int) -> nat {
    one_if_held(hand, rank, 0) + one_if_held(hand, rank, 1) + one_if_held(hand, rank, 2)
        + one_if_held(hand, rank, 3)
}

/// The mask of the ranks below `n` that satisfy a predicate.
pub open spec fn mask_where(p: spec_fn(int) -> bool, n: nat) -> u16
    decreases n,
{
    if n == 0 {
        0
    } else if p(n - 1) {
        mask_where(p, (n - 1) as nat) | (1u16 << ((n - 1) as u16))
    } else {
        mask_where(p, (n - 1) as nat)
    }
}

/// The ranks that the hand holds at least `k` times.
pub open spec fn ranks_at_least(hand: Set<Card>, k: nat) -> u16 {
    mask_where(|r: int| rank_count(hand, r) >= k, 13)
}

/// The ranks that the hand holds of a suit.
pub open spec fn suit_ranks(hand: Set<Card>, suit: int) -> u16 {
    mask_where(|r: int| hand.contains(card_at(r, suit)), 13)
}

/// The ranks of the first suit that the hand holds five times or more; empty if there is none.
pub open spec fn flush_ranks(hand: Set<Card>) -> u16 {
    if size(suit_ranks(hand, 0)) >= 5 {
        suit_ranks(hand, 0)
    } else if size(suit_ranks(hand, 1)) >= 5 {
        suit_ranks(hand, 1)
    } else if size(suit_ranks(hand, 2)) >= 5 {
        suit_ranks(hand, 2)
    } else if size(suit_ranks(hand, 3)) >= 5 {
        suit_ranks(hand, 3)
    } else {
        0
    }
}

/// What a hand is worth: a higher number beats a lower one, equal numbers tie.
pub open spec fn strength(hand: Set<Card>) -> nat {
    hand_value(
        ranks_at_least(hand, 1),
        ranks_at_least(hand, 2),
        ranks_at_least(hand, 3),
        ranks_at_least(hand, 4),
        flush_ranks(hand),
    )
}

pub proof fn lemma_mask_where(p: spec_fn(int) -> bool, n: nat)
    requires
        n <= 13,
    ensures
        is_mask(mask_where(p, n)),
        forall|i: int| 0 <= i < 13 ==> #[trigger] holds(mask_where(p, n), i) == (i < n && p(i)),
    decreases n,
{
    if n == 0 {
        assert forall|i: int| 0 <= i < 13 implies #[trigger] holds(mask_where(p, n), i) == (i < n
            && p(i)) by {
            lemma_bits(0, 0, i, 0);
        }
    } else {
        lemma_mask_where(p, (n - 1) as nat);
        let m = mask_where(p, (n - 1) as nat);
        let b = 1u16 << ((n - 1) as u16);
        lemma_mask_ops(m, 0, (n - 1) as u16);
        lemma_mask_ops(m, b, (n - 1) as u16);
        assert forall|i: int| 0 <= i < 13 implies #[trigger] holds(mask_where(p, n), i) == (i < n
            && p(i)) by {
            lemma_bits(m, b, i, n - 1);
            assert(holds(m, i) == (i < n - 1 && p(i)));
        }
    }
}

pub proof fn lemma_ranks_at_least(hand: Set<Card>, k: nat)
    ensures
        is_mask(ranks_at_least(hand, k)),
        forall|i: int|
            0 <= i < 13 ==> #[trigger] holds(ranks_at_least(hand, k), i) == (rank_count(hand, i)
                >= k),
{
    lemma_mask_where(|r: int| rank_count(hand, r) >= k, 13);
}

pub proof fn lemma_suit_ranks(hand: Set<Card>, suit: int)
    ensures
        is_mask(suit_ranks(hand, suit)),
        forall|i: int|
            0 <= i < 13 ==> #[trigger] holds(suit_ranks(hand, suit), i) == hand.contains(
                card_at(i, suit),
            ),
{
    lemma_mask_where(|r: int| hand.contains(card_at(r, suit)), 13);
}

/// How many of the first `n` ranks a mask holds.
spec fn held_below(mask: u16, n: nat) -> nat
    decreases n,
{
    if n == 0 {
        0
    } else {
        held_below(mask, (n - 1) as nat) + (if holds(mask, n - 1) {
            1nat
        } else {
            0
        })
    }
}

proof fn lemma_size(mask: u16)
    ensures
        size(mask) == held_below(mask, 13),
{
    reveal_with_fuel(held_below, 14);
    assert((mask & 1 == (if mask & (1u16 << 0u16) != 0 {
        1u16
    } else {
        0
    })) && ((mask >> 1) & 1 == (if mask & (1u16 << 1u16) != 0 {
        1u16
    } else {
        0
    })) && ((mask >> 2) & 1 == (if mask & (1u16 << 2u16) != 0 {
        1u16
    } else {
        0
    })) && ((mask >> 3) & 1 == (if mask & (1u16 << 3u16) != 0 {
        1u16
    } else {
        0
    })) && ((mask >> 4) & 1 == (if mask & (1u16 << 4u16) != 0 {
        1u16
    } else {
        0
    })) && ((mask >> 5) & 1 == (if mask & (1u16 << 5u16) != 0 {
        1u16
    } else {
        0
    })) && ((mask >> 6) & 1 == (if mask & (1u16 << 6u16) != 0 {
        1u16
    } else {
        0
    })) && ((mask >> 7) & 1 == (if mask & (1u16 << 7u16) != 0 {
        1u16
    } else {
        0
    })) && ((mask >> 8) & 1 == (if mask & (1u16 << 8u16) != 0 {
        1u16
    } else {
        0
    })) && ((mask >> 9) & 1 == (if mask & (1u16 << 9u16) != 0 {
        1u16
    } else {
        0
    })) && ((mask >> 10) & 1 == (if mask & (1u16 << 10u16) != 0 {
        1u16
    } else {
        0
    })) && ((mask >> 11) & 1 == (if mask & (1u16 << 11u16) != 0 {
        1u16
    } else {
        0
    })) && ((mask >> 12) & 1 == (if mask & (1u16 << 12u16) != 0 {
        1u16
    } else {
        0
    }))) by (bit_vector);
}

proof fn lemma_held_within(m: u16, o: u16, n: nat)
    requires
        n <= 13,
        within(m, o),
    ensures
        held_below(m, n) <= held_below(o, n),
    decreases n,
{
    if n > 0 {
        lemma_held_within(m, o, (n - 1) as nat);
        if holds(m, n - 1) {
            lemma_within_use(m, o, n - 1);
        }
    }
}

/// How many cards of the first `n` ranks a hand holds.
spec fn cards_below(hand: Set<Card>, n: nat) -> nat
    decreases n,
{
    if n == 0 {
        0
    } else {
        cards_below(hand, (n - 1) as nat) + rank_count(hand, n - 1)
    }
}

proof fn lemma_cards_removed(hand: Set<Card>, card: Card, n: nat)
    requires
        hand.contains(card),
        n <= 13,
    ensures
        cards_below(hand, n) == cards_below(hand.remove(card), n) + (if card.rank.ord() < n {
            1nat
        } else {
            0
        }),
    decreases n,
{
    if n > 0 {
        lemma_cards_removed(hand, card, (n - 1) as nat);
        let r = n - 1;
        card_position_round_trip(card, 0);
        assert(Rank::at(r).ord() == r);
        assert forall|s: int| 0 <= s < 4 implies #[trigger] Suit::at(s).ord() == s by {}
        if card.rank.ord() == r {
            assert(card.rank == Rank::at(r));
            assert(card == card_at(r, card.suit.ord() as int));
        }
    }
}

proof fn lemma_cards_total(hand: Set<Card>)
    requires
        hand.finite(),
    ensures
        cards_below(hand, 13) == hand.len(),
    decreases hand.len(),
{
    if hand.len() == 0 {
        assert(hand =~= Set::empty());
        lemma_cards_none(13);
    } else {
        let card = hand.choose();
        lemma_cards_removed(hand, card, 13);
        lemma_cards_total(hand.remove(card));
    }
}

proof fn lemma_cards_none(n: nat)
    ensures
        cards_below(Set::empty(), n) == 0,
    decreases n,
{
    if n > 0 {
        lemma_cards_none((n - 1) as nat);
    }
}

/// The cards of three different ranks are among the cards of the hand.
proof fn lemma_three_ranks(hand: Set<Card>, x: int, y: int, z: int, n: nat)
    requires
        x != y,
        y != z,
        x != z,
        0 <= x,
        0 <= y,
        0 <= z,
    ensures
        cards_below(hand, n) >= (if x < n {
            rank_count(hand, x)
        } else {
            0
        }) + (if y < n {
            rank_count(hand, y)
        } else {
            0
        }) + (if z < n {
            rank_count(hand, z)
        } else {
            0
        }),
    decreases n,
{
    if n > 0 {
        lemma_three_ranks(hand, x, y, z, (n - 1) as nat);
    }
}

/// The cards of two different suits are among the cards of the hand.
proof fn lemma_two_suits(hand: Set<Card>, s: int, t: int, n: nat)
    requires
        0 <= s < t < 4,
        n <= 13,
    ensures
        cards_below(hand, n) >= held_below(suit_ranks(hand, s), n) + held_below(
            suit_ranks(hand, t),
            n,
        ),
    decreases n,
{
    if n > 0 {
        lemma_two_suits(hand, s, t, (n - 1) as nat);
        lemma_suit_ranks(hand, s);
        lemma_suit_ranks(hand, t);
        assert(holds(suit_ranks(hand, s), n - 1) == hand.contains(card_at(n - 1, s)));
        assert(holds(suit_ranks(hand, t), n - 1) == hand.contains(card_at(n - 1, t)));
    }
}

/// A hand of at most seven cards has at most one suit five times.
proof fn lemma_flush_suit(hand: Set<Card>, s: int)
    requires
        hand.finite(),
        hand.len() <= 7,
        0 <= s < 4,
        size(suit_ranks(hand, s)) >= 5,
    ensures
        flush_ranks(hand) == suit_ranks(hand, s),
{
    lemma_cards_total(hand);
    assert forall|t: int| 0 <= t < 4 && t != s implies size(#[trigger] suit_ranks(hand, t)) < 5 by {
        if t < s {
            lemma_two_suits(hand, t, s, 13);
        } else {
            lemma_two_suits(hand, s, t, 13);
        }
        lemma_size(suit_ranks(hand, s));
        lemma_size(suit_ranks(hand, t));
    }
    assert(size(suit_ranks(hand, 0)) >= 5 ==> s == 0);
    assert(size(suit_ranks(hand, 1)) >= 5 ==> s == 1);
    assert(size(suit_ranks(hand, 2)) >= 5 ==> s == 2);
    assert(size(suit_ranks(hand, 3)) >= 5 ==> s == 3);
}

/// The rank at the top of a mask, by position.
proof fn lemma_top_held(m: u16)
    requires
        is_mask(m),
        m != 0,
    ensures
        holds(m, top(m) - 2),
        0 <= top(m) - 2 < 13,
        !holds(rest(m), top(m) - 2),
        forall|i: int|
            0 <= i < 13 ==> #[trigger] holds(m, i) == (holds(rest(m), i) || i == top(m) - 2),
{
    lemma_top_bounds(m);
    let v = top(m);
    assert((1u16 << v) >> 2 == 1u16 << ((v - 2) as u16)) by (bit_vector)
        requires
            2 <= v <= 14,
    ;
    assert forall|i: int| 0 <= i < 13 implies #[trigger] holds(m, i) == (holds(rest(m), i) || i
        == top(m) - 2) by {
        lemma_bits(rest(m), single(v), i, v - 2);
    }
    lemma_bits(rest(m), single(v), v - 2, v - 2);
}

/// The masks of a hand of at most seven cards fit together.
proof fn lemma_hand_masks(hand: Set<Card>)
    requires
        hand.finite(),
        hand.len() <= 7,
    ensures
        masks_fit(
            ranks_at_least(hand, 1),
            ranks_at_least(hand, 2),
            ranks_at_least(hand, 3),
            ranks_at_least(hand, 4),
            flush_ranks(hand),
        ),
{
    let a1 = ranks_at_least(hand, 1);
    let a2 = ranks_at_least(hand, 2);
    let a3 = ranks_at_least(hand, 3);
    let a4 = ranks_at_least(hand, 4);
    lemma_ranks_at_least(hand, 1);
    lemma_ranks_at_least(hand, 2);
    lemma_ranks_at_least(hand, 3);
    lemma_ranks_at_least(hand, 4);
    lemma_suit_ranks(hand, 0);
    lemma_suit_ranks(hand, 1);
    lemma_suit_ranks(hand, 2);
    lemma_suit_ranks(hand, 3);
    assert forall|i: int| 0 <= i < 13 && #[trigger] holds(a2, i) implies holds(a1, i) by {}
    lemma_within(a2, a1);
    assert forall|i: int| 0 <= i < 13 && #[trigger] holds(a3, i) implies holds(a2, i) by {}
    lemma_within(a3, a2);
    assert forall|i: int| 0 <= i < 13 && #[trigger] holds(a4, i) implies holds(a3, i) by {}
    lemma_within(a4, a3);
    let f = flush_ranks(hand);
    assert(is_mask(f));
    assert forall|i: int| 0 <= i < 13 && #[trigger] holds(f, i) implies holds(a1, i) by {
        lemma_bits(0, 0, i, 0);
        assert(holds(suit_ranks(hand, 0), i) ==> hand.contains(card_at(i, 0)));
        assert(holds(suit_ranks(hand, 1), i) ==> hand.contains(card_at(i, 1)));
        assert(holds(suit_ranks(hand, 2), i) ==> hand.contains(card_at(i, 2)));
        assert(holds(suit_ranks(hand, 3), i) ==> hand.contains(card_at(i, 3)));
    }
    lemma_within(f, a1);
    lemma_cards_total(hand);
    if a4 != 0 && rest(a4) != 0 {
        lemma_top_held(a4);
        lemma_top_bounds(a4);
        lemma_top_held(rest(a4));
        let x = top(a4) - 2;
        let y = top(rest(a4)) - 2;
        assert(holds(a4, y));
        let z: int = if x != 0 && y != 0 {
            0
        } else if x != 1 && y != 1 {
            1
        } else {
            2
        };
        lemma_three_ranks(hand, x, y, z, 13);
        assert(false);
    }
    if rest(a3) != 0 {
        lemma_top_bounds(a3);
        assert(rest(0) == 0) by (bit_vector);
        lemma_top_held(a3);
        lemma_top_held(rest(a3));
        let x = top(a3) - 2;
        let y = top(rest(a3)) - 2;
        assert(holds(a3, y));
        assert forall|i: int| 0 <= i < 13 && #[trigger] holds(a2, i) implies holds(a3, i) by {
            if i != x && i != y {
                lemma_three_ranks(hand, x, y, i, 13);
            }
        }
        lemma_within(a2, a3);
        lemma_within_both(a2, a3);
    }
}

/// A hand of at most seven cards is worth at least as much as any of its parts.
pub proof fn strength_monotone(part: Set<Card>, hand: Set<Card>)
    requires
        hand.finite(),
        hand.len() <= 7,
        part.subset_of(hand),
    ensures
        strength(part) <= strength(hand),
        within(ranks_at_least(part, 1), ranks_at_least(hand, 1)),
        within(ranks_at_least(part, 2), ranks_at_least(hand, 2)),
        within(ranks_at_least(part, 3), ranks_at_least(hand, 3)),
        within(ranks_at_least(part, 4), ranks_at_least(hand, 4)),
        within(flush_ranks(part), flush_ranks(hand)),
        masks_fit(
            ranks_at_least(part, 1),
            ranks_at_least(part, 2),
            ranks_at_least(part, 3),
            ranks_at_least(part, 4),
            flush_ranks(part),
        ),
{
    vstd::set_lib::lemma_len_subset(part, hand);
    lemma_hand_masks(part);
    lemma_hand_masks(hand);
    assert forall|k: nat| within(#[trigger] ranks_at_least(part, k), ranks_at_least(hand, k)) by {
        lemma_ranks_at_least(part, k);
        lemma_ranks_at_least(hand, k);
        assert forall|i: int| 0 <= i < 13 && #[trigger] holds(ranks_at_least(part, k), i) implies holds(
            ranks_at_least(hand, k),
            i,
        ) by {}
        lemma_within(ranks_at_least(part, k), ranks_at_least(hand, k));
    }
    assert forall|s: int| 0 <= s < 4 implies within(
        #[trigger] suit_ranks(part, s),
        suit_ranks(hand, s),
    ) by {
        lemma_suit_ranks(part, s);
        lemma_suit_ranks(hand, s);
        assert forall|i: int| 0 <= i < 13 && #[trigger] holds(suit_ranks(part, s), i) implies holds(
            suit_ranks(hand, s),
            i,
        ) by {
            assert(part.contains(card_at(i, s)));
        }
        lemma_within(suit_ranks(part, s), suit_ranks(hand, s));
    }
    let f = flush_ranks(hand);
    if size(suit_ranks(part, 0)) >= 5 {
        lemma_flush_grows(part, hand, 0);
    } else if size(suit_ranks(part, 1)) >= 5 {
        lemma_flush_grows(part, hand, 1);
    } else if size(suit_ranks(part, 2)) >= 5 {
        lemma_flush_grows(part, hand, 2);
    } else if size(suit_ranks(part, 3)) >= 5 {
        lemma_flush_grows(part, hand, 3);
    } else {
        assert(0u16 & !f == 0) by (bit_vector);
    }
    hand_value_monotone(
        ranks_at_least(part, 1),
        ranks_at_least(part, 2),
        ranks_at_least(part, 3),
        ranks_at_least(part, 4),
        flush_ranks(part),
        ranks_at_least(hand, 1),
        ranks_at_least(hand, 2),
        ranks_at_least(hand, 3),
        ranks_at_least(hand, 4),
        flush_ranks(hand),
    );
}

proof fn lemma_flush_grows(part: Set<Card>, hand: Set<Card>, s: int)
    requires
        hand.finite(),
        hand.len() <= 7,
        0 <= s < 4,
        within(suit_ranks(part, s), suit_ranks(hand, s)),
        size(suit_ranks(part, s)) >= 5,
    ensures
        flush_ranks(hand) == suit_ranks(hand, s),
{
    lemma_size(suit_ranks(part, s));
    lemma_size(suit_ranks(hand, s));
    lemma_held_within(suit_ranks(part, s), suit_ranks(hand, s), 13);
    lemma_flush_suit(hand, s);
}

/// Five cards, some of which may coincide.
spec fn five(a: Card, b: Card, c: Card, d: Card, e: Card) -> Set<Card> {
    Set::<Card>::empty().insert(a).insert(b).insert(c).insert(d).insert(e)
}

/// Some cards of a hand extend to five cards of it.
proof fn grow(keep: Set<Card>, hand: Set<Card>) -> (part: Set<Card>)
    requires
        hand.finite(),
        keep.subset_of(hand),
        keep.len() <= 5,
        hand.len() >= 5,
    ensures
        keep.subset_of(part),
        part.subset_of(hand),
        part.finite(),
        part.len() == 5,
    decreases 5 - keep.len(),
{
    vstd::set_lib::lemma_len_subset(keep, hand);
    if keep.len() == 5 {
        keep
    } else {
        let more = hand.difference(keep);
        if more =~= Set::empty() {
            assert forall|card: Card| hand.contains(card) implies keep.contains(card) by {
                assert(!more.contains(card));
            }
            assert(hand =~= keep);
        }
        let card = more.choose();
        grow(keep.insert(card), hand)
    }
}

/// Five cards of a hand, given ones among them.
proof fn keep_five(hand: Set<Card>, a: Card, b: Card, c: Card, d: Card, e: Card) -> (part: Set<Card>)
    requires
        hand.finite(),
        hand.len() >= 5,
        hand.contains(a),
        hand.contains(b),
        hand.contains(c),
        hand.contains(d),
        hand.contains(e),
    ensures
        part.subset_of(hand),
        part.finite(),
        part.len() == 5,
        part.contains(a),
        part.contains(b),
        part.contains(c),
        part.contains(d),
        part.contains(e),
{
    let keep = five(a, b, c, d, e);
    assert(keep.len() <= 5);
    let part = grow(keep, hand);
    assert(keep.contains(a) && keep.contains(b) && keep.contains(c) && keep.contains(d)
        && keep.contains(e));
    part
}

/// A suit that the hand holds of a rank.
proof fn one_suit(hand: Set<Card>, r: int) -> (s: int)
    requires
        rank_count(hand, r) >= 1,
    ensures
        0 <= s < 4,
        hand.contains(card_at(r, s)),
{
    if hand.contains(card_at(r, 0)) {
        0
    } else if hand.contains(card_at(r, 1)) {
        1
    } else if hand.contains(card_at(r, 2)) {
        2
    } else {
        3
    }
}

/// Two suits that the hand holds of a rank.
proof fn two_suits(hand: Set<Card>, r: int) -> (s: (int, int))
    requires
        rank_count(hand, r) >= 2,
    ensures
        0 <= s.0 < s.1 < 4,
        hand.contains(card_at(r, s.0)),
        hand.contains(card_at(r, s.1)),
{
    if hand.contains(card_at(r, 0)) && hand.contains(card_at(r, 1)) {
        (0, 1)
    } else if hand.contains(card_at(r, 0)) && hand.contains(card_at(r, 2)) {
        (0, 2)
    } else if hand.contains(card_at(r, 0)) {
        (0, 3)
    } else if hand.contains(card_at(r, 1)) && hand.contains(card_at(r, 2)) {
        (1, 2)
    } else if hand.contains(card_at(r, 1)) {
        (1, 3)
    } else {
        (2, 3)
    }
}

/// Three suits that the hand holds of a rank.
proof fn three_suits(hand: Set<Card>, r: int) -> (s: (int, int, int))
    requires
        rank_count(hand, r) >= 3,
    ensures
        0 <= s.0 < s.1 < s.2 < 4,
        hand.contains(card_at(r, s.0)),
        hand.contains(card_at(r, s.1)),
        hand.contains(card_at(r, s.2)),
{
    if !hand.contains(card_at(r, 0)) {
        (1, 2, 3)
    } else if !hand.contains(card_at(r, 1)) {
        (0, 2, 3)
    } else if !hand.contains(card_at(r, 2)) {
        (0, 1, 3)
    } else {
        (0, 1, 2)
    }
}

/// The mask without its highest `j` ranks.
spec fn nth_rest(m: u16, j: nat) -> u16
    decreases j,
{
    if j == 0 {
        m
    } else {
        nth_rest(rest(m), (j - 1) as nat)
    }
}

/// The position of the rank after the highest `j`.
spec fn nth_rank(m: u16, j: nat) -> int {
    top(nth_rest(m, j)) - 2
}

proof fn lemma_nth_rest(m: u16, j: nat)
    requires
        is_mask(m),
    ensures
        is_mask(nth_rest(m, j)),
        forall|i: int| 0 <= i < 13 && #[trigger] holds(nth_rest(m, j), i) ==> holds(m, i),
        nth_rest(m, j) != 0 ==> 0 <= nth_rank(m, j) < 13 && holds(m, nth_rank(m, j)),
    decreases j,
{
    lemma_top_bounds(m);
    if j > 0 {
        lemma_nth_rest(rest(m), (j - 1) as nat);
        assert forall|i: int| 0 <= i < 13 && #[trigger] holds(nth_rest(m, j), i) implies holds(
            m,
            i,
        ) by {
            assert(holds(rest(m), i));
            lemma_within_use(rest(m), m, i);
        }
    }
    if nth_rest(m, j) != 0 {
        lemma_top_held(nth_rest(m, j));
    }
}

/// A mask that holds the highest ranks of another leads at least as high.
proof fn lemma_lead_picks(m: u16, o: u16, n: nat, w: nat)
    requires
        is_mask(m),
        is_mask(o),
        w <= 5,
        forall|j: nat| j < n && #[trigger] nth_rest(m, j) != 0 ==> holds(o, nth_rank(m, j)),
    ensures
        lead(m, n, w) <= lead(o, n, w),
    decreases n,
{
    if n == 0 || w == 0 || m == 0 {
    } else {
        assert(nth_rest(m, 0) == m);
        assert(holds(o, nth_rank(m, 0)));
        lemma_top_held(m);
        lemma_top_bounds(m);
        if o == 0 {
            lemma_bits(0, 0, top(m) - 2, 0);
        }
        lemma_top_held(o);
        lemma_top_bounds(o);
        lemma_held_below_top(o, top(m) - 2);
        lemma_lead_bound(rest(m), (n - 1) as nat, (w - 1) as nat);
        if top(m) == top(o) {
            assert forall|j: nat|
                j < n - 1 && #[trigger] nth_rest(rest(m), j) != 0 implies holds(
                rest(o),
                nth_rank(rest(m), j),
            ) by {
                assert(nth_rest(m, j + 1) == nth_rest(rest(m), j));
                lemma_nth_rest(rest(m), j);
                assert(holds(o, nth_rank(m, j + 1)));
                assert(holds(rest(m), nth_rank(rest(m), j)));
            }
            lemma_lead_picks(rest(m), rest(o), (n - 1) as nat, (w - 1) as nat);
        }
    }
}

proof fn lemma_held_below_top(m: u16, i: int)
    requires
        is_mask(m),
        0 <= i < 13,
        holds(m, i),
    ensures
        top(m) >= i + 2,
{
    let k = i as u16;
    let t = top(m);
    assert(t >= k + 2) by (bit_vector)
        requires
            m & (1u16 << k) != 0,
            m < 0x2000,
            k < 13,
            t == top(m),
    ;
}

/// A card of the hand of the rank after the highest `j` of a mask, if the mask has one.
proof fn pick(hand: Set<Card>, m: u16, j: nat, other: Card) -> (card: Card)
    requires
        within(m, ranks_at_least(hand, 1)),
        hand.contains(other),
    ensures
        hand.contains(card),
        nth_rest(m, j) != 0 ==> 0 <= nth_rank(m, j) < 13 && exists|s: int|
            0 <= s < 4 && card == #[trigger] card_at(nth_rank(m, j), s),
{
    lemma_ranks_at_least(hand, 1);
    lemma_top_within(m, ranks_at_least(hand, 1));
    lemma_nth_rest(m, j);
    if nth_rest(m, j) != 0 {
        lemma_within_use(m, ranks_at_least(hand, 1), nth_rank(m, j));
        let s = one_suit(hand, nth_rank(m, j));
        card_at(nth_rank(m, j), s)
    } else {
        other
    }
}

/// What a part of a hand holds of a rank, from cards of it.
proof fn lemma_part_counts(part: Set<Card>, r: int, card: Card)
    requires
        0 <= r < 13,
        part.contains(card),
        exists|s: int| 0 <= s < 4 && card == #[trigger] card_at(r, s),
    ensures
        holds(ranks_at_least(part, 1), r),
{
    lemma_ranks_at_least(part, 1);
}

/// Every part of five cards, and thereby the best one, is found among the cards: the five that the
/// tie-breaking digits name are worth what the whole hand is worth.
#[verifier::spinoff_prover]
#[verifier::rlimit(40)]
pub proof fn best_five_exist(hand: Set<Card>) -> (part: Set<Card>)
    requires
        hand.finite(),
        5 <= hand.len() <= 7,
    ensures
        part.subset_of(hand),
        part.len() == 5,
        strength(part) == strength(hand),
{
    let a1 = ranks_at_least(hand, 1);
    let a2 = ranks_at_least(hand, 2);
    let a3 = ranks_at_least(hand, 3);
    let a4 = ranks_at_least(hand, 4);
    let f = flush_ranks(hand);
    lemma_hand_masks(hand);
    lemma_ranks_at_least(hand, 1);
    lemma_ranks_at_least(hand, 2);
    lemma_ranks_at_least(hand, 3);
    lemma_ranks_at_least(hand, 4);
    let part = if straight(f) != 0 {
        best_straight_flush(hand)
    } else if a4 != 0 {
        best_quads(hand)
    } else if rest(a3) != 0 || a3 != 0 && a2 & !a3 != 0 {
        best_full_house(hand)
    } else if f != 0 {
        best_flush(hand)
    } else if straight(a1) != 0 {
        best_straight(hand)
    } else if a3 != 0 {
        best_trips(hand)
    } else if rest(a2) != 0 {
        best_two_pair(hand)
    } else if a2 != 0 {
        best_pair(hand)
    } else {
        best_high_card(hand)
    };
    strength_monotone(part, hand);
    part
}

/// The suit of the flush ranks.
proof fn flush_suit(hand: Set<Card>) -> (s: int)
    requires
        flush_ranks(hand) != 0,
    ensures
        0 <= s < 4,
        flush_ranks(hand) == suit_ranks(hand, s),
        size(suit_ranks(hand, s)) >= 5,
{
    if size(suit_ranks(hand, 0)) >= 5 {
        0
    } else if size(suit_ranks(hand, 1)) >= 5 {
        1
    } else if size(suit_ranks(hand, 2)) >= 5 {
        2
    } else {
        3
    }
}

/// The positions of the ranks of a straight.
spec fn straight_rank(high: u16, j: int) -> int {
    if high == 5 && j == 4 {
        12
    } else if high == 5 {
        j
    } else {
        high - 6 + j
    }
}

proof fn lemma_straight_ranks(high: u16, i: int)
    requires
        5 <= high <= 14,
        0 <= i < 13,
    ensures
        holds(straight_mask(high), i) == (i == straight_rank(high, 0) || i == straight_rank(high, 1)
            || i == straight_rank(high, 2) || i == straight_rank(high, 3) || i == straight_rank(
            high,
            4,
        )),
{
    let k = i as u16;
    assert((straight_mask(high) & (1u16 << k) != 0) == (if high == 5 {
        k == 0 || k == 1 || k == 2 || k == 3 || k == 12
    } else {
        k + 6 == high || k + 5 == high || k + 4 == high || k + 3 == high || k + 2 == high
    })) by (bit_vector)
        requires
            5 <= high <= 14,
            k < 13,
    ;
}

proof fn best_straight_flush(hand: Set<Card>) -> (part: Set<Card>)
    requires
        hand.finite(),
        5 <= hand.len() <= 7,
        straight(flush_ranks(hand)) != 0,
    ensures
        part.subset_of(hand),
        part.finite(),
        part.len() == 5,
        strength(part) >= strength(hand),
{
    let f = flush_ranks(hand);
    assert(straight(0) == 0) by (bit_vector);
    let s = flush_suit(hand);
    lemma_suit_ranks(hand, s);
    lemma_straight(f);
    let h = straight(f);
    lemma_straight_mask(h);
    assert forall|j: int| 0 <= j < 5 implies hand.contains(
        card_at(#[trigger] straight_rank(h, j), s),
    ) by {
        let i = straight_rank(h, j);
        lemma_straight_ranks(h, i);
        lemma_within_use(straight_mask(h), f, i);
    }
    let part = keep_five(
        hand,
        card_at(straight_rank(h, 0), s),
        card_at(straight_rank(h, 1), s),
        card_at(straight_rank(h, 2), s),
        card_at(straight_rank(h, 3), s),
        card_at(straight_rank(h, 4), s),
    );
    lemma_suit_ranks(part, s);
    assert forall|i: int| 0 <= i < 13 && #[trigger] holds(straight_mask(h), i) implies holds(
        suit_ranks(part, s),
        i,
    ) by {
        lemma_straight_ranks(h, i);
    }
    lemma_within(straight_mask(h), suit_ranks(part, s));
    lemma_flush_of_five(part, s, straight_mask(h));
    lemma_straight_size(h);
    lemma_top_within(straight_mask(h), suit_ranks(part, s));
    part
}

proof fn lemma_straight_size(high: u16)
    requires
        5 <= high <= 14,
    ensures
        size(straight_mask(high)) == 5,
{
    lemma_size(straight_mask(high));
    reveal_with_fuel(held_below, 14);
    assert forall|i: int| 0 <= i < 13 implies #[trigger] holds(straight_mask(high), i) == (i
        == straight_rank(high, 0) || i == straight_rank(high, 1) || i == straight_rank(high, 2) || i
        == straight_rank(high, 3) || i == straight_rank(high, 4)) by {
        lemma_straight_ranks(high, i);
    }
}

/// A part that holds five ranks of a suit has that suit as its flush.
proof fn lemma_flush_of_five(part: Set<Card>, s: int, m: u16)
    requires
        part.finite(),
        part.len() <= 7,
        0 <= s < 4,
        within(m, suit_ranks(part, s)),
    ensures
        size(m) >= 5 ==> flush_ranks(part) == suit_ranks(part, s),
{
    if size(m) >= 5 {
        lemma_size(m);
        lemma_size(suit_ranks(part, s));
        lemma_held_within(m, suit_ranks(part, s), 13);
        lemma_flush_suit(part, s);
    }
}

proof fn best_quads(hand: Set<Card>) -> (part: Set<Card>)
    requires
        hand.finite(),
        5 <= hand.len() <= 7,
        straight(flush_ranks(hand)) == 0,
        ranks_at_least(hand, 4) != 0,
    ensures
        part.subset_of(hand),
        part.finite(),
        part.len() == 5,
        strength(part) >= strength(hand),
{
    let a1 = ranks_at_least(hand, 1);
    let a4 = ranks_at_least(hand, 4);
    lemma_hand_masks(hand);
    lemma_ranks_at_least(hand, 1);
    lemma_ranks_at_least(hand, 4);
    lemma_top_held(a4);
    let q = top(a4) - 2;
    let m = a1 & !a4;
    lemma_mask_ops(a1, a4, 0);
    let k = pick(hand, m, 0, card_at(q, 0));
    let part = keep_five(hand, card_at(q, 0), card_at(q, 1), card_at(q, 2), card_at(q, 3), k);
    strength_monotone(part, hand);
    lemma_ranks_at_least(part, 1);
    lemma_ranks_at_least(part, 4);
    let b1 = ranks_at_least(part, 1);
    let b4 = ranks_at_least(part, 4);
    assert(holds(b4, q));
    if b4 == 0 {
        lemma_bits(0, 0, q, 0);
    }
    lemma_only(b4, a4, q);
    lemma_top_bounds(m);
    if m != 0 {
        assert(nth_rest(m, 0) == m);
        lemma_part_counts(part, nth_rank(m, 0), k);
        lemma_top_held(m);
        lemma_bits(b1, b4, top(m) - 2, 0);
        lemma_bits(a1, a4, top(m) - 2, 0);
        lemma_mask_ops(b1, b4, 0);
        lemma_held_below_top(b1 & !b4, top(m) - 2);
    }
    part
}

/// A non-empty mask within a mask of one rank is that mask.
proof fn lemma_only(m: u16, n: u16, i: int)
    requires
        is_mask(n),
        within(m, n),
        0 <= i < 13,
        holds(m, i),
        rest(n) == 0,
    ensures
        m == n,
{
    lemma_top_within(m, n);
    if n == 0 {
        lemma_within_use(m, n, i);
        lemma_bits(0, 0, i, 0);
    }
    lemma_top_held(n);
    lemma_within_use(m, n, i);
    lemma_bits(0, 0, i, 0);
    assert(i == top(n) - 2);
    assert forall|j: int| 0 <= j < 13 && #[trigger] holds(n, j) implies holds(m, j) by {
        lemma_bits(0, 0, j, 0);
    }
    lemma_within(n, m);
    lemma_within_both(m, n);
}

proof fn best_full_house(hand: Set<Card>) -> (part: Set<Card>)
    requires
        hand.finite(),
        5 <= hand.len() <= 7,
        straight(flush_ranks(hand)) == 0,
        ranks_at_least(hand, 4) == 0,
        rest(ranks_at_least(hand, 3)) != 0 || (ranks_at_least(hand, 3) != 0 && ranks_at_least(
            hand,
            2,
        ) & !ranks_at_least(hand, 3) != 0),
    ensures
        part.subset_of(hand),
        part.finite(),
        part.len() == 5,
        strength(part) >= strength(hand),
{
    let a2 = ranks_at_least(hand, 2);
    let a3 = ranks_at_least(hand, 3);
    lemma_hand_masks(hand);
    lemma_ranks_at_least(hand, 2);
    lemma_ranks_at_least(hand, 3);
    lemma_mask_ops(a2, a3, 0);
    assert(rest(0) == 0) by (bit_vector);
    lemma_top_held(a3);
    lemma_top_bounds(a3);
    let x = top(a3) - 2;
    let m = if rest(a3) != 0 {
        rest(a3)
    } else {
        a2 & !a3
    };
    lemma_top_held(m);
    let y = top(m) - 2;
    lemma_bits(a2, a3, y, 0);
    assert(holds(a2, y)) by {
        if rest(a3) != 0 {
            assert(holds(a3, y));
        }
    }
    let (s, t, u) = three_suits(hand, x);
    let (v, w) = two_suits(hand, y);
    let part = keep_five(
        hand,
        card_at(x, s),
        card_at(x, t),
        card_at(x, u),
        card_at(y, v),
        card_at(y, w),
    );
    strength_monotone(part, hand);
    lemma_ranks_at_least(part, 2);
    lemma_ranks_at_least(part, 3);
    let b2 = ranks_at_least(part, 2);
    let b3 = ranks_at_least(part, 3);
    assert(holds(b3, x));
    assert(holds(b2, y));
    lemma_held_below_top(b3, x);
    lemma_top_within(b3, a3);
    assert(top(b3) == top(a3));
    if ranks_at_least(part, 4) != 0 {
        lemma_ranks_at_least(part, 4);
        lemma_top_held(ranks_at_least(part, 4));
        lemma_within_use(ranks_at_least(part, 4), 0, top(ranks_at_least(part, 4)) - 2);
        lemma_bits(0, 0, top(ranks_at_least(part, 4)) - 2, 0);
    }
    lemma_top_bounds(b3);
    assert(x != y) by {
        if rest(a3) != 0 {
        }
    }
    if holds(b3, y) {
        lemma_top_held(b3);
        assert(holds(rest(b3), y));
        lemma_held_below_top(rest(b3), y);
        if rest(b3) == 0 {
            lemma_bits(0, 0, y, 0);
        }
    } else {
        lemma_bits(b2, b3, y, 0);
        lemma_mask_ops(b2, b3, 0);
        lemma_held_below_top(b2 & !b3, y);
        if b2 & !b3 == 0 {
            lemma_bits(0, 0, y, 0);
        }
        if rest(b3) != 0 {
            // two triples would leave no room for the pair
            lemma_hand_masks(part);
        }
    }
    part
}

proof fn best_flush(hand: Set<Card>) -> (part: Set<Card>)
    requires
        hand.finite(),
        5 <= hand.len() <= 7,
        straight(flush_ranks(hand)) == 0,
        ranks_at_least(hand, 4) == 0,
        rest(ranks_at_least(hand, 3)) == 0,
        ranks_at_least(hand, 3) == 0 || ranks_at_least(hand, 2) & !ranks_at_least(hand, 3) == 0,
        flush_ranks(hand) != 0,
    ensures
        part.subset_of(hand),
        part.finite(),
        part.len() == 5,
        strength(part) >= strength(hand),
{
    let f = flush_ranks(hand);
    let s = flush_suit(hand);
    lemma_suit_ranks(hand, s);
    lemma_top_held(f);
    let other = card_at(top(f) - 2, s);
    let c0 = suited_pick(hand, s, 0, other);
    let c1 = suited_pick(hand, s, 1, other);
    let c2 = suited_pick(hand, s, 2, other);
    let c3 = suited_pick(hand, s, 3, other);
    let c4 = suited_pick(hand, s, 4, other);
    let part = keep_five(hand, c0, c1, c2, c3, c4);
    strength_monotone(part, hand);
    lemma_suit_ranks(part, s);
    let g = suit_ranks(part, s);
    lemma_top_five(f);
    lemma_nth_rest(f, 0);
    lemma_nth_rest(f, 1);
    lemma_nth_rest(f, 2);
    lemma_nth_rest(f, 3);
    lemma_nth_rest(f, 4);
    assert(holds(g, nth_rank(f, 0)));
    assert(holds(g, nth_rank(f, 1)));
    assert(holds(g, nth_rank(f, 2)));
    assert(holds(g, nth_rank(f, 3)));
    assert(holds(g, nth_rank(f, 4)));
    lemma_five_held(g, nth_rank(f, 0), nth_rank(f, 1), nth_rank(f, 2), nth_rank(f, 3), nth_rank(f, 4));
    lemma_flush_suit(part, s);
    assert forall|j: nat| j < 5 && #[trigger] nth_rest(f, j) != 0 implies holds(
        g,
        nth_rank(f, j),
    ) by {}
    lemma_lead_picks(f, g, 5, 5);
    lemma_no_full_house(part, hand);
    lemma_straight(g);
    lemma_top_within(g, f);
    part
}

/// No quadruple and no full house in a hand leaves none in a part.
proof fn lemma_no_full_house(part: Set<Card>, hand: Set<Card>)
    requires
        hand.finite(),
        hand.len() <= 7,
        part.subset_of(hand),
        ranks_at_least(hand, 4) == 0,
        rest(ranks_at_least(hand, 3)) == 0,
        ranks_at_least(hand, 3) == 0 || ranks_at_least(hand, 2) & !ranks_at_least(hand, 3) == 0,
    ensures
        ranks_at_least(part, 4) == 0,
        rest(ranks_at_least(part, 3)) == 0,
        ranks_at_least(part, 3) == 0 || ranks_at_least(part, 2) & !ranks_at_least(part, 3) == 0,
        ranks_at_least(part, 3) != 0 ==> ranks_at_least(part, 3) == ranks_at_least(hand, 3),
{
    strength_monotone(part, hand);
    lemma_hand_masks(hand);
    lemma_ranks_at_least(hand, 3);
    lemma_ranks_at_least(hand, 2);
    lemma_ranks_at_least(part, 3);
    lemma_ranks_at_least(part, 4);
    let b4 = ranks_at_least(part, 4);
    let b3 = ranks_at_least(part, 3);
    let b2 = ranks_at_least(part, 2);
    let a3 = ranks_at_least(hand, 3);
    let a2 = ranks_at_least(hand, 2);
    assert(b4 == 0) by (bit_vector)
        requires
            b4 & !0u16 == 0,
    ;
    if b3 != 0 {
        lemma_top_held(b3);
        lemma_only(b3, a3, top(b3) - 2);
        assert(b2 & !b3 == 0) by (bit_vector)
            requires
                b2 & !a2 == 0,
                b3 == a3,
                a2 & !a3 == 0 || a3 == 0,
                b3 != 0,
        ;
    } else {
        assert(rest(0) == 0) by (bit_vector);
    }
}

/// A card of the flush suit of the rank after the highest `j`, if there is one.
proof fn suited_pick(hand: Set<Card>, s: int, j: nat, other: Card) -> (card: Card)
    requires
        0 <= s < 4,
        hand.contains(other),
    ensures
        hand.contains(card),
        nth_rest(suit_ranks(hand, s), j) != 0 ==> card == card_at(
            nth_rank(suit_ranks(hand, s), j),
            s,
        ),
{
    lemma_suit_ranks(hand, s);
    lemma_nth_rest(suit_ranks(hand, s), j);
    if nth_rest(suit_ranks(hand, s), j) != 0 {
        card_at(nth_rank(suit_ranks(hand, s), j), s)
    } else {
        other
    }
}

/// A mask of five ranks or more has five highest ones, in descending order.
proof fn lemma_top_five(m: u16)
    requires
        is_mask(m),
        size(m) >= 5,
    ensures
        nth_rest(m, 0) != 0,
        nth_rest(m, 1) != 0,
        nth_rest(m, 2) != 0,
        nth_rest(m, 3) != 0,
        nth_rest(m, 4) != 0,
        nth_rank(m, 0) > nth_rank(m, 1) > nth_rank(m, 2) > nth_rank(m, 3) > nth_rank(m, 4) >= 0,
{
    lemma_size(m);
    reveal_with_fuel(nth_rest, 6);
    lemma_rest_size(m);
    lemma_rest_size(nth_rest(m, 1));
    lemma_rest_size(nth_rest(m, 2));
    lemma_rest_size(nth_rest(m, 3));
    lemma_rest_size(nth_rest(m, 4));
}

proof fn lemma_rest_size(m: u16)
    requires
        is_mask(m),
    ensures
        is_mask(rest(m)),
        m != 0 ==> held_below(m, 13) == held_below(rest(m), 13) + 1,
        m == 0 ==> held_below(m, 13) == 0,
        rest(m) != 0 ==> top(rest(m)) < top(m),
        m != 0 ==> top(m) >= 2,
{
    lemma_top_bounds(m);
    lemma_top_bounds(rest(m));
    if m != 0 {
        lemma_top_held(m);
        lemma_held_but_one(m, rest(m), top(m) - 2, 13);
        if rest(m) != 0 {
            lemma_top_held(rest(m));
            lemma_held_below_top(m, top(rest(m)) - 2);
        }
    } else {
        lemma_held_empty(13);
    }
}

proof fn lemma_held_empty(n: nat)
    requires
        n <= 13,
    ensures
        held_below(0, n) == 0,
    decreases n,
{
    if n > 0 {
        lemma_held_empty((n - 1) as nat);
        lemma_bits(0, 0, n - 1, 0);
    }
}

proof fn lemma_held_but_one(m: u16, o: u16, i: int, n: nat)
    requires
        n <= 13,
        0 <= i < 13,
        !holds(o, i),
        forall|j: int| 0 <= j < 13 ==> #[trigger] holds(m, j) == (holds(o, j) || j == i),
    ensures
        held_below(m, n) == held_below(o, n) + (if i < n {
            1nat
        } else {
            0
        }),
    decreases n,
{
    if n > 0 {
        lemma_held_but_one(m, o, i, (n - 1) as nat);
        assert(holds(m, n - 1) == (holds(o, n - 1) || n - 1 == i));
    }
}

/// A mask that holds five different ranks has size five or more.
proof fn lemma_five_held(m: u16, a: int, b: int, c: int, d: int, e: int)
    requires
        13 > a > b > c > d > e >= 0,
        holds(m, a),
        holds(m, b),
        holds(m, c),
        holds(m, d),
        holds(m, e),
    ensures
        size(m) >= 5,
{
    lemma_size(m);
    lemma_held_steps(m, 0, e);
    lemma_held_steps(m, (e + 1) as nat, d);
    lemma_held_steps(m, (d + 1) as nat, c);
    lemma_held_steps(m, (c + 1) as nat, b);
    lemma_held_steps(m, (b + 1) as nat, a);
    lemma_held_grows(m, (a + 1) as nat, 13);
}

proof fn lemma_held_grows(m: u16, k: nat, n: nat)
    requires
        k <= n,
    ensures
        held_below(m, k) <= held_below(m, n),
    decreases n,
{
    if k < n {
        lemma_held_grows(m, k, (n - 1) as nat);
    }
}

proof fn lemma_held_steps(m: u16, k: nat, i: int)
    requires
        k <= i,
        holds(m, i),
    ensures
        held_below(m, (i + 1) as nat) >= held_below(m, k) + 1,
{
    lemma_held_grows(m, k, i as nat);
}

proof fn best_straight(hand: Set<Card>) -> (part: Set<Card>)
    requires
        hand.finite(),
        5 <= hand.len() <= 7,
        flush_ranks(hand) == 0,
        ranks_at_least(hand, 4) == 0,
        rest(ranks_at_least(hand, 3)) == 0,
        ranks_at_least(hand, 3) == 0 || ranks_at_least(hand, 2) & !ranks_at_least(hand, 3) == 0,
        straight(ranks_at_least(hand, 1)) != 0,
    ensures
        part.subset_of(hand),
        part.finite(),
        part.len() == 5,
        strength(part) >= strength(hand),
{
    let a1 = ranks_at_least(hand, 1);
    assert(straight(0) == 0) by (bit_vector);
    lemma_ranks_at_least(hand, 1);
    lemma_straight(a1);
    let h = straight(a1);
    lemma_straight_mask(h);
    assert forall|j: int| 0 <= j < 5 implies rank_count(hand, #[trigger] straight_rank(h, j)) >= 1 by {
        let i = straight_rank(h, j);
        lemma_straight_ranks(h, i);
        lemma_within_use(straight_mask(h), a1, i);
    }
    let r0 = straight_rank(h, 0);
    let r1 = straight_rank(h, 1);
    let r2 = straight_rank(h, 2);
    let r3 = straight_rank(h, 3);
    let r4 = straight_rank(h, 4);
    let s0 = one_suit(hand, r0);
    let s1 = one_suit(hand, r1);
    let s2 = one_suit(hand, r2);
    let s3 = one_suit(hand, r3);
    let s4 = one_suit(hand, r4);
    let part = keep_five(
        hand,
        card_at(r0, s0),
        card_at(r1, s1),
        card_at(r2, s2),
        card_at(r3, s3),
        card_at(r4, s4),
    );
    strength_monotone(part, hand);
    lemma_ranks_at_least(part, 1);
    let b1 = ranks_at_least(part, 1);
    assert forall|i: int| 0 <= i < 13 && #[trigger] holds(straight_mask(h), i) implies holds(b1, i) by {
        lemma_straight_ranks(h, i);
    }
    lemma_within(straight_mask(h), b1);
    lemma_top_within(straight_mask(h), b1);
    lemma_no_flush(part, hand);
    lemma_no_full_house(part, hand);
    part
}

proof fn lemma_no_flush(part: Set<Card>, hand: Set<Card>)
    requires
        hand.finite(),
        hand.len() <= 7,
        part.subset_of(hand),
        flush_ranks(hand) == 0,
    ensures
        flush_ranks(part) == 0,
        straight(flush_ranks(part)) == 0,
{
    strength_monotone(part, hand);
    let g = flush_ranks(part);
    assert(g == 0) by (bit_vector)
        requires
            g & !0u16 == 0,
    ;
    assert(straight(0) == 0) by (bit_vector);
}

proof fn best_trips(hand: Set<Card>) -> (part: Set<Card>)
    requires
        hand.finite(),
        5 <= hand.len() <= 7,
        flush_ranks(hand) == 0,
        ranks_at_least(hand, 4) == 0,
        rest(ranks_at_least(hand, 3)) == 0,
        ranks_at_least(hand, 2) & !ranks_at_least(hand, 3) == 0,
        straight(ranks_at_least(hand, 1)) == 0,
        ranks_at_least(hand, 3) != 0,
    ensures
        part.subset_of(hand),
        part.finite(),
        part.len() == 5,
        strength(part) >= strength(hand),
{
    let a1 = ranks_at_least(hand, 1);
    let a3 = ranks_at_least(hand, 3);
    assert(straight(0) == 0) by (bit_vector);
    lemma_ranks_at_least(hand, 1);
    lemma_ranks_at_least(hand, 3);
    lemma_top_held(a3);
    let x = top(a3) - 2;
    let m = a1 & !a3;
    lemma_mask_ops(a1, a3, 0);
    let (s, t, u) = three_suits(hand, x);
    let other = card_at(x, s);
    let k0 = pick(hand, m, 0, other);
    let k1 = pick(hand, m, 1, other);
    let part = keep_five(hand, other, card_at(x, t), card_at(x, u), k0, k1);
    strength_monotone(part, hand);
    lemma_no_flush(part, hand);
    lemma_no_full_house(part, hand);
    lemma_ranks_at_least(part, 1);
    lemma_ranks_at_least(part, 3);
    let b1 = ranks_at_least(part, 1);
    let b3 = ranks_at_least(part, 3);
    assert(holds(b3, x));
    if b3 == 0 {
        lemma_bits(0, 0, x, 0);
    }
    lemma_kickers(part, m, b1, a1, a3, 0, k0);
    lemma_kickers(part, m, b1, a1, a3, 1, k1);
    lemma_mask_ops(b1, b3, 0);
    assert forall|j: nat| j < 2 && #[trigger] nth_rest(m, j) != 0 implies holds(
        b1 & !b3,
        nth_rank(m, j),
    ) by {}
    lemma_lead_picks(m, b1 & !b3, 2, 4);
    lemma_top_within(b1, a1);
    lemma_straight(b1);
    part
}

/// A kicker kept in a part is a kicker of the part.
proof fn lemma_kickers(part: Set<Card>, m: u16, b1: u16, a1: u16, p: u16, j: nat, card: Card)
    requires
        is_mask(a1),
        is_mask(p),
        m == a1 & !p,
        b1 == ranks_at_least(part, 1),
        part.contains(card),
        nth_rest(m, j) != 0 ==> 0 <= nth_rank(m, j) < 13 && exists|s: int|
            0 <= s < 4 && card == #[trigger] card_at(nth_rank(m, j), s),
    ensures
        nth_rest(m, j) != 0 ==> holds(b1 & !p, nth_rank(m, j)),
{
    lemma_mask_ops(a1, p, 0);
    if nth_rest(m, j) != 0 {
        let i = nth_rank(m, j);
        lemma_nth_rest(m, j);
        lemma_part_counts(part, i, card);
        lemma_bits(a1, p, i, 0);
        lemma_bits(b1, p, i, 0);
    }
}

proof fn best_two_pair(hand: Set<Card>) -> (part: Set<Card>)
    requires
        hand.finite(),
        5 <= hand.len() <= 7,
        flush_ranks(hand) == 0,
        ranks_at_least(hand, 4) == 0,
        ranks_at_least(hand, 3) == 0,
        straight(ranks_at_least(hand, 1)) == 0,
        rest(ranks_at_least(hand, 2)) != 0,
    ensures
        part.subset_of(hand),
        part.finite(),
        part.len() == 5,
        strength(part) >= strength(hand),
{
    let a1 = ranks_at_least(hand, 1);
    let a2 = ranks_at_least(hand, 2);
    assert(straight(0) == 0 && rest(0) == 0) by (bit_vector);
    lemma_hand_masks(hand);
    lemma_ranks_at_least(hand, 1);
    lemma_ranks_at_least(hand, 2);
    lemma_top_bounds(a2);
    lemma_top_held(a2);
    lemma_top_bounds(rest(a2));
    lemma_top_held(rest(a2));
    let x = top(a2) - 2;
    let y = top(rest(a2)) - 2;
    assert(holds(a2, y));
    lemma_top_two(a2);
    let p = top_two(a2);
    let m = a1 & !p;
    lemma_mask_ops(a2, rest(rest(a2)), 0);
    lemma_mask_ops(a1, p, 0);
    let (s, t) = two_suits(hand, x);
    let (u, v) = two_suits(hand, y);
    let other = card_at(x, s);
    let k0 = pick(hand, m, 0, other);
    let part = keep_five(hand, other, card_at(x, t), card_at(y, u), card_at(y, v), k0);
    strength_monotone(part, hand);
    lemma_no_flush(part, hand);
    lemma_no_full_house(part, hand);
    lemma_ranks_at_least(part, 1);
    lemma_ranks_at_least(part, 2);
    let b1 = ranks_at_least(part, 1);
    let b2 = ranks_at_least(part, 2);
    let b3 = ranks_at_least(part, 3);
    if b3 != 0 {
        lemma_ranks_at_least(part, 3);
        lemma_top_held(b3);
        lemma_within_use(b3, 0, top(b3) - 2);
        lemma_bits(0, 0, top(b3) - 2, 0);
    }
    assert(holds(b2, x));
    assert(holds(b2, y));
    lemma_held_below_top(b2, x);
    lemma_top_within(b2, a2);
    assert(top(b2) == top(a2));
    if b2 == 0 {
        lemma_bits(0, 0, x, 0);
    }
    lemma_top_held(b2);
    assert(holds(rest(b2), y));
    lemma_top_bounds(b2);
    lemma_held_below_top(rest(b2), y);
    lemma_top_within(rest(b2), rest(a2));
    if rest(b2) == 0 {
        lemma_bits(0, 0, y, 0);
    }
    lemma_top_two(b2);
    lemma_top_two_equal(a2, b2);
    lemma_kickers(part, m, b1, a1, p, 0, k0);
    lemma_top_bounds(rest(b2));
    lemma_mask_ops(b2, rest(rest(b2)), 0);
    lemma_mask_ops(b1, p, 0);
    assert forall|j: nat| j < 1 && #[trigger] nth_rest(m, j) != 0 implies holds(
        b1 & !p,
        nth_rank(m, j),
    ) by {}
    lemma_lead_picks(m, b1 & !p, 1, 3);
    lemma_top_within(b1, a1);
    lemma_straight(b1);
    part
}

proof fn lemma_top_two(m: u16)
    requires
        is_mask(m),
        rest(m) != 0,
    ensures
        is_mask(top_two(m)),
        forall|i: int|
            0 <= i < 13 ==> #[trigger] holds(top_two(m), i) == (i == top(m) - 2 || i == top(rest(m))
                - 2),
{
    assert(rest(0) == 0) by (bit_vector);
    lemma_top_bounds(m);
    lemma_top_bounds(rest(m));
    lemma_top_held(m);
    lemma_top_held(rest(m));
    let r = rest(rest(m));
    lemma_mask_ops(m, r, 0);
    assert forall|i: int| 0 <= i < 13 implies #[trigger] holds(top_two(m), i) == (i == top(m) - 2 || i
        == top(rest(m)) - 2) by {
        lemma_bits(m, r, i, 0);
        assert(holds(m, i) == (holds(rest(m), i) || i == top(m) - 2));
        assert(holds(rest(m), i) == (holds(r, i) || i == top(rest(m)) - 2));
    }
}

proof fn lemma_top_two_equal(m: u16, o: u16)
    requires
        is_mask(m),
        is_mask(o),
        rest(m) != 0,
        rest(o) != 0,
        top(m) == top(o),
        top(rest(m)) == top(rest(o)),
    ensures
        top_two(m) == top_two(o),
{
    lemma_top_two(m);
    lemma_top_two(o);
    assert forall|i: int| 0 <= i < 13 && #[trigger] holds(top_two(m), i) implies holds(top_two(o), i) by {}
    assert forall|i: int| 0 <= i < 13 && #[trigger] holds(top_two(o), i) implies holds(top_two(m), i) by {}
    lemma_within(top_two(m), top_two(o));
    lemma_within(top_two(o), top_two(m));
    lemma_within_both(top_two(m), top_two(o));
}

proof fn best_pair(hand: Set<Card>) -> (part: Set<Card>)
    requires
        hand.finite(),
        5 <= hand.len() <= 7,
        flush_ranks(hand) == 0,
        ranks_at_least(hand, 4) == 0,
        ranks_at_least(hand, 3) == 0,
        straight(ranks_at_least(hand, 1)) == 0,
        rest(ranks_at_least(hand, 2)) == 0,
        ranks_at_least(hand, 2) != 0,
    ensures
        part.subset_of(hand),
        part.finite(),
        part.len() == 5,
        strength(part) >= strength(hand),
{
    let a1 = ranks_at_least(hand, 1);
    let a2 = ranks_at_least(hand, 2);
    assert(straight(0) == 0 && rest(0) == 0) by (bit_vector);
    lemma_hand_masks(hand);
    lemma_ranks_at_least(hand, 1);
    lemma_ranks_at_least(hand, 2);
    lemma_top_held(a2);
    let x = top(a2) - 2;
    let m = a1 & !a2;
    lemma_mask_ops(a1, a2, 0);
    let (s, t) = two_suits(hand, x);
    let other = card_at(x, s);
    let k0 = pick(hand, m, 0, other);
    let k1 = pick(hand, m, 1, other);
    let k2 = pick(hand, m, 2, other);
    let part = keep_five(hand, other, card_at(x, t), k0, k1, k2);
    strength_monotone(part, hand);
    lemma_no_flush(part, hand);
    lemma_no_full_house(part, hand);
    lemma_ranks_at_least(part, 1);
    lemma_ranks_at_least(part, 2);
    let b1 = ranks_at_least(part, 1);
    let b2 = ranks_at_least(part, 2);
    let b3 = ranks_at_least(part, 3);
    if b3 != 0 {
        lemma_ranks_at_least(part, 3);
        lemma_top_held(b3);
        lemma_within_use(b3, 0, top(b3) - 2);
        lemma_bits(0, 0, top(b3) - 2, 0);
    }
    assert(holds(b2, x));
    lemma_only(b2, a2, x);
    lemma_kickers(part, m, b1, a1, a2, 0, k0);
    lemma_kickers(part, m, b1, a1, a2, 1, k1);
    lemma_kickers(part, m, b1, a1, a2, 2, k2);
    lemma_mask_ops(b1, b2, 0);
    assert forall|j: nat| j < 3 && #[trigger] nth_rest(m, j) != 0 implies holds(
        b1 & !b2,
        nth_rank(m, j),
    ) by {}
    lemma_lead_picks(m, b1 & !b2, 3, 4);
    lemma_top_within(b1, a1);
    lemma_straight(b1);
    part
}

proof fn best_high_card(hand: Set<Card>) -> (part: Set<Card>)
    requires
        hand.finite(),
        5 <= hand.len() <= 7,
        flush_ranks(hand) == 0,
        ranks_at_least(hand, 4) == 0,
        ranks_at_least(hand, 3) == 0,
        straight(ranks_at_least(hand, 1)) == 0,
        ranks_at_least(hand, 2) == 0,
    ensures
        part.subset_of(hand),
        part.finite(),
        part.len() == 5,
        strength(part) >= strength(hand),
{
    let a1 = ranks_at_least(hand, 1);
    assert(straight(0) == 0 && rest(0) == 0) by (bit_vector);
    lemma_hand_masks(hand);
    lemma_ranks_at_least(hand, 1);
    let other = hand.choose();
    assert(a1 & !a1 == 0) by (bit_vector);
    let k0 = pick(hand, a1, 0, other);
    let k1 = pick(hand, a1, 1, other);
    let k2 = pick(hand, a1, 2, other);
    let k3 = pick(hand, a1, 3, other);
    let k4 = pick(hand, a1, 4, other);
    let part = keep_five(hand, k0, k1, k2, k3, k4);
    strength_monotone(part, hand);
    lemma_no_flush(part, hand);
    lemma_no_full_house(part, hand);
    let b1 = ranks_at_least(part, 1);
    let b2 = ranks_at_least(part, 2);
    let b3 = ranks_at_least(part, 3);
    assert(b2 == 0 && b3 == 0) by (bit_vector)
        requires
            b2 & !0u16 == 0,
            b3 & !0u16 == 0,
    ;
    lemma_ranks_at_least(part, 1);
    assert forall|j: nat| j < 5 && #[trigger] nth_rest(a1, j) != 0 implies holds(
        b1,
        nth_rank(a1, j),
    ) by {
        let card = if j == 0 {
            k0
        } else if j == 1 {
            k1
        } else if j == 2 {
            k2
        } else if j == 3 {
            k3
        } else {
            k4
        };
        lemma_part_counts(part, nth_rank(a1, j), card);
    }
    lemma_lead_picks(a1, b1, 5, 5);
    lemma_top_within(b1, a1);
    lemma_straight(b1);
    part
}

/// The strength of a hand of five to seven cards is that of its best five cards: some five of them
/// reach it, and none exceed it.
pub proof fn strength_is_best_five(hand: Set<Card>)
    requires
        hand.finite(),
        5 <= hand.len() <= 7,
    ensures
        exists|part: Set<Card>|
            #[trigger] part.subset_of(hand) && part.len() == 5 && strength(part) == strength(hand),
        forall|part: Set<Card>|
            #[trigger] part.subset_of(hand) && part.len() == 5 ==> strength(part) <= strength(hand),
{
    let part = best_five_exist(hand);
    assert(part.subset_of(hand));
    assert forall|part: Set<Card>| #[trigger] part.subset_of(hand) && part.len() == 5 implies strength(
        part,
    ) <= strength(hand) by {
        strength_monotone(part, hand);
    }
}

} // verus!
