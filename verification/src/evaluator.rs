//! Evaluation of hands, one card at a time.
use vstd::prelude::*;
use crate::cards::{Card, Rank, Suit};
use crate::hand_eval::{
    card_at, flush_ranks, lemma_ranks_at_least, lemma_suit_ranks, mask_where, rank_count,
    ranks_at_least, strength, strength_monotone, suit_ranks,
};
use crate::hand_value::{hand_value, lead, lemma_lead_bound, masks_fit, top_two, weight};
use crate::rank_mask::{
    holds, is_mask, lemma_bits, lemma_mask_ops, lemma_top_bounds, lemma_within, lemma_within_both,
    rest, size, straight, top,
};

verus! {

/// What a hand is worth, packed into one number.
#[derive(Clone, Copy, Debug, PartialEq, Eq, PartialOrd, Ord, Hash, Structural)]
pub struct HandValue {
    pub packed: u64,
}

/// The ranks and suits of the cards added so far.
#[derive(Clone, Copy, Debug)]
pub struct SevenCardAccum {
    rank_counts: [u8; 13],
    count_to_rank_mask: [u16; 5],
    suit_rank_masks: [u16; 4],
    rank_mask: u16,
}

/// The value of the highest rank of a mask, zero if it is empty.
pub fn highest_rank(mask: u16) -> (r: u8)
    ensures
        r == top(mask),
{
    if mask & 0x1000 != 0 {
        14
    } else if mask & 0x800 != 0 {
        13
    } else if mask & 0x400 != 0 {
        12
    } else if mask & 0x200 != 0 {
        11
    } else if mask & 0x100 != 0 {
        10
    } else if mask & 0x80 != 0 {
        9
    } else if mask & 0x40 != 0 {
        8
    } else if mask & 0x20 != 0 {
        7
    } else if mask & 0x10 != 0 {
        6
    } else if mask & 0x8 != 0 {
        5
    } else if mask & 0x4 != 0 {
        4
    } else if mask & 0x2 != 0 {
        3
    } else if mask & 0x1 != 0 {
        2
    } else {
        0
    }
}

/// The mask without its highest rank.
pub fn without_highest(mask: u16) -> (r: u16)
    ensures
        r == rest(mask),
{
    if mask & 0x1000 != 0 {
        mask & 0xfff
    } else if mask & 0x800 != 0 {
        mask & 0x7ff
    } else if mask & 0x400 != 0 {
        mask & 0x3ff
    } else if mask & 0x200 != 0 {
        mask & 0x1ff
    } else if mask & 0x100 != 0 {
        mask & 0xff
    } else if mask & 0x80 != 0 {
        mask & 0x7f
    } else if mask & 0x40 != 0 {
        mask & 0x3f
    } else if mask & 0x20 != 0 {
        mask & 0x1f
    } else if mask & 0x10 != 0 {
        mask & 0xf
    } else if mask & 0x8 != 0 {
        mask & 0x7
    } else if mask & 0x4 != 0 {
        mask & 0x3
    } else if mask & 0x2 != 0 {
        mask & 0x1
    } else {
        0
    }
}

/// The two highest ranks of a mask.
pub fn keep_top_two(mask: u16) -> (r: u16)
    ensures
        r == top_two(mask),
{
    mask & !without_highest(without_highest(mask))
}

/// The value of the highest rank of the highest straight of a mask, if it holds one.
pub fn straight_high_from_mask(mask: u16) -> (r: Option<u8>)
    ensures
        r == (if straight(mask) == 0 {
            None::<u8>
        } else {
            Some(straight(mask) as u8)
        }),
        r is Some ==> r->0 == straight(mask),
{
    if mask & 0x1f00 == 0x1f00 {
        Some(14)
    } else if mask & 0xf80 == 0xf80 {
        Some(13)
    } else if mask & 0x7c0 == 0x7c0 {
        Some(12)
    } else if mask & 0x3e0 == 0x3e0 {
        Some(11)
    } else if mask & 0x1f0 == 0x1f0 {
        Some(10)
    } else if mask & 0xf8 == 0xf8 {
        Some(9)
    } else if mask & 0x7c == 0x7c {
        Some(8)
    } else if mask & 0x3e == 0x3e {
        Some(7)
    } else if mask & 0x1f == 0x1f {
        Some(6)
    } else if mask & 0x100f == 0x100f {
        Some(5)
    } else {
        None
    }
}

/// How many ranks a mask holds.
pub fn count_ranks(mask: u16) -> (r: usize)
    ensures
        r == size(mask),
{
    let mut count: u16 = mask & 1;
    proof {
        assert(mask & 1 <= 1 && (mask >> 1) & 1 <= 1 && (mask >> 2) & 1 <= 1 && (mask >> 3) & 1 <= 1
            && (mask >> 4) & 1 <= 1 && (mask >> 5) & 1 <= 1 && (mask >> 6) & 1 <= 1 && (mask >> 7) & 1
            <= 1 && (mask >> 8) & 1 <= 1 && (mask >> 9) & 1 <= 1 && (mask >> 10) & 1 <= 1 && (mask
            >> 11) & 1 <= 1 && (mask >> 12) & 1 <= 1) by (bit_vector);
    }
    count = count + ((mask >> 1) & 1) + ((mask >> 2) & 1) + ((mask >> 3) & 1) + ((mask >> 4) & 1);
    count = count + ((mask >> 5) & 1) + ((mask >> 6) & 1) + ((mask >> 7) & 1) + ((mask >> 8) & 1);
    count = count + ((mask >> 9) & 1) + ((mask >> 10) & 1) + ((mask >> 11) & 1) + ((mask >> 12) & 1);
    count as usize
}

/// The highest `count` ranks of a mask as digits of descending weight.
pub fn pack_mask(mask: u16, count: usize, width: usize) -> (r: u64)
    requires
        is_mask(mask),
        count <= width <= 5,
    ensures
        r == lead(mask, count as nat, width as nat),
        r < weight(width as nat),
{
    proof {
        lemma_lead_bound(mask, count as nat, width as nat);
    }
    let mut unit: u64 = 1;
    for i in 0..width
        invariant
            unit == weight(i as nat),
            i <= width <= 5,
    {
        unit = unit * 16;
    }
    let mut value: u64 = 0;
    let mut left: u16 = mask;
    let mut i: usize = 0;
    while i < count && left != 0
        invariant
            is_mask(mask),
            is_mask(left),
            i <= count <= width <= 5,
            unit == weight((width - i) as nat),
            value + lead(left, (count - i) as nat, (width - i) as nat) == lead(
                mask,
                count as nat,
                width as nat,
            ),
            value <= 0x100000000,
            lead(mask, count as nat, width as nat) < weight(width as nat),
        decreases count - i,
    {
        proof {
            lemma_top_bounds(left);
        }
        unit = unit / 16;
        value = value + (highest_rank(left) as u64) * unit;
        left = without_highest(left);
        i = i + 1;
    }
    value
}

/// The value of a hand from the masks of the ranks that occur at least once to four times, and of
/// its flush.
pub fn value_of_masks(a1: u16, a2: u16, a3: u16, a4: u16, flush: u16) -> (r: u64)
    requires
        masks_fit(a1, a2, a3, a4, flush),
    ensures
        r == hand_value(a1, a2, a3, a4, flush),
{
    proof {
        lemma_mask_ops(a1, a1, 0);
        assert(a2 < 0x2000 && a3 < 0x2000 && a4 < 0x2000 && flush < 0x2000) by (bit_vector)
            requires
                a1 < 0x2000,
                a2 & !a1 == 0,
                a3 & !a2 == 0,
                a4 & !a3 == 0,
                flush & !a1 == 0,
        ;
        lemma_mask_ops(a1, a3, 0);
        lemma_mask_ops(a1, a2, 0);
        lemma_top_bounds(a2);
        lemma_top_bounds(rest(a2));
        lemma_mask_ops(a2, rest(rest(a2)), 0);
        lemma_mask_ops(a1, top_two(a2), 0);
    }
    if let Some(high) = straight_high_from_mask(flush) {
        return 8 * 1048576 + (high as u64) * 65536;
    }
    if a4 != 0 {
        return 7 * 1048576 + (highest_rank(a4) as u64) * 65536 + (highest_rank(a1 & !a4) as u64)
            * 4096;
    }
    if without_highest(a3) != 0 {
        return 6 * 1048576 + (highest_rank(a3) as u64) * 65536 + (highest_rank(without_highest(a3))
            as u64) * 4096;
    }
    if a3 != 0 && a2 & !a3 != 0 {
        return 6 * 1048576 + (highest_rank(a3) as u64) * 65536 + (highest_rank(a2 & !a3) as u64)
            * 4096;
    }
    if flush != 0 {
        return 5 * 1048576 + pack_mask(flush, 5, 5);
    }
    if let Some(high) = straight_high_from_mask(a1) {
        return 4 * 1048576 + (high as u64) * 65536;
    }
    if a3 != 0 {
        return 3 * 1048576 + (highest_rank(a3) as u64) * 65536 + pack_mask(a1 & !a3, 2, 4);
    }
    if without_highest(a2) != 0 {
        return 2 * 1048576 + (highest_rank(a2) as u64) * 65536 + (highest_rank(without_highest(a2))
            as u64) * 4096 + pack_mask(a1 & !keep_top_two(a2), 1, 3);
    }
    if a2 != 0 {
        return 1048576 + (highest_rank(a2) as u64) * 65536 + pack_mask(a1 & !a2, 3, 4);
    }
    pack_mask(a1, 5, 5)
}

/// The ranks that a hand holds exactly `k` times.
pub open spec fn ranks_exactly(hand: Set<Card>, k: nat) -> u16 {
    mask_where(|r: int| rank_count(hand, r) == k, 13)
}

proof fn lemma_ranks_exactly(hand: Set<Card>, k: nat)
    ensures
        is_mask(ranks_exactly(hand, k)),
        forall|i: int|
            0 <= i < 13 ==> #[trigger] holds(ranks_exactly(hand, k), i) == (rank_count(hand, i) == k),
{
    crate::hand_eval::lemma_mask_where(|r: int| rank_count(hand, r) == k, 13);
}

proof fn lemma_same_mask(m: u16, n: u16)
    requires
        is_mask(m),
        is_mask(n),
        forall|i: int| 0 <= i < 13 ==> #[trigger] holds(m, i) == holds(n, i),
    ensures
        m == n,
{
    assert forall|i: int| 0 <= i < 13 && #[trigger] holds(m, i) implies holds(n, i) by {}
    assert forall|i: int| 0 <= i < 13 && #[trigger] holds(n, i) implies holds(m, i) by {
        assert(holds(m, i) == holds(n, i));
    }
    lemma_within(m, n);
    lemma_within(n, m);
    lemma_within_both(m, n);
}

/// What one more card does to the counts of a hand.
proof fn lemma_added(hand: Set<Card>, card: Card, r: int, s: int)
    requires
        !hand.contains(card),
        0 <= r < 13,
        0 <= s < 4,
    ensures
        rank_count(hand.insert(card), r) == rank_count(hand, r) + (if r == card.rank.ord() {
            1nat
        } else {
            0
        }),
        hand.insert(card).contains(card_at(r, s)) == (hand.contains(card_at(r, s)) || (r
            == card.rank.ord() && s == card.suit.ord())),
        0 <= card.rank.ord() < 13,
        0 <= card.suit.ord() < 4,
{
    assert(Rank::at(r).ord() == r);
    assert(Suit::at(s).ord() == s);
    assert(Suit::at(0).ord() == 0 && Suit::at(1).ord() == 1 && Suit::at(2).ord() == 2 && Suit::at(
        3,
    ).ord() == 3);
    assert(Rank::at(card.rank.ord() as int) == card.rank);
    assert(Suit::at(card.suit.ord() as int) == card.suit);
    assert(card == card_at(card.rank.ord() as int, card.suit.ord() as int));
}

impl SevenCardAccum {
    /// Whether the accumulator holds the cards of a hand.
    pub closed spec fn represents(self, hand: Set<Card>) -> bool {
        &&& forall|r: int|
            0 <= r < 13 ==> #[trigger] self.rank_counts@[r] == rank_count(hand, r)
        &&& self.rank_mask == ranks_at_least(hand, 1)
        &&& self.count_to_rank_mask@[2] == ranks_exactly(hand, 2)
        &&& self.count_to_rank_mask@[3] == ranks_exactly(hand, 3)
        &&& self.count_to_rank_mask@[4] == ranks_exactly(hand, 4)
        &&& forall|s: int|
            0 <= s < 4 ==> #[trigger] self.suit_rank_masks@[s] == suit_ranks(hand, s)
    }

    /// An accumulator without cards.
    pub fn new() -> (r: Self)
        ensures
            r.represents(Set::empty()),
    {
        let r = SevenCardAccum {
            rank_counts: [0; 13],
            count_to_rank_mask: [0; 5],
            suit_rank_masks: [0; 4],
            rank_mask: 0,
        };
        proof {
            let none = Set::<Card>::empty();
            lemma_ranks_at_least(none, 1);
            lemma_ranks_exactly(none, 2);
            lemma_ranks_exactly(none, 3);
            lemma_ranks_exactly(none, 4);
            assert forall|i: int| 0 <= i < 13 implies !#[trigger] holds(0, i) by {
                lemma_bits(0, 0, i, 0);
            }
            lemma_same_mask(0, ranks_at_least(none, 1));
            lemma_same_mask(0, ranks_exactly(none, 2));
            lemma_same_mask(0, ranks_exactly(none, 3));
            lemma_same_mask(0, ranks_exactly(none, 4));
            assert forall|s: int| 0 <= s < 4 implies #[trigger] r.suit_rank_masks@[s] == suit_ranks(
                none,
                s,
            ) by {
                lemma_suit_ranks(none, s);
                lemma_same_mask(0, suit_ranks(none, s));
            }
        }
        r
    }

    /// Adds a card that is not there yet.
    pub fn add(&mut self, card: Card)
        requires
            exists|hand: Set<Card>| #[trigger] old(self).represents(hand) && !hand.contains(card),
        ensures
            forall|hand: Set<Card>|
                old(self).represents(hand) && !hand.contains(card) ==> #[trigger] final(self).represents(hand.insert(card)),
    {
        let ghost before = *self;
        let ghost some_hand = choose|hand: Set<Card>|
            #[trigger] before.represents(hand) && !hand.contains(card);
        let rank: usize = card.rank.index();
        let suit: usize = card.suit.index();
        let bit: u16 = 1u16 << (rank as u16);
        proof {
            lemma_added(some_hand, card, rank as int, suit as int);
            assert(card == card_at(rank as int, suit as int));
            lemma_not_four(some_hand, card);
            assert(self.rank_counts@[rank as int] == rank_count(some_hand, rank as int));
        }
        self.rank_mask = self.rank_mask | bit;
        let suited: u16 = self.suit_rank_masks[suit];
        self.suit_rank_masks[suit] = suited | bit;
        let previous: usize = self.rank_counts[rank] as usize;
        self.rank_counts[rank] = (previous + 1) as u8;
        if previous >= 2 {
            let kept: u16 = self.count_to_rank_mask[previous];
            self.count_to_rank_mask[previous] = kept & !bit;
        }
        let current: usize = previous + 1;
        if current >= 2 {
            let kept: u16 = self.count_to_rank_mask[current];
            self.count_to_rank_mask[current] = kept | bit;
        }
        proof {
            assert forall|hand: Set<Card>| before.represents(hand) && !hand.contains(
                card,
            ) implies #[trigger] self.represents(hand.insert(card)) by {
                lemma_accum_step(before, *self, hand, card, rank as int, suit as int);
            }
        }
    }

    /// The ranks of the suit that occurs five times, if there is one.
    pub fn flush_mask(&self) -> (r: Option<u16>)
        ensures
            forall|hand: Set<Card>| #[trigger]
                self.represents(hand) ==> match r {
                    Some(mask) => mask == flush_ranks(hand) && size(mask) >= 5,
                    None => flush_ranks(hand) == 0,
                },
    {
        for s in 0..4
            invariant
                forall|t: int| 0 <= t < s ==> size(#[trigger] self.suit_rank_masks@[t]) < 5,
        {
            if count_ranks(self.suit_rank_masks[s]) >= 5 {
                proof {
                    assert forall|hand: Set<Card>| #[trigger] self.represents(hand) implies self.suit_rank_masks@[s as int]
                        == flush_ranks(hand) by {
                        lemma_suits(*self, hand);
                    }
                }
                return Some(self.suit_rank_masks[s]);
            }
        }
        proof {
            assert forall|hand: Set<Card>| #[trigger] self.represents(hand) implies flush_ranks(hand)
                == 0 by {
                lemma_suits(*self, hand);
            }
        }
        None
    }

    /// What the added cards, at most seven, are worth.
    pub fn rank(&self) -> (r: u64)
        requires
            exists|hand: Set<Card>| #[trigger]
                self.represents(hand) && hand.finite() && hand.len() <= 7,
        ensures
            forall|hand: Set<Card>| #[trigger] self.represents(hand) ==> r == strength(hand),
    {
        let a4: u16 = self.count_to_rank_mask[4];
        let a3: u16 = self.count_to_rank_mask[3] | a4;
        let a2: u16 = self.count_to_rank_mask[2] | a3;
        let flush: u16 = match self.flush_mask() {
            Some(mask) => mask,
            None => 0,
        };
        proof {
            assert forall|hand: Set<Card>| #[trigger] self.represents(hand) implies a2 == ranks_at_least(
                hand,
                2,
            ) && a3 == ranks_at_least(hand, 3) && a4 == ranks_at_least(hand, 4) && flush
                == flush_ranks(hand) by {
                lemma_at_least(*self, hand, a2, a3, a4);
            }
            let hand = choose|hand: Set<Card>| #[trigger]
                self.represents(hand) && hand.finite() && hand.len() <= 7;
            strength_monotone(hand, hand);
        }
        value_of_masks(self.rank_mask, a2, a3, a4, flush)
    }
}

proof fn lemma_suits(accum: SevenCardAccum, hand: Set<Card>)
    requires
        accum.represents(hand),
    ensures
        accum.suit_rank_masks@[0] == suit_ranks(hand, 0),
        accum.suit_rank_masks@[1] == suit_ranks(hand, 1),
        accum.suit_rank_masks@[2] == suit_ranks(hand, 2),
        accum.suit_rank_masks@[3] == suit_ranks(hand, 3),
{
}

proof fn lemma_at_least(accum: SevenCardAccum, hand: Set<Card>, a2: u16, a3: u16, a4: u16)
    requires
        accum.represents(hand),
        a4 == accum.count_to_rank_mask@[4],
        a3 == accum.count_to_rank_mask@[3] | a4,
        a2 == accum.count_to_rank_mask@[2] | a3,
    ensures
        a2 == ranks_at_least(hand, 2),
        a3 == ranks_at_least(hand, 3),
        a4 == ranks_at_least(hand, 4),
{
    lemma_ranks_exactly(hand, 2);
    lemma_ranks_exactly(hand, 3);
    lemma_ranks_exactly(hand, 4);
    lemma_ranks_at_least(hand, 2);
    lemma_ranks_at_least(hand, 3);
    lemma_ranks_at_least(hand, 4);
    lemma_mask_ops(ranks_exactly(hand, 3), a4, 0);
    lemma_mask_ops(ranks_exactly(hand, 2), a3, 0);
    assert forall|i: int| 0 <= i < 13 implies #[trigger] holds(a3, i) == holds(
        ranks_at_least(hand, 3),
        i,
    ) by {
        lemma_bits(ranks_exactly(hand, 3), a4, i, 0);
    }
    assert forall|i: int| 0 <= i < 13 implies #[trigger] holds(a2, i) == holds(
        ranks_at_least(hand, 2),
        i,
    ) by {
        lemma_bits(ranks_exactly(hand, 2), a3, i, 0);
        assert(holds(a3, i) == holds(ranks_at_least(hand, 3), i));
    }
    assert forall|i: int| 0 <= i < 13 implies #[trigger] holds(a4, i) == holds(
        ranks_at_least(hand, 4),
        i,
    ) by {}
    lemma_same_mask(a2, ranks_at_least(hand, 2));
    lemma_same_mask(a3, ranks_at_least(hand, 3));
    lemma_same_mask(a4, ranks_at_least(hand, 4));
}

/// A rank with a card to come occurs at most three times.
proof fn lemma_not_four(hand: Set<Card>, card: Card)
    requires
        !hand.contains(card),
    ensures
        rank_count(hand, card.rank.ord() as int) <= 3,
{
    lemma_added(hand, card, card.rank.ord() as int, card.suit.ord() as int);
}

proof fn lemma_accum_step(
    before: SevenCardAccum,
    after: SevenCardAccum,
    hand: Set<Card>,
    card: Card,
    rank: int,
    suit: int,
)
    requires
        before.represents(hand),
        !hand.contains(card),
        rank == card.rank.ord(),
        suit == card.suit.ord(),
        after.rank_mask == before.rank_mask | (1u16 << (rank as u16)),
        after.suit_rank_masks@ == before.suit_rank_masks@.update(
            suit,
            before.suit_rank_masks@[suit] | (1u16 << (rank as u16)),
        ),
        after.rank_counts@ == before.rank_counts@.update(
            rank,
            (before.rank_counts@[rank] + 1) as u8,
        ),
        forall|k: int|
            2 <= k <= 4 ==> #[trigger] after.count_to_rank_mask@[k] == (if k
                == before.rank_counts@[rank] {
                before.count_to_rank_mask@[k] & !(1u16 << (rank as u16))
            } else if k == before.rank_counts@[rank] + 1 {
                before.count_to_rank_mask@[k] | (1u16 << (rank as u16))
            } else {
                before.count_to_rank_mask@[k]
            }),
    ensures
        after.represents(hand.insert(card)),
{
    let more = hand.insert(card);
    let bit = 1u16 << (rank as u16);
    lemma_added(hand, card, rank, suit);
    lemma_not_four(hand, card);
    lemma_mask_ops(0, 0, rank as u16);
    lemma_ranks_at_least(hand, 1);
    lemma_ranks_at_least(more, 1);
    lemma_mask_ops(before.rank_mask, bit, 0);
    assert forall|r: int| 0 <= r < 13 implies #[trigger] after.rank_counts@[r] == rank_count(more, r) by {
        lemma_added(hand, card, r, 0);
        assert(before.rank_counts@[r] == rank_count(hand, r));
    }
    assert(before.rank_counts@[rank] == rank_count(hand, rank));
    assert forall|i: int| 0 <= i < 13 implies #[trigger] holds(after.rank_mask, i) == holds(
        ranks_at_least(more, 1),
        i,
    ) by {
        lemma_bits(before.rank_mask, bit, i, rank);
        lemma_added(hand, card, i, 0);
    }
    lemma_same_mask(after.rank_mask, ranks_at_least(more, 1));
    assert forall|k: int| 2 <= k <= 4 implies #[trigger] after.count_to_rank_mask@[k] == ranks_exactly(
        more,
        k as nat,
    ) by {
        lemma_ranks_exactly(hand, k as nat);
        lemma_ranks_exactly(more, k as nat);
        let old_mask = before.count_to_rank_mask@[k];
        assert(old_mask == ranks_exactly(hand, k as nat));
        lemma_mask_ops(old_mask, bit, 0);
        assert forall|i: int| 0 <= i < 13 implies #[trigger] holds(after.count_to_rank_mask@[k], i)
            == holds(ranks_exactly(more, k as nat), i) by {
            lemma_bits(old_mask, bit, i, rank);
            lemma_added(hand, card, i, 0);
        }
        lemma_same_mask(after.count_to_rank_mask@[k], ranks_exactly(more, k as nat));
    }
    assert(after.count_to_rank_mask@[2] == ranks_exactly(more, 2));
    assert(after.count_to_rank_mask@[3] == ranks_exactly(more, 3));
    assert(after.count_to_rank_mask@[4] == ranks_exactly(more, 4));
    assert forall|s: int| 0 <= s < 4 implies #[trigger] after.suit_rank_masks@[s] == suit_ranks(
        more,
        s,
    ) by {
        lemma_suit_ranks(hand, s);
        lemma_suit_ranks(more, s);
        let old_mask = before.suit_rank_masks@[s];
        assert(old_mask == suit_ranks(hand, s));
        lemma_mask_ops(old_mask, bit, 0);
        assert forall|i: int| 0 <= i < 13 implies #[trigger] holds(after.suit_rank_masks@[s], i)
            == holds(suit_ranks(more, s), i) by {
            lemma_bits(old_mask, bit, i, rank);
            lemma_added(hand, card, i, s);
        }
        lemma_same_mask(after.suit_rank_masks@[s], suit_ranks(more, s));
    }
}

/// What seven cards are worth. A card that occurs more than once counts once.
pub fn evaluate_seven(cards: [Card; 7]) -> (r: HandValue)
    ensures
        r.packed == strength(cards@.to_set()),
{
    let mut accum: SevenCardAccum = SevenCardAccum::new();
    let ghost mut hand: Set<Card> = Set::empty();
    for i in 0..7
        invariant
            accum.represents(hand),
            hand.finite(),
            hand.len() <= i,
            forall|card: Card| #[trigger]
                hand.contains(card) <==> exists|j: int| 0 <= j < i && cards@[j] == card,
    {
        let mut seen: bool = false;
        for j in 0..i
            invariant
                i < 7,
                seen == (exists|k: int| 0 <= k < j && #[trigger] cards@[k] == cards@[i as int]),
        {
            if cards[j] == cards[i] {
                seen = true;
                assert(cards@[j as int] == cards@[i as int]);
            }
        }
        if !seen {
            accum.add(cards[i]);
        }
        proof {
            let before = hand;
            hand = hand.insert(cards@[i as int]);
            assert(before.contains(cards@[i as int]) == seen);
            if seen {
                assert(hand =~= before);
            }
            assert forall|card: Card| #[trigger] hand.contains(card) <==> exists|j: int|
                0 <= j < i + 1 && cards@[j] == card by {
                if hand.contains(card) && card != cards@[i as int] {
                    assert(before.contains(card));
                    let j = choose|j: int| 0 <= j < i && cards@[j] == card;
                    assert(cards@[j] == card);
                }
                if exists|j: int| 0 <= j < i + 1 && cards@[j] == card {
                    let j = choose|j: int| 0 <= j < i + 1 && cards@[j] == card;
                    if j < i {
                        assert(before.contains(card));
                    }
                }
            }
        }
    }
    proof {
        assert(hand =~= cards@.to_set());
    }
    HandValue { packed: accum.rank() }
}

/// One, zero or minus one as the first hand beats, ties or loses to the second.
pub open spec fn comparison(hero: int, villain: int) -> int {
    if hero > villain {
        1
    } else if hero == villain {
        0
    } else {
        -1
    }
}

/// One, zero or minus one as the first hand beats, ties or loses to the second.
pub fn compare_strength(hero: u64, villain: u64) -> (r: i8)
    ensures
        r == comparison(hero as int, villain as int),
{
    if hero > villain {
        1
    } else if hero == villain {
        0
    } else {
        -1
    }
}

} // verus!
