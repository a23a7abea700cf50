//! Finished boards, prepared for counterfactual values.
use vstd::prelude::*;
use crate::cards::{
    all_different, card_ids_differ, card_position_round_trip, deck_without, Board, Card,
};
use crate::deals::{deck_without_facts, index_pairs, pairs, pairs_are_all};
use crate::evaluator::{comparison, SevenCardAccum};
use crate::hand_eval::strength;
use crate::index_map::KeyMap;
use crate::sorting::{comes_before, sorted_positions, SortKey};

verus! {

/// Two private cards.
#[derive(Clone, Copy, Debug, PartialEq, Eq, Structural)]
pub struct PrivateCombo {
    pub first: Card,
    pub second: Card,
}

impl PrivateCombo {
    /// Whether the combo holds a card.
    pub open spec fn holds_card(self, card: Card) -> bool {
        self.first == card || self.second == card
    }

    /// Whether two combos share a card.
    pub open spec fn collides_spec(self, other: Self) -> bool {
        other.holds_card(self.first) || other.holds_card(self.second)
    }

    /// Whether the combo is made of two given cards, in either order.
    pub open spec fn is_pair(self, first: Card, second: Card) -> bool {
        (self.first == first && self.second == second) || (self.first == second && self.second
            == first)
    }

    /// Whether two combos share a card.
    pub fn collides(self, other: Self) -> (r: bool)
        ensures
            r == self.collides_spec(other),
    {
        self.first == other.first || self.first == other.second || self.second == other.first
            || self.second == other.second
    }

    /// The mask of the two cards.
    pub fn key(self) -> (r: u64)
        ensures
            r == self.first.bit() | self.second.bit(),
    {
        private_combo_key(self.first, self.second)
    }
}

/// The mask of two cards.
pub fn private_combo_key(first: Card, second: Card) -> (r: u64)
    ensures
        r == first.bit() | second.bit(),
{
    first.deck_mask() | second.deck_mask()
}

/// A mask of two different cards is the mask of no other cards.
pub proof fn lemma_pair_key(a: Card, b: Card, c: Card, d: Card)
    requires
        c != d,
        a.bit() | b.bit() == c.bit() | d.bit(),
    ensures
        (a == c && b == d) || (a == d && b == c),
{
    card_ids_differ(a, c);
    card_ids_differ(a, d);
    card_ids_differ(b, c);
    card_ids_differ(b, d);
    card_ids_differ(c, d);
    card_position_round_trip(a, 0);
    card_position_round_trip(b, 0);
    card_position_round_trip(c, 0);
    card_position_round_trip(d, 0);
    let i = a.id() as u64;
    let j = b.id() as u64;
    let k = c.id() as u64;
    let l = d.id() as u64;
    assert((i == k && j == l) || (i == l && j == k)) by (bit_vector)
        requires
            i < 52,
            j < 52,
            k < 52,
            l < 52,
            k != l,
            (1u64 << i) | (1u64 << j) == (1u64 << k) | (1u64 << l),
    ;
}

/// The pairs of cards of a deck, in ascending order.
pub open spec fn combos_of(deck: Seq<Card>) -> Seq<PrivateCombo> {
    Seq::new(
        pairs(deck.len()).len(),
        |k: int|
            PrivateCombo {
                first: deck[pairs(deck.len())[k].0 as int],
                second: deck[pairs(deck.len())[k].1 as int],
            },
    )
}

/// What a combo is worth on a board.
pub open spec fn strength_on(board: Seq<Card>, combo: PrivateCombo) -> nat {
    strength(board.to_set().insert(combo.first).insert(combo.second))
}

/// The combos that can be held on a board, in ascending order.
pub fn left_combos(board: &Board) -> (combos: Vec<PrivateCombo>)
    requires
        board.wf(),
    ensures
        combos@ == combos_of(deck_without(board@)),
{
    let deck: Vec<Card> = board.remaining_deck();
    proof {
        deck_without_facts(board@);
        pairs_are_all(deck@.len());
    }
    let list: Vec<(usize, usize)> = index_pairs(deck.len());
    let mut combos: Vec<PrivateCombo> = Vec::new();
    for k in 0..list.len()
        invariant
            deck@.len() <= 52,
            list@ == pairs(deck@.len()),
            forall|i: int|
                0 <= i < pairs(deck@.len()).len() ==> (#[trigger] pairs(deck@.len())[i]).0 < pairs(
                    deck@.len(),
                )[i].1 < deck@.len(),
            combos@ =~= combos_of(deck@).take(k as int),
    {
        proof {
            let p = pairs(deck@.len())[k as int];
            assert(list@[k as int] == p);
        }
        let (i, j): (usize, usize) = list[k];
        combos.push(PrivateCombo { first: deck[i], second: deck[j] });
    }
    proof {
        assert(combos_of(deck@).take(list@.len() as int) =~= combos_of(deck@));
    }
    combos
}

/// The combos that can be held on a finished board, in ascending order.
pub fn live_combos(board: &Board) -> (r: Result<Vec<PrivateCombo>, String>)
    requires
        board.wf(),
    ensures
        match r {
            Ok(combos) => board@.len() == 5 && combos@ == combos_of(deck_without(board@)),
            Err(message) => board@.len() != 5 && message@
                == "terminal CFV requires a five-card board"@,
        },
{
    if board.len() != 5 {
        return Err("terminal CFV requires a five-card board".to_owned());
    }
    Ok(left_combos(board))
}

/// The combos that cards leave hold none of the cards; no combo occurs twice, and every pair of different
/// cards that are not among the cards occurs, smaller card first.
pub proof fn left_combos_facts(board: Seq<Card>)
    ensures
        forall|i: int|
            0 <= i < combos_of(deck_without(board)).len() ==> {
                let combo = #[trigger] combos_of(deck_without(board))[i];
                combo.first.id() < combo.second.id() && !board.contains(combo.first)
                    && !board.contains(combo.second)
            },
        distinct_combos(combos_of(deck_without(board))),
        forall|a: Card, b: Card|
            a != b && !board.contains(a) && !board.contains(b) ==> exists|i: int|
                0 <= i < combos_of(deck_without(board)).len() && (#[trigger] combos_of(
                    deck_without(board),
                )[i]).is_pair(a, b),
{
    let deck = deck_without(board);
    let n = deck.len();
    let combos = combos_of(deck);
    deck_without_facts(board);
    pairs_are_all(n);
    assert forall|i: int| 0 <= i < combos.len() implies {
        let combo = #[trigger] combos[i];
        combo.first.id() < combo.second.id() && !board.contains(combo.first) && !board.contains(
            combo.second,
        )
    } by {
        let p = pairs(n)[i];
        assert(deck[p.0 as int].id() < deck[p.1 as int].id());
    }
    assert forall|i: int, j: int| 0 <= i < combos.len() && 0 <= j < combos.len() && i != j implies !(
    #[trigger] combos[i]).is_pair((#[trigger] combos[j]).first, combos[j].second) by {
        let p = pairs(n)[i];
        let q = pairs(n)[j];
        assert(p != q);
        assert(deck[p.0 as int].id() < deck[p.1 as int].id());
        assert(deck[q.0 as int].id() < deck[q.1 as int].id());
        lemma_same_place(deck, p.0 as int, q.0 as int);
        lemma_same_place(deck, p.1 as int, q.1 as int);
        if combos[i].first == combos[j].second && combos[i].second == combos[j].first {
            assert(false);
        }
    }
    assert forall|a: Card, b: Card|
        a != b && !board.contains(a) && !board.contains(b) implies exists|i: int|
        0 <= i < combos.len() && (#[trigger] combos[i]).is_pair(a, b) by {
        assert(deck.contains(a));
        assert(deck.contains(b));
        let x = choose|x: int| 0 <= x < deck.len() && deck[x] == a;
        let y = choose|y: int| 0 <= y < deck.len() && deck[y] == b;
        let lo = (if x < y {
            x
        } else {
            y
        }) as usize;
        let hi = (if x < y {
            y
        } else {
            x
        }) as usize;
        assert(pairs(n).contains((lo, hi)));
        let k = choose|k: int| 0 <= k < pairs(n).len() && pairs(n)[k] == (lo, hi);
        assert(combos[k].is_pair(a, b));
    }
}

/// A finished board leaves 1081 combos. They hold no board card; no combo occurs twice, and every pair
/// of different cards off the board occurs.
pub proof fn live_combos_facts(board: Seq<Card>)
    requires
        all_different(board),
        board.len() == 5,
    ensures
        combos_of(deck_without(board)).len() == 1081,
        forall|i: int|
            0 <= i < 1081 ==> {
                let combo = #[trigger] combos_of(deck_without(board))[i];
                combo.first != combo.second && !board.contains(combo.first) && !board.contains(
                    combo.second,
                )
            },
        distinct_combos(combos_of(deck_without(board))),
        forall|a: Card, b: Card|
            a != b && !board.contains(a) && !board.contains(b) ==> exists|i: int|
                0 <= i < 1081 && (#[trigger] combos_of(deck_without(board))[i]).is_pair(a, b),
{
    deck_without_facts(board);
    pairs_are_all(deck_without(board).len());
    left_combos_facts(board);
}

/// An ascending deck holds a card in one place.
proof fn lemma_same_place(deck: Seq<Card>, i: int, j: int)
    requires
        0 <= i < deck.len(),
        0 <= j < deck.len(),
        forall|i: int, j: int|
            0 <= i < j < deck.len() ==> (#[trigger] deck[i]).id() < (#[trigger] deck[j]).id(),
    ensures
        deck[i] == deck[j] ==> i == j,
{
    if i < j {
        assert(deck[i].id() < deck[j].id());
    } else if j < i {
        assert(deck[j].id() < deck[i].id());
    }
}

/// Whether no two combos are made of the same cards.
pub open spec fn distinct_combos(combos: Seq<PrivateCombo>) -> bool {
    forall|i: int, j: int|
        0 <= i < combos.len() && 0 <= j < combos.len() && i != j ==> !(#[trigger] combos[i]).is_pair(
            (#[trigger] combos[j]).first,
            combos[j].second,
        )
}

/// What each combo is worth on a board.
pub fn combo_strengths(board: &Board, combos: &[PrivateCombo]) -> (r: Vec<u64>)
    requires
        board.wf(),
        forall|i: int|
            0 <= i < combos@.len() ==> {
                let combo = #[trigger] combos@[i];
                combo.first != combo.second && !board@.contains(combo.first) && !board@.contains(
                    combo.second,
                )
            },
    ensures
        r@.len() == combos@.len(),
        forall|i: int|
            0 <= i < combos@.len() ==> #[trigger] r@[i] == strength_on(board@, combos@[i]),
{
    let mut board_accum: SevenCardAccum = SevenCardAccum::new();
    let ghost mut hand: Set<Card> = Set::empty();
    proof {
        board.wf_facts();
    }
    let count: usize = board.len();
    for i in 0..count
        invariant
            board.wf(),
            count == board@.len(),
            count <= 5,
            all_different(board@),
            board_accum.represents(hand),
            hand.finite(),
            hand.len() == i,
            hand =~= board@.take(i as int).to_set(),
    {
        let card: Card = board.card(i);
        proof {
            assert(!hand.contains(card)) by {
                if hand.contains(card) {
                    let k = choose|k: int| 0 <= k < i && board@.take(i as int)[k] == card;
                    assert(board@[k] != board@[i as int]);
                }
            }
        }
        board_accum.add(card);
        proof {
            let before = board@.take(i as int);
            let after = board@.take(i + 1);
            assert(after =~= before.push(card));
            hand = hand.insert(card);
            assert forall|c: Card| hand.contains(c) == after.to_set().contains(c) by {
                if after.contains(c) {
                    let k = choose|k: int| 0 <= k < after.len() && after[k] == c;
                    if k < i {
                        assert(before[k] == c);
                    }
                }
                if before.contains(c) {
                    let k = choose|k: int| 0 <= k < before.len() && before[k] == c;
                    assert(after[k] == c);
                }
                assert(after[i as int] == card);
            }
            assert(hand =~= after.to_set());
        }
    }
    proof {
        assert(board@.take(count as int) =~= board@);
    }
    let mut strengths: Vec<u64> = Vec::new();
    for i in 0..combos.len()
        invariant
            board_accum.represents(hand),
            hand.finite(),
            hand.len() <= 5,
            hand == board@.to_set(),
            forall|i: int|
                0 <= i < combos@.len() ==> {
                    let combo = #[trigger] combos@[i];
                    combo.first != combo.second && !board@.contains(combo.first) && !board@.contains(
                        combo.second,
                    )
                },
            strengths@.len() == i,
            forall|j: int|
                0 <= j < i ==> #[trigger] strengths@[j] == strength_on(board@, combos@[j]),
    {
        let combo: PrivateCombo = combos[i];
        let mut accum: SevenCardAccum = board_accum;
        proof {
            assert(!hand.contains(combo.first));
        }
        accum.add(combo.first);
        proof {
            assert(accum.represents(hand.insert(combo.first)));
            assert(!hand.insert(combo.first).contains(combo.second));
        }
        accum.add(combo.second);
        proof {
            assert(accum.represents(hand.insert(combo.first).insert(combo.second)));
        }
        strengths.push(accum.rank());
    }
    strengths
}

/// The positions below `n` of the combos that hold a card, in ascending order.
pub open spec fn card_list(combos: Seq<PrivateCombo>, card: Card, n: nat) -> Seq<u16>
    decreases n,
{
    if n == 0 {
        Seq::empty()
    } else if combos[n - 1].holds_card(card) {
        card_list(combos, card, (n - 1) as nat).push((n - 1) as u16)
    } else {
        card_list(combos, card, (n - 1) as nat)
    }
}

/// The entries of a list, below place `n`, other than the hero whose strength compares as wanted.
pub open spec fn matching(
    list: Seq<u16>,
    strengths: Seq<u64>,
    hero: int,
    wanted: int,
    n: nat,
) -> Seq<u16>
    decreases n,
{
    if n == 0 {
        Seq::empty()
    } else {
        let front = matching(list, strengths, hero, wanted, (n - 1) as nat);
        let entry = list[n - 1];
        if entry != hero && comparison(
            strengths[entry as int] as int,
            strengths[hero] as int,
        ) == wanted {
            front.push(entry)
        } else {
            front
        }
    }
}

/// The combos that share a card with the hero's and compare as wanted: those with the first card, then
/// those with the second.
pub open spec fn blockers(
    combos: Seq<PrivateCombo>,
    strengths: Seq<u64>,
    hero: int,
    wanted: int,
) -> Seq<u16> {
    let first = card_list(combos, combos[hero].first, combos.len());
    let second = card_list(combos, combos[hero].second, combos.len());
    matching(first, strengths, hero, wanted, first.len()) + matching(
        second,
        strengths,
        hero,
        wanted,
        second.len(),
    )
}

proof fn lemma_card_list(combos: Seq<PrivateCombo>, card: Card, n: nat)
    requires
        n <= combos.len(),
        combos.len() <= 0xffff,
    ensures
        forall|i: int|
            0 <= i < card_list(combos, card, n).len() ==> {
                let entry = #[trigger] card_list(combos, card, n)[i];
                entry < n && combos[entry as int].holds_card(card)
            },
        forall|i: int, j: int|
            0 <= i < j < card_list(combos, card, n).len() ==> #[trigger] card_list(combos, card, n)[i]
                < #[trigger] card_list(combos, card, n)[j],
        forall|v: int|
            0 <= v < n && (#[trigger] combos[v]).holds_card(card) ==> card_list(
                combos,
                card,
                n,
            ).contains(v as u16),
    decreases n,
{
    if n > 0 {
        lemma_card_list(combos, card, (n - 1) as nat);
        let front = card_list(combos, card, (n - 1) as nat);
        let whole = card_list(combos, card, n);
        assert forall|v: int| 0 <= v < n && (#[trigger] combos[v]).holds_card(
            card,
        ) implies whole.contains(v as u16) by {
            if v < n - 1 {
                assert(front.contains(v as u16));
                let k = choose|k: int| 0 <= k < front.len() && front[k] == v as u16;
                assert(whole[k] == v as u16);
            } else {
                assert(whole[whole.len() - 1] == v as u16);
            }
        }
    }
}

proof fn lemma_matching(list: Seq<u16>, strengths: Seq<u64>, hero: int, wanted: int, n: nat)
    requires
        n <= list.len(),
        forall|i: int, j: int| 0 <= i < j < list.len() ==> #[trigger] list[i] < #[trigger] list[j],
    ensures
        forall|i: int|
            0 <= i < matching(list, strengths, hero, wanted, n).len() ==> {
                let entry = #[trigger] matching(list, strengths, hero, wanted, n)[i];
                &&& entry != hero
                &&& comparison(strengths[entry as int] as int, strengths[hero] as int) == wanted
                &&& exists|k: int| 0 <= k < n && list[k] == entry
            },
        forall|i: int, j: int|
            0 <= i < j < matching(list, strengths, hero, wanted, n).len() ==> #[trigger] matching(
                list,
                strengths,
                hero,
                wanted,
                n,
            )[i] < #[trigger] matching(list, strengths, hero, wanted, n)[j],
        forall|k: int|
            0 <= k < n && #[trigger] list[k] != hero && comparison(
                strengths[list[k] as int] as int,
                strengths[hero] as int,
            ) == wanted ==> matching(list, strengths, hero, wanted, n).contains(list[k]),
    decreases n,
{
    if n > 0 {
        lemma_matching(list, strengths, hero, wanted, (n - 1) as nat);
        let front = matching(list, strengths, hero, wanted, (n - 1) as nat);
        let whole = matching(list, strengths, hero, wanted, n);
        let entry = list[n - 1];
        assert forall|i: int| 0 <= i < whole.len() implies {
            let e = #[trigger] whole[i];
            &&& e != hero
            &&& comparison(strengths[e as int] as int, strengths[hero] as int) == wanted
            &&& exists|k: int| 0 <= k < n && list[k] == e
        } by {
            if i < front.len() {
                assert(whole[i] == front[i]);
                let k = choose|k: int| 0 <= k < n - 1 && list[k] == front[i];
                assert(list[k] == whole[i]);
            } else {
                assert(list[n - 1] == whole[i]);
            }
        }
        assert forall|i: int, j: int| 0 <= i < j < whole.len() implies #[trigger] whole[i]
            < #[trigger] whole[j] by {
            assert(whole[i] == front[i]);
            if j < front.len() {
                assert(whole[j] == front[j]);
            } else {
                let k = choose|k: int| 0 <= k < n - 1 && list[k] == front[i];
                assert(list[k] < list[n - 1]);
            }
        }
        assert forall|k: int| 0 <= k < n && #[trigger] list[k] != hero && comparison(
            strengths[list[k] as int] as int,
            strengths[hero] as int,
        ) == wanted implies whole.contains(list[k]) by {
            if k < n - 1 {
                assert(front.contains(list[k]));
                let p = choose|p: int| 0 <= p < front.len() && front[p] == list[k];
                assert(whole[p] == list[k]);
            } else {
                assert(whole[whole.len() - 1] == list[k]);
            }
        }
    }
}

/// The blockers of a hero are listed once each, and are the combos other than the hero's that share a
/// card with it and compare as wanted.
pub proof fn blockers_facts(
    combos: Seq<PrivateCombo>,
    strengths: Seq<u64>,
    hero: int,
    wanted: int,
)
    requires
        0 <= hero < combos.len(),
        combos.len() <= 0xffff,
        strengths.len() == combos.len(),
        distinct_combos(combos),
        combos[hero].first != combos[hero].second,
    ensures
        forall|i: int|
            0 <= i < blockers(combos, strengths, hero, wanted).len() ==> (#[trigger] blockers(
                combos,
                strengths,
                hero,
                wanted,
            )[i]) < combos.len(),
        forall|i: int, j: int|
            0 <= i < j < blockers(combos, strengths, hero, wanted).len() ==> #[trigger] blockers(
                combos,
                strengths,
                hero,
                wanted,
            )[i] != #[trigger] blockers(combos, strengths, hero, wanted)[j],
        forall|v: int|
            0 <= v < combos.len() ==> #[trigger] blockers(combos, strengths, hero, wanted).contains(
                v as u16,
            ) == (v != hero && combos[hero].collides_spec(combos[v]) && comparison(
                strengths[v] as int,
                strengths[hero] as int,
            ) == wanted),
{
    let first = card_list(combos, combos[hero].first, combos.len());
    let second = card_list(combos, combos[hero].second, combos.len());
    lemma_card_list(combos, combos[hero].first, combos.len());
    lemma_card_list(combos, combos[hero].second, combos.len());
    lemma_matching(first, strengths, hero, wanted, first.len());
    lemma_matching(second, strengths, hero, wanted, second.len());
    let a = matching(first, strengths, hero, wanted, first.len());
    let b = matching(second, strengths, hero, wanted, second.len());
    let all = blockers(combos, strengths, hero, wanted);
    assert forall|i: int| 0 <= i < all.len() implies (#[trigger] all[i]) < combos.len() by {
        if i < a.len() {
            assert(all[i] == a[i]);
        } else {
            assert(all[i] == b[i - a.len()]);
        }
    }
    assert forall|i: int, j: int| 0 <= i < j < all.len() implies #[trigger] all[i]
        != #[trigger] all[j] by {
        if j < a.len() {
            assert(all[i] == a[i] && all[j] == a[j]);
        } else if i >= a.len() {
            assert(all[i] == b[i - a.len()] && all[j] == b[j - a.len()]);
        } else {
            assert(all[i] == a[i] && all[j] == b[j - a.len()]);
            let k = choose|k: int| 0 <= k < first.len() && first[k] == a[i];
            let l = choose|l: int| 0 <= l < second.len() && second[l] == b[j - a.len()];
            if all[i] == all[j] {
                let v = all[i] as int;
                assert(combos[first[k] as int].holds_card(combos[hero].first));
                assert(combos[second[l] as int].holds_card(combos[hero].second));
                assert(!combos[v].is_pair(combos[hero].first, combos[hero].second));
            }
        }
    }
    assert forall|v: int| 0 <= v < combos.len() implies #[trigger] all.contains(v as u16) == (v != hero
        && combos[hero].collides_spec(combos[v]) && comparison(
        strengths[v] as int,
        strengths[hero] as int,
    ) == wanted) by {
        if all.contains(v as u16) {
            let i = choose|i: int| 0 <= i < all.len() && all[i] == v as u16;
            if i < a.len() {
                assert(all[i] == a[i]);
                let k = choose|k: int| 0 <= k < first.len() && first[k] == a[i];
                assert(combos[first[k] as int].holds_card(combos[hero].first));
            } else {
                assert(all[i] == b[i - a.len()]);
                let k = choose|k: int| 0 <= k < second.len() && second[k] == b[i - a.len()];
                assert(combos[second[k] as int].holds_card(combos[hero].second));
            }
        }
        if v != hero && combos[hero].collides_spec(combos[v]) && comparison(
            strengths[v] as int,
            strengths[hero] as int,
        ) == wanted {
            if combos[v].holds_card(combos[hero].first) {
                assert(first.contains(v as u16));
                let k = choose|k: int| 0 <= k < first.len() && first[k] == v as u16;
                assert(a.contains(first[k]));
                let p = choose|p: int| 0 <= p < a.len() && a[p] == v as u16;
                assert(all[p] == v as u16);
            } else {
                assert(second.contains(v as u16));
                let k = choose|k: int| 0 <= k < second.len() && second[k] == v as u16;
                assert(b.contains(second[k]));
                let p = choose|p: int| 0 <= p < b.len() && b[p] == v as u16;
                assert(all[a.len() + p] == v as u16);
            }
        }
    }
}

/// For each card of the deck the combos that hold it.
fn card_combo_table(combos: &[PrivateCombo]) -> (r: Vec<Vec<u16>>)
    requires
        combos@.len() <= 0xffff,
        forall|i: int| 0 <= i < combos@.len() ==> (#[trigger] combos@[i]).first != combos@[i].second,
    ensures
        r@.len() == 52,
        forall|card: Card| #[trigger]
            r@[card.id()]@ == card_list(combos@, card, combos@.len()),
{
    let mut lists: Vec<Vec<u16>> = Vec::new();
    for c in 0..52
        invariant
            lists@.len() == c,
            forall|d: int| 0 <= d < c ==> (#[trigger] lists@[d])@ == Seq::<u16>::empty(),
    {
        lists.push(Vec::new());
    }
    proof {
        assert forall|card: Card| (#[trigger] lists@[card.id()])@ == card_list(combos@, card, 0) by {
            card_position_round_trip(card, 0);
        }
    }
    for index in 0..combos.len()
        invariant
            lists@.len() == 52,
            combos@.len() <= 0xffff,
            forall|i: int|
                0 <= i < combos@.len() ==> (#[trigger] combos@[i]).first != combos@[i].second,
            forall|card: Card| (#[trigger] lists@[card.id()])@ == card_list(
                combos@,
                card,
                index as nat,
            ),
    {
        let combo: PrivateCombo = combos[index];
        let ghost before = lists@;
        let a: usize = combo.first.index();
        let b: usize = combo.second.index();
        proof {
            card_ids_differ(combo.first, combo.second);
        }
        lists[a].push(index as u16);
        lists[b].push(index as u16);
        proof {
            assert forall|card: Card| (#[trigger] lists@[card.id()])@ == card_list(
                combos@,
                card,
                (index + 1) as nat,
            ) by {
                card_position_round_trip(card, 0);
                card_ids_differ(combo.first, card);
                card_ids_differ(combo.second, card);
                assert(before[card.id()]@ == card_list(combos@, card, index as nat));
            }
        }
    }
    lists
}

/// The entries of a list, other than the hero, whose strength compares as wanted, behind a list.
fn push_matching(list: &Vec<u16>, strengths: &[u64], hero: usize, wanted: i8, out: &mut Vec<u16>)
    requires
        hero < strengths@.len(),
        strengths@.len() <= 0xffff,
        forall|i: int| 0 <= i < list@.len() ==> (#[trigger] list@[i]) < strengths@.len(),
    ensures
        final(out)@ == old(out)@ + matching(
            list@,
            strengths@,
            hero as int,
            wanted as int,
            list@.len(),
        ),
{
    let ghost start = out@;
    proof {
        assert(start + Seq::<u16>::empty() =~= start);
    }
    for i in 0..list.len()
        invariant
            hero < strengths@.len(),
            strengths@.len() <= 0xffff,
            forall|i: int| 0 <= i < list@.len() ==> (#[trigger] list@[i]) < strengths@.len(),
            out@ == start + matching(list@, strengths@, hero as int, wanted as int, i as nat),
    {
        let entry: u16 = list[i];
        if entry as usize != hero && crate::evaluator::compare_strength(
            strengths[entry as usize],
            strengths[hero],
        ) == wanted {
            out.push(entry);
        }
        proof {
            assert(out@ =~= start + matching(
                list@,
                strengths@,
                hero as int,
                wanted as int,
                (i + 1) as nat,
            ));
        }
    }
}

/// The blockers of every combo, the weaker and the stronger ones, each in one list.
pub struct SplitBlockerTables {
    pub weaker_ranges: Vec<(usize, usize)>,
    pub weaker: Vec<u16>,
    pub stronger_ranges: Vec<(usize, usize)>,
    pub stronger: Vec<u16>,
}

/// Whether a range of a list holds the blockers of a hero.
pub open spec fn range_holds(
    combos: Seq<PrivateCombo>,
    strengths: Seq<u64>,
    hero: int,
    wanted: int,
    list: Seq<u16>,
    range: (usize, usize),
) -> bool {
    &&& range.0 <= range.1 <= list.len()
    &&& list.subrange(range.0 as int, range.1 as int) == blockers(combos, strengths, hero, wanted)
}

/// The blockers of every combo, split by strength.
pub fn split_blocker_tables(combos: &[PrivateCombo], strengths: &[u64]) -> (r: SplitBlockerTables)
    requires
        combos@.len() <= 0xffff,
        strengths@.len() == combos@.len(),
        forall|i: int| 0 <= i < combos@.len() ==> (#[trigger] combos@[i]).first != combos@[i].second,
    ensures
        r.weaker_ranges@.len() == combos@.len(),
        r.stronger_ranges@.len() == combos@.len(),
        forall|h: int|
            0 <= h < combos@.len() ==> range_holds(
                combos@,
                strengths@,
                h,
                -1,
                r.weaker@,
                #[trigger] r.weaker_ranges@[h],
            ),
        forall|h: int|
            0 <= h < combos@.len() ==> range_holds(
                combos@,
                strengths@,
                h,
                1,
                r.stronger@,
                #[trigger] r.stronger_ranges@[h],
            ),
{
    let card_lists: Vec<Vec<u16>> = card_combo_table(combos);
    let mut weaker_ranges: Vec<(usize, usize)> = Vec::new();
    let mut weaker: Vec<u16> = Vec::new();
    let mut stronger_ranges: Vec<(usize, usize)> = Vec::new();
    let mut stronger: Vec<u16> = Vec::new();
    for hero in 0..combos.len()
        invariant
            combos@.len() <= 0xffff,
            strengths@.len() == combos@.len(),
            card_lists@.len() == 52,
            forall|card: Card| #[trigger]
                card_lists@[card.id()]@ == card_list(combos@, card, combos@.len()),
            weaker_ranges@.len() == hero,
            stronger_ranges@.len() == hero,
            forall|h: int|
                0 <= h < hero ==> range_holds(
                    combos@,
                    strengths@,
                    h,
                    -1,
                    weaker@,
                    #[trigger] weaker_ranges@[h],
                ),
            forall|h: int|
                0 <= h < hero ==> range_holds(
                    combos@,
                    strengths@,
                    h,
                    1,
                    stronger@,
                    #[trigger] stronger_ranges@[h],
                ),
    {
        let combo: PrivateCombo = combos[hero];
        let ghost weaker_before = weaker@;
        let ghost stronger_before = stronger@;
        let weaker_start: usize = weaker.len();
        let stronger_start: usize = stronger.len();
        let first: usize = combo.first.index();
        let second: usize = combo.second.index();
        proof {
            lemma_card_list(combos@, combo.first, combos@.len());
            lemma_card_list(combos@, combo.second, combos@.len());
        }
        push_matching(&card_lists[first], strengths, hero, -1, &mut weaker);
        push_matching(&card_lists[second], strengths, hero, -1, &mut weaker);
        push_matching(&card_lists[first], strengths, hero, 1, &mut stronger);
        push_matching(&card_lists[second], strengths, hero, 1, &mut stronger);
        weaker_ranges.push((weaker_start, weaker.len()));
        stronger_ranges.push((stronger_start, stronger.len()));
        proof {
            let w = blockers(combos@, strengths@, hero as int, -1);
            let s = blockers(combos@, strengths@, hero as int, 1);
            assert(weaker@ =~= weaker_before + w);
            assert(stronger@ =~= stronger_before + s);
            assert(weaker@.subrange(weaker_start as int, weaker@.len() as int) =~= w);
            assert(stronger@.subrange(stronger_start as int, stronger@.len() as int) =~= s);
            assert forall|h: int| 0 <= h < hero + 1 implies range_holds(
                combos@,
                strengths@,
                h,
                -1,
                weaker@,
                #[trigger] weaker_ranges@[h],
            ) by {
                if h < hero {
                    let range = weaker_ranges@[h];
                    assert(range_holds(combos@, strengths@, h, -1, weaker_before, range));
                    assert(weaker@.subrange(range.0 as int, range.1 as int)
                        =~= weaker_before.subrange(range.0 as int, range.1 as int));
                }
            }
            assert forall|h: int| 0 <= h < hero + 1 implies range_holds(
                combos@,
                strengths@,
                h,
                1,
                stronger@,
                #[trigger] stronger_ranges@[h],
            ) by {
                if h < hero {
                    let range = stronger_ranges@[h];
                    assert(range_holds(combos@, strengths@, h, 1, stronger_before, range));
                    assert(stronger@.subrange(range.0 as int, range.1 as int)
                        =~= stronger_before.subrange(range.0 as int, range.1 as int));
                }
            }
        }
    }
    SplitBlockerTables { weaker_ranges, weaker, stronger_ranges, stronger }
}

/// Whether the bounds of a strength split a sorted order into weaker, equal and stronger combos.
pub open spec fn bounds_split(
    order: Seq<usize>,
    strengths: Seq<u64>,
    hero: int,
    bounds: (usize, usize),
) -> bool {
    &&& bounds.0 <= bounds.1 <= order.len()
    &&& forall|k: int|
        0 <= k < order.len() ==> ((k < bounds.0) == (strengths[#[trigger] order[k] as int]
            < strengths[hero])) && ((k < bounds.1) == (strengths[order[k] as int]
            <= strengths[hero]))
}

/// Whether an order lists every position below `n` once, weaker strengths first.
pub open spec fn is_order(order: Seq<usize>, strengths: Seq<u64>) -> bool {
    &&& order.len() == strengths.len()
    &&& forall|k: int| 0 <= k < order.len() ==> (#[trigger] order[k]) < strengths.len()
    &&& forall|k: int, l: int|
        0 <= k < l < order.len() ==> strengths[#[trigger] order[k] as int]
            <= strengths[#[trigger] order[l] as int] && order[k] != order[l]
    &&& forall|v: usize| v < strengths.len() ==> #[trigger] order.contains(v)
}

/// The positions of strengths in ascending order.
pub fn order_by_strength(strengths: &[u64]) -> (r: Vec<usize>)
    ensures
        is_order(r@, strengths@),
{
    let mut keys: Vec<SortKey> = Vec::new();
    for i in 0..strengths.len()
        invariant
            keys@.len() == i,
            forall|j: int| 0 <= j < i ==> (#[trigger] keys@[j]) == (SortKey {
                first: strengths@[j],
                second: 0,
                third: 0,
                fourth: 0,
            }),
    {
        keys.push(SortKey::one(strengths[i]));
    }
    let order: Vec<usize> = sorted_positions(&keys);
    proof {
        assert forall|k: int, l: int| 0 <= k < l < order@.len() implies strengths@[#[trigger] order@[k] as int]
            <= strengths@[#[trigger] order@[l] as int] && order@[k] != order@[l] by {
            assert(comes_before(keys@, order@[k] as int, order@[l] as int));
        }
    }
    order
}

/// For every combo the part of a sorted order that ties with it.
pub fn group_bounds(order: &[usize], strengths: &[u64]) -> (r: Vec<(usize, usize)>)
    requires
        is_order(order@, strengths@),
    ensures
        r@.len() == strengths@.len(),
        forall|h: int|
            0 <= h < strengths@.len() ==> bounds_split(order@, strengths@, h, #[trigger] r@[h]),
{
    let n: usize = strengths.len();
    let mut bounds: Vec<(usize, usize)> = Vec::new();
    for i in 0..n
        invariant
            bounds@.len() == i,
    {
        bounds.push((0, 0));
    }
    let mut lower: usize = 0;
    while lower < n
        invariant
            n == strengths@.len(),
            lower <= n,
            is_order(order@, strengths@),
            bounds@.len() == n,
            forall|k: int|
                0 <= k < lower ==> bounds_split(
                    order@,
                    strengths@,
                    #[trigger] order@[k] as int,
                    bounds@[order@[k] as int],
                ),
            0 < lower < n ==> strengths@[order@[lower - 1] as int]
                < strengths@[order@[lower as int] as int],
        decreases n - lower,
    {
        let strength: u64 = strengths[order[lower]];
        let mut upper: usize = lower + 1;
        while upper < n && strengths[order[upper]] == strength
            invariant
                n == strengths@.len(),
                lower < upper <= n,
                is_order(order@, strengths@),
                strength == strengths@[order@[lower as int] as int],
                forall|k: int|
                    lower <= k < upper ==> strengths@[#[trigger] order@[k] as int] == strength,
            decreases n - upper,
        {
            upper = upper + 1;
        }
        let ghost before = bounds@;
        let mut i: usize = lower;
        while i < upper
            invariant
                n == strengths@.len(),
                lower <= i <= upper <= n,
                is_order(order@, strengths@),
                bounds@.len() == n,
                forall|k: int|
                    0 <= k < lower ==> bounds_split(
                        order@,
                        strengths@,
                        #[trigger] order@[k] as int,
                        bounds@[order@[k] as int],
                    ),
                forall|k: int|
                    lower <= k < i ==> bounds@[#[trigger] order@[k] as int] == (lower, upper),
            decreases upper - i,
        {
            let hero: usize = order[i];
            bounds[hero] = (lower, upper);
            i = i + 1;
        }
        proof {
            assert forall|k: int| 0 <= k < upper implies bounds_split(
                order@,
                strengths@,
                #[trigger] order@[k] as int,
                bounds@[order@[k] as int],
            ) by {
                if k >= lower {
                    let hero = order@[k] as int;
                    assert(strengths@[hero] == strength);
                    assert forall|l: int| 0 <= l < order@.len() implies ((l < lower) == (
                    strengths@[#[trigger] order@[l] as int] < strength)) && ((l < upper) == (
                    strengths@[order@[l] as int] <= strength)) by {
                        if l < lower {
                            if l < lower - 1 {
                                assert(strengths@[order@[l] as int]
                                    <= strengths@[order@[lower - 1] as int]);
                            }
                        } else if l >= upper {
                            assert(strengths@[order@[upper as int] as int]
                                <= strengths@[order@[l] as int]);
                            assert(strengths@[order@[lower as int] as int]
                                <= strengths@[order@[upper as int] as int]);
                        }
                    }
                }
            }
            if upper < n {
                assert(strengths@[order@[upper - 1] as int] == strength);
                assert(strengths@[order@[upper - 1] as int] <= strengths@[order@[upper as int] as int]);
            }
        }
        lower = upper;
    }
    proof {
        assert forall|h: int| 0 <= h < strengths@.len() implies bounds_split(
            order@,
            strengths@,
            h,
            #[trigger] bounds@[h],
        ) by {
            assert(order@.contains(h as usize));
            let k = choose|k: int| 0 <= k < order@.len() && order@[k] == h as usize;
            assert(bounds_split(order@, strengths@, order@[k] as int, bounds@[order@[k] as int]));
        }
    }
    bounds
}

/// A finished board with the tables that its counterfactual values are computed from.
#[derive(Clone, Debug)]
pub struct PreparedTerminalBoard {
    combos: Vec<PrivateCombo>,
    combo_index_by_key: KeyMap<usize>,
    strengths: Vec<u64>,
    order: Vec<usize>,
    group_bounds: Vec<(usize, usize)>,
    weaker_blocker_ranges: Vec<(usize, usize)>,
    weaker_blockers: Vec<u16>,
    stronger_blocker_ranges: Vec<(usize, usize)>,
    stronger_blockers: Vec<u16>,
}

impl PreparedTerminalBoard {
    /// The combos that can be held.
    pub closed spec fn combos_spec(&self) -> Seq<PrivateCombo> {
        self.combos@
    }

    /// How strong each combo is.
    pub closed spec fn strengths_spec(&self) -> Seq<u64> {
        self.strengths@
    }

    /// The combos from the weakest to the strongest.
    pub closed spec fn order_spec(&self) -> Seq<usize> {
        self.order@
    }

    /// The place of each combo's strength in the order.
    pub closed spec fn bounds_spec(&self, hero: int) -> (usize, usize) {
        self.group_bounds@[hero]
    }

    /// The weaker combos that share a card with the hero's.
    pub open spec fn weaker_spec(&self, hero: int) -> Seq<u16> {
        blockers(self.combos_spec(), self.strengths_spec(), hero, -1)
    }

    /// The stronger combos that share a card with the hero's.
    pub open spec fn stronger_spec(&self, hero: int) -> Seq<u16> {
        blockers(self.combos_spec(), self.strengths_spec(), hero, 1)
    }

    /// How many combos can be held.
    pub open spec fn count(&self) -> nat {
        self.combos_spec().len()
    }

    /// The tables fit together.
    pub closed spec fn wf(&self) -> bool {
        let n = self.combos@.len();
        &&& 0 < n <= 0xffff
        &&& distinct_combos(self.combos@)
        &&& forall|i: int| 0 <= i < n ==> (#[trigger] self.combos@[i]).first != self.combos@[i].second
        &&& self.strengths@.len() == n
        &&& is_order(self.order@, self.strengths@)
        &&& self.group_bounds@.len() == n
        &&& forall|h: int|
            0 <= h < n ==> bounds_split(
                self.order@,
                self.strengths@,
                h,
                #[trigger] self.group_bounds@[h],
            )
        &&& self.weaker_blocker_ranges@.len() == n
        &&& self.stronger_blocker_ranges@.len() == n
        &&& forall|h: int|
            0 <= h < n ==> range_holds(
                self.combos@,
                self.strengths@,
                h,
                -1,
                self.weaker_blockers@,
                #[trigger] self.weaker_blocker_ranges@[h],
            )
        &&& forall|h: int|
            0 <= h < n ==> range_holds(
                self.combos@,
                self.strengths@,
                h,
                1,
                self.stronger_blockers@,
                #[trigger] self.stronger_blocker_ranges@[h],
            )
        &&& forall|i: int|
            0 <= i < n ==> self.combo_index_by_key@.contains_key(
                (#[trigger] self.combos@[i]).first.bit() | self.combos@[i].second.bit(),
            ) && self.combo_index_by_key@[self.combos@[i].first.bit() | self.combos@[i].second.bit()]
                == i
        &&& forall|key: u64| #[trigger]
            self.combo_index_by_key@.contains_key(key) ==> exists|i: int|
                0 <= i < n && (#[trigger] self.combos@[i]).first.bit() | self.combos@[i].second.bit()
                    == key
    }

    /// What the tables say.
    pub proof fn wf_facts(&self)
        requires
            self.wf(),
        ensures
            0 < self.count() <= 0xffff,
            distinct_combos(self.combos_spec()),
            forall|i: int|
                0 <= i < self.count() ==> (#[trigger] self.combos_spec()[i]).first
                    != self.combos_spec()[i].second,
            self.strengths_spec().len() == self.count(),
            is_order(self.order_spec(), self.strengths_spec()),
            forall|h: int|
                0 <= h < self.count() ==> bounds_split(
                    self.order_spec(),
                    self.strengths_spec(),
                    h,
                    #[trigger] self.bounds_spec(h),
                ),
    {
    }

    /// Prepares a finished board.
    pub fn new(board: &Board) -> (r: Result<Self, String>)
        requires
            board.wf(),
        ensures
            match r {
                Ok(prepared) => {
                    &&& board@.len() == 5
                    &&& prepared.wf()
                    &&& prepared.combos_spec() == combos_of(deck_without(board@))
                    &&& prepared.count() == 1081
                    &&& forall|i: int|
                        0 <= i < prepared.count() ==> #[trigger] prepared.strengths_spec()[i]
                            == strength_on(board@, prepared.combos_spec()[i])
                },
                Err(message) => board@.len() != 5 && message@
                    == "terminal CFV requires a five-card board"@,
            },
    {
        let combos: Vec<PrivateCombo> = match live_combos(board) {
            Ok(combos) => combos,
            Err(message) => {
                return Err(message);
            },
        };
        proof {
            board.wf_facts();
            live_combos_facts(board@);
        }
        let mut combo_index_by_key: KeyMap<usize> = KeyMap::new();
        for index in 0..combos.len()
            invariant
                combos@.len() == 1081,
                distinct_combos(combos@),
                forall|i: int|
                    0 <= i < combos@.len() ==> (#[trigger] combos@[i]).first != combos@[i].second,
                forall|i: int|
                    0 <= i < index ==> combo_index_by_key@.contains_key(
                        (#[trigger] combos@[i]).first.bit() | combos@[i].second.bit(),
                    ) && combo_index_by_key@[combos@[i].first.bit() | combos@[i].second.bit()] == i,
                forall|key: u64| #[trigger]
                    combo_index_by_key@.contains_key(key) ==> exists|i: int|
                        0 <= i < index && (#[trigger] combos@[i]).first.bit() | combos@[i].second.bit()
                            == key,
        {
            let key: u64 = combos[index].key();
            let ghost before = combo_index_by_key@;
            combo_index_by_key.insert(key, index);
            proof {
                assert forall|i: int| 0 <= i < index + 1 implies combo_index_by_key@.contains_key(
                    (#[trigger] combos@[i]).first.bit() | combos@[i].second.bit(),
                ) && combo_index_by_key@[combos@[i].first.bit() | combos@[i].second.bit()] == i by {
                    if i < index && combos@[i].first.bit() | combos@[i].second.bit() == key {
                        lemma_pair_key(
                            combos@[i].first,
                            combos@[i].second,
                            combos@[index as int].first,
                            combos@[index as int].second,
                        );
                    }
                }
                assert forall|k: u64| #[trigger] combo_index_by_key@.contains_key(k) implies exists|
                    i: int,
                |
                    0 <= i < index + 1 && (#[trigger] combos@[i]).first.bit() | combos@[i].second.bit()
                        == k by {
                    if k == key {
                        assert(combos@[index as int].first.bit() | combos@[index as int].second.bit()
                            == k);
                    } else {
                        assert(before.contains_key(k));
                    }
                }
            }
        }
        let strengths: Vec<u64> = combo_strengths(board, &combos);
        let order: Vec<usize> = order_by_strength(&strengths);
        let group_bounds: Vec<(usize, usize)> = group_bounds(&order, &strengths);
        let tables: SplitBlockerTables = split_blocker_tables(&combos, &strengths);
        Ok(
            PreparedTerminalBoard {
                combos,
                combo_index_by_key,
                strengths,
                order,
                group_bounds,
                weaker_blocker_ranges: tables.weaker_ranges,
                weaker_blockers: tables.weaker,
                stronger_blocker_ranges: tables.stronger_ranges,
                stronger_blockers: tables.stronger,
            },
        )
    }

    /// The combos that can be held, in ascending order.
    pub fn combos(&self) -> (r: &[PrivateCombo])
        ensures
            r@ == self.combos_spec(),
    {
        self.combos.as_slice()
    }

    /// How many combos can be held.
    pub fn len(&self) -> (r: usize)
        ensures
            r == self.count(),
    {
        self.combos.len()
    }

    /// A combo by its position.
    pub fn combo(&self, index: usize) -> (r: PrivateCombo)
        requires
            index < self.count(),
        ensures
            r == self.combos_spec()[index as int],
    {
        self.combos[index]
    }

    /// How strong a combo is.
    pub fn strength(&self, index: usize) -> (r: u64)
        requires
            self.wf(),
            index < self.count(),
        ensures
            r == self.strengths_spec()[index as int],
    {
        self.strengths[index]
    }

    /// The combo at a place of the order.
    pub fn ordered(&self, place: usize) -> (r: usize)
        requires
            self.wf(),
            place < self.count(),
        ensures
            r == self.order_spec()[place as int],
            r < self.count(),
    {
        self.order[place]
    }

    /// The place of a combo's strength in the order.
    pub fn bounds(&self, hero: usize) -> (r: (usize, usize))
        requires
            self.wf(),
            hero < self.count(),
        ensures
            r == self.bounds_spec(hero as int),
            r.0 <= r.1 <= self.count(),
    {
        let r: (usize, usize) = self.group_bounds[hero];
        proof {
            assert(bounds_split(self.order@, self.strengths@, hero as int, self.group_bounds@[hero as int]));
        }
        r
    }

    /// The weaker combos that share a card with the hero's.
    pub fn weaker(&self, hero: usize) -> (r: &[u16])
        requires
            self.wf(),
            hero < self.count(),
        ensures
            r@ == self.weaker_spec(hero as int),
    {
        let range: (usize, usize) = self.weaker_blocker_ranges[hero];
        proof {
            assert(range_holds(
                self.combos@,
                self.strengths@,
                hero as int,
                -1,
                self.weaker_blockers@,
                self.weaker_blocker_ranges@[hero as int],
            ));
        }
        vstd::slice::slice_subrange(self.weaker_blockers.as_slice(), range.0, range.1)
    }

    /// The stronger combos that share a card with the hero's.
    pub fn stronger(&self, hero: usize) -> (r: &[u16])
        requires
            self.wf(),
            hero < self.count(),
        ensures
            r@ == self.stronger_spec(hero as int),
    {
        let range: (usize, usize) = self.stronger_blocker_ranges[hero];
        proof {
            assert(range_holds(
                self.combos@,
                self.strengths@,
                hero as int,
                1,
                self.stronger_blockers@,
                self.stronger_blocker_ranges@[hero as int],
            ));
        }
        vstd::slice::slice_subrange(self.stronger_blockers.as_slice(), range.0, range.1)
    }

    /// The position of the combo of two cards, in either order.
    pub fn combo_index(&self, first: Card, second: Card) -> (r: Option<usize>)
        requires
            self.wf(),
        ensures
            match r {
                Some(index) => index < self.count() && self.combos_spec()[index as int].is_pair(
                    first,
                    second,
                ),
                None => forall|i: int|
                    0 <= i < self.count() ==> !(#[trigger] self.combos_spec()[i]).is_pair(
                        first,
                        second,
                    ),
            },
    {
        let key: u64 = private_combo_key(first, second);
        match self.combo_index_by_key.get(key) {
            Some(index) => {
                proof {
                    let i = choose|i: int|
                        0 <= i < self.combos@.len() && (#[trigger] self.combos@[i]).first.bit()
                            | self.combos@[i].second.bit() == key;
                    lemma_pair_key(first, second, self.combos@[i].first, self.combos@[i].second);
                }
                Some(*index)
            },
            None => {
                proof {
                    assert forall|i: int| 0 <= i < self.count() implies !(
                    #[trigger] self.combos_spec()[i]).is_pair(first, second) by {
                        if self.combos@[i].is_pair(first, second) {
                            let a = first.bit();
                            let b = second.bit();
                            assert(a | b == b | a) by (bit_vector);
                        }
                    }
                }
                None
            },
        }
    }
}

} // verus!
