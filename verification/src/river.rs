//! The hands that can be held on a river and what they block.
use vstd::prelude::*;
use crate::cards::{
    all_different, card_ids_differ, card_position_round_trip, deck_without, mask_of, mask_of_contains, masks_together, Board, Card, Rank, Suit,
};
use crate::evaluator::HandValue;
use crate::scalar::Scalar;
use crate::deals::{deck_without_facts, pairs_are_all};
use crate::sorting::{comes_before, is_sorting, sorted_positions, sorting, SortKey};
use crate::terminal_board::{
    combo_strengths, combos_of, left_combos, left_combos_facts, live_combos_facts, strength_on,
    PrivateCombo,
};

verus! {

/// Two cards of a hand.
#[derive(Clone, Copy, Debug, PartialEq, Eq, Hash, Structural)]
pub struct Combo {
    pub first: Card,
    pub second: Card,
}

/// A hand on a river: its cards, their bits, and what it is worth.
#[derive(Clone, Copy, Debug, PartialEq, Eq, Structural)]
pub struct RiverCombo {
    pub combo: Combo,
    pub mask: u64,
    pub value: HandValue,
}

/// How many of the other player's hands a hand blocks.
#[derive(Clone, Copy, Debug, PartialEq, Eq, Structural)]
pub struct RiverBlockerReport {
    pub hero: RiverCombo,
    pub blocked_villain_combos: usize,
    pub blocked_top_combos: usize,
    pub total_villain_combos: usize,
    pub top_villain_combos: usize,
}

/// Who acts.
#[derive(Clone, Copy, Debug, PartialEq, Eq, Structural)]
pub enum RiverRole {
    Oop,
    Ip,
}

/// At what decision.
#[derive(Clone, Copy, Debug, PartialEq, Eq, Structural)]
pub enum RiverNode {
    FacingBet,
    AfterCheck,
}

/// The letters of a card.
pub fn card_label(card: Card) -> (r: String)
    ensures
        r@ == card.text_spec(),
{
    card.text()
}

/// The bits of a board's cards.
pub fn board_mask(board: [Card; 5]) -> (r: u64)
    ensures
        r == mask_of(board@),
{
    let mut mask: u64 = 0;
    for i in 0..5
        invariant
            mask == mask_of(board@.take(i as int)),
    {
        proof {
            assert(board@.take(i + 1).drop_last() =~= board@.take(i as int));
        }
        mask = mask | board[i].deck_mask();
    }
    proof {
        assert(board@.take(5) =~= board@);
    }
    mask
}

impl Combo {
    /// The bits of the cards.
    pub open spec fn mask_spec(self) -> u64 {
        self.first.bit() | self.second.bit()
    }

    /// Two different cards.
    pub fn new(first: Card, second: Card) -> (r: Option<Self>)
        ensures
            r == if first == second {
                None
            } else {
                Some(Combo { first, second })
            },
    {
        if first == second {
            return None;
        }
        Some(Combo { first, second })
    }

    /// The bits of the cards.
    pub fn mask(self) -> (r: u64)
        ensures
            r == self.mask_spec(),
    {
        self.first.deck_mask() | self.second.deck_mask()
    }

    /// The letters of the cards.
    pub open spec fn label_spec(self) -> Seq<char> {
        self.first.text_spec() + self.second.text_spec()
    }

    /// The letters of the cards.
    pub fn label(self) -> (r: String)
        ensures
            r@ == self.label_spec(),
    {
        card_label(self.first).concat(card_label(self.second).as_str())
    }

    /// The letters of the cards, as one number that compares as the letters do.
    pub open spec fn label_key_spec(self) -> u64 {
        (((self.first.rank.letter_spec() as int * 256 + self.first.suit.letter_spec() as int) * 256
            + self.second.rank.letter_spec() as int) * 256
            + self.second.suit.letter_spec() as int) as u64
    }

    pub fn label_key(self) -> (r: u64)
        ensures
            r == self.label_key_spec(),
    {
        let a: u64 = rank_code(self.first.rank);
        let b: u64 = suit_code(self.first.suit);
        let c: u64 = rank_code(self.second.rank);
        let d: u64 = suit_code(self.second.suit);
        ((a * 256 + b) * 256 + c) * 256 + d
    }
}

fn rank_code(rank: Rank) -> (r: u64)
    ensures
        r == rank.letter_spec() as int,
        r < 256,
{
    match rank {
        Rank::Two => 50,
        Rank::Three => 51,
        Rank::Four => 52,
        Rank::Five => 53,
        Rank::Six => 54,
        Rank::Seven => 55,
        Rank::Eight => 56,
        Rank::Nine => 57,
        Rank::Ten => 84,
        Rank::Jack => 74,
        Rank::Queen => 81,
        Rank::King => 75,
        Rank::Ace => 65,
    }
}

fn suit_code(suit: Suit) -> (r: u64)
    ensures
        r == suit.letter_spec() as int,
        r < 256,
{
    match suit {
        Suit::Clubs => 99,
        Suit::Diamonds => 100,
        Suit::Hearts => 104,
        Suit::Spades => 115,
    }
}

impl RiverCombo {
    /// The letters of the hand.
    pub fn label(&self) -> (r: String)
        ensures
            r@ == self.combo.label_spec(),
    {
        self.combo.label()
    }
}

/// A pair of cards as a hand on a river.
pub open spec fn river_combo_of(board: Seq<Card>, pair: PrivateCombo) -> RiverCombo {
    let combo = Combo { first: pair.first, second: pair.second };
    RiverCombo {
        combo,
        mask: combo.mask_spec(),
        value: HandValue { packed: strength_on(board, pair) as u64 },
    }
}

/// By what hands on a river are ordered: the strongest first, then by their cards.
pub open spec fn river_key(combo: RiverCombo) -> SortKey {
    SortKey {
        first: (u64::MAX - combo.value.packed) as u64,
        second: combo.combo.first.id() as u64,
        third: combo.combo.second.id() as u64,
        fourth: 0,
    }
}

/// The hands that can be held on a river, in the order of the deck.
pub open spec fn river_hands(board: Seq<Card>) -> Seq<RiverCombo> {
    let pairs = combos_of(deck_without(board));
    Seq::new(pairs.len(), |i: int| river_combo_of(board, pairs[i]))
}

/// The keys of hands.
pub open spec fn river_keys(hands: Seq<RiverCombo>) -> Seq<SortKey> {
    Seq::new(hands.len(), |i: int| river_key(hands[i]))
}

/// The hands that can be held on a river, the strongest first.
pub open spec fn river_list(board: Seq<Card>) -> Seq<RiverCombo> {
    let hands = river_hands(board);
    let order = sorting(river_keys(hands));
    Seq::new(order.len(), |i: int| hands[order[i] as int])
}

/// Whether a hand on a river comes before another: it is stronger, or as strong and of smaller cards.
pub open spec fn ranks_before(a: RiverCombo, b: RiverCombo) -> bool {
    ||| a.value.packed > b.value.packed
    ||| a.value.packed == b.value.packed && (a.combo.first.id() < b.combo.first.id() || (
    a.combo.first == b.combo.first && a.combo.second.id() < b.combo.second.id()))
}

/// Whether a hand on a river is made of two cards.
pub open spec fn holds_pair(hand: RiverCombo, a: Card, b: Card) -> bool {
    (hand.combo.first == a && hand.combo.second == b) || (hand.combo.first == b && hand.combo.second
        == a)
}

/// Whether hands on a river are off the board and the strongest come first.
pub open spec fn are_river_hands(board: Seq<Card>, hands: Seq<RiverCombo>) -> bool {
    &&& forall|i: int|
        0 <= i < hands.len() ==> {
            let combo = (#[trigger] hands[i]).combo;
            &&& hands[i].mask == combo.mask_spec()
            &&& !board.contains(combo.first)
            &&& !board.contains(combo.second)
            &&& combo.first.id() < combo.second.id()
            &&& hands[i].value.packed == strength_on(
                board,
                PrivateCombo { first: combo.first, second: combo.second },
            )
        }
    &&& forall|i: int, j: int|
        0 <= i < j < hands.len() ==> ranks_before(#[trigger] hands[i], #[trigger] hands[j])
}

/// Whether every pair of different cards off a board is one of the hands.
#[verifier::opaque]
pub open spec fn hold_every_pair(board: Seq<Card>, hands: Seq<RiverCombo>) -> bool {
    forall|a: Card, b: Card|
        a != b && !board.contains(a) && !board.contains(b) ==> exists|i: int|
            0 <= i < hands.len() && #[trigger] holds_pair(hands[i], a, b)
}

/// The cards of a board, each of them once.
fn distinct_cards(board: [Card; 5]) -> (r: Vec<Card>)
    ensures
        r@.len() <= 5,
        all_different(r@),
        forall|card: Card| #[trigger] r@.contains(card) == board@.contains(card),
        all_different(board@) ==> r@ == board@,
{
    let mut list: Vec<Card> = Vec::new();
    for i in 0..5
        invariant
            list@.len() <= i,
            all_different(list@),
            forall|card: Card| #[trigger] list@.contains(card) == board@.take(i as int).contains(card),
            all_different(board@) ==> list@ =~= board@.take(i as int),
    {
        let mut seen: bool = false;
        for j in 0..list.len()
            invariant
                i < 5,
                seen == (exists|k: int| 0 <= k < j && #[trigger] list@[k] == board@[i as int]),
        {
            if list[j] == board[i] {
                seen = true;
                assert(list@[j as int] == board@[i as int]);
            }
        }
        let ghost before = list@;
        let ghost card = board@[i as int];
        proof {
            assert(before.contains(card) == seen);
            if all_different(board@) && seen {
                let k = choose|k: int| 0 <= k < before.len() && before[k] == card;
                assert(board@[k] != board@[i as int]);
            }
        }
        if !seen {
            list.push(board[i]);
        }
        proof {
            let part = board@.take(i as int);
            let more = board@.take(i + 1);
            assert(more =~= part.push(card));
            assert forall|c: Card| #[trigger] list@.contains(c) == more.contains(c) by {
                lemma_pushed(part, card, c);
                lemma_pushed(before, card, c);
                assert(before.contains(c) == part.contains(c));
            }
            if !seen {
                assert forall|k: int, l: int| 0 <= k < l < list@.len() implies #[trigger] list@[k]
                    != #[trigger] list@[l] by {
                    assert(before.contains(before[k]));
                }
            }
        }
    }
    proof {
        assert(board@.take(5) =~= board@);
    }
    list
}

proof fn lemma_pushed(cards: Seq<Card>, card: Card, other: Card)
    ensures
        cards.push(card).contains(other) == (cards.contains(other) || card == other),
{
    let more = cards.push(card);
    assert(more[cards.len() as int] == card);
    if cards.contains(other) {
        let k = choose|k: int| 0 <= k < cards.len() && cards[k] == other;
        assert(more[k] == other);
    }
    if more.contains(other) {
        let k = choose|k: int| 0 <= k < more.len() && more[k] == other;
        if k < cards.len() {
            assert(cards[k] == other);
        }
    }
}

proof fn lemma_left_count(board: Seq<Card>)
    requires
        board.len() == 5,
    ensures
        all_different(board) ==> combos_of(deck_without(board)).len() == 1081,
{
    if all_different(board) {
        live_combos_facts(board);
    }
}

proof fn lemma_left_apart(board: Seq<Card>)
    ensures
        forall|i: int|
            0 <= i < combos_of(deck_without(board)).len() ==> {
                let combo = #[trigger] combos_of(deck_without(board))[i];
                combo.first != combo.second && !board.contains(combo.first) && !board.contains(
                    combo.second,
                )
            },
{
    left_combos_facts(board);
}

proof fn lemma_left_two(board: Seq<Card>, p: int, q: int)
    requires
        0 <= p < combos_of(deck_without(board)).len(),
        0 <= q < combos_of(deck_without(board)).len(),
    ensures
        ({
            let pairs = combos_of(deck_without(board));
            &&& pairs[p].first.id() < pairs[p].second.id()
            &&& !board.contains(pairs[p].first)
            &&& !board.contains(pairs[p].second)
            &&& p != q ==> !pairs[p].is_pair(pairs[q].first, pairs[q].second)
        }),
{
    left_combos_facts(board);
}

proof fn lemma_left_place(board: Seq<Card>, a: Card, b: Card) -> (p: int)
    requires
        a != b,
        !board.contains(a),
        !board.contains(b),
    ensures
        0 <= p < combos_of(deck_without(board)).len() <= usize::MAX,
        combos_of(deck_without(board))[p].is_pair(a, b),
{
    let pairs = combos_of(deck_without(board));
    left_combos_facts(board);
    deck_without_facts(board);
    pairs_are_all(deck_without(board).len());
    choose|p: int| 0 <= p < pairs.len() && (#[trigger] pairs[p]).is_pair(a, b)
}

/// The list of hands on a river is in order and complete.
proof fn lemma_river_list(board: Seq<Card>, order: Seq<usize>)
    requires
        order == sorting(river_keys(river_hands(board))),
        is_sorting(river_keys(river_hands(board)), 0, river_hands(board).len() as int, order),
        forall|i: int|
            0 <= i < river_hands(board).len() ==> (#[trigger] river_hands(board)[i]).value.packed
                == strength_on(board, combos_of(deck_without(board))[i]),
    ensures
        are_river_hands(board, river_list(board)),
        hold_every_pair(board, river_list(board)),
{
    let pairs = combos_of(deck_without(board));
    let hands = river_hands(board);
    let keys = river_keys(hands);
    let sorted = river_list(board);
    assert forall|i: int| 0 <= i < sorted.len() implies {
        let combo = (#[trigger] sorted[i]).combo;
        &&& sorted[i].mask == combo.mask_spec()
        &&& !board.contains(combo.first)
        &&& !board.contains(combo.second)
        &&& combo.first.id() < combo.second.id()
        &&& sorted[i].value.packed == strength_on(
            board,
            PrivateCombo { first: combo.first, second: combo.second },
        )
    } by {
        let p = pairs[order[i] as int];
        lemma_left_two(board, order[i] as int, order[i] as int);
        assert(hands[order[i] as int].value.packed == strength_on(board, p));
        assert(p == (PrivateCombo { first: p.first, second: p.second }));
    }
    assert forall|i: int, j: int| 0 <= i < j < sorted.len() implies ranks_before(
        #[trigger] sorted[i],
        #[trigger] sorted[j],
    ) by {
        let (p, q) = (order[i] as int, order[j] as int);
        assert(comes_before(keys, p, q));
        lemma_left_two(board, p, q);
        card_position_round_trip(pairs[p].first, 0);
        card_position_round_trip(pairs[q].first, 0);
        card_position_round_trip(pairs[p].second, 0);
        card_position_round_trip(pairs[q].second, 0);
        card_ids_differ(pairs[p].first, pairs[q].first);
        card_ids_differ(pairs[p].second, pairs[q].second);
    }
    assert(hold_every_pair(board, sorted)) by {
        reveal(hold_every_pair);
        assert forall|a: Card, b: Card|
            a != b && !board.contains(a) && !board.contains(b) implies exists|i: int|
            0 <= i < sorted.len() && #[trigger] holds_pair(sorted[i], a, b) by {
            let p = lemma_left_place(board, a, b);
            assert(order.contains(p as usize));
            let i = choose|i: int| 0 <= i < order.len() && order[i] == p as usize;
            assert(holds_pair(sorted[i], a, b));
        }
    }
}

/// The hands that can be held on a river, the strongest first: every pair of cards that are not on the
/// board, once. On a board of five different cards there are 1081 of them.
pub fn river_combos(board: [Card; 5]) -> (r: Vec<RiverCombo>)
    ensures
        r@ == river_list(board@),
        all_different(board@) ==> r@.len() == 1081,
        are_river_hands(board@, r@),
        hold_every_pair(board@, r@),
{
    let list: Vec<Card> = distinct_cards(board);
    let cards: Board = Board::new(list);
    proof {
        lemma_left_count(board@);
        assert(deck_without(cards@) == deck_without(board@)) by {
            let left = |card: Card| !cards@.contains(card);
            let right = |card: Card| !board@.contains(card);
            assert(left =~= right);
        }
        assert(cards@.to_set() =~= board@.to_set());
    }
    let pairs: Vec<PrivateCombo> = left_combos(&cards);
    proof {
        lemma_left_apart(board@);
    }
    let strengths: Vec<u64> = combo_strengths(&cards, &pairs);
    let mut hands: Vec<RiverCombo> = Vec::new();
    let mut keys: Vec<SortKey> = Vec::new();
    for i in 0..pairs.len()
        invariant
            pairs@ == combos_of(deck_without(board@)),
            strengths@.len() == pairs@.len(),
            forall|k: int|
                0 <= k < pairs@.len() ==> #[trigger] strengths@[k] == strength_on(board@, pairs@[k]),
            hands@ =~= river_hands(board@).take(i as int),
            keys@ =~= river_keys(river_hands(board@)).take(i as int),
    {
        let combo = Combo { first: pairs[i].first, second: pairs[i].second };
        let hand = RiverCombo {
            combo,
            mask: combo.mask(),
            value: HandValue { packed: strengths[i] },
        };
        proof {
            assert(strengths@[i as int] == strength_on(board@, pairs@[i as int]));
            assert(hand == river_hands(board@)[i as int]);
        }
        keys.push(
            SortKey {
                first: u64::MAX - hand.value.packed,
                second: combo.first.index() as u64,
                third: combo.second.index() as u64,
                fourth: 0,
            },
        );
        hands.push(hand);
    }
    proof {
        assert(hands@ =~= river_hands(board@));
        assert(keys@ =~= river_keys(hands@));
    }
    let order: Vec<usize> = sorted_positions(&keys);
    let mut sorted: Vec<RiverCombo> = Vec::new();
    for i in 0..order.len()
        invariant
            hands@ == river_hands(board@),
            keys@ == river_keys(hands@),
            order@ == sorting(keys@),
            is_sorting(keys@, 0, keys@.len() as int, order@),
            sorted@ =~= river_list(board@).take(i as int),
    {
        sorted.push(hands[order[i]]);
    }
    proof {
        assert(sorted@ =~= river_list(board@));
        assert forall|i: int| 0 <= i < hands@.len() implies (
        #[trigger] river_hands(board@)[i]).value.packed == strength_on(board@, pairs@[i]) by {
            assert(strengths@[i] == strength_on(board@, pairs@[i]));
        }
        lemma_river_list(board@, order@);
    }
    sorted
}

/// No hand on a river shares a card with the board.
pub proof fn river_hands_are_off_board(board: Seq<Card>, hands: Seq<RiverCombo>, i: int)
    requires
        are_river_hands(board, hands),
        0 <= i < hands.len(),
    ensures
        hands[i].mask & mask_of(board) == 0,
{
    let combo = hands[i].combo;
    mask_of_contains(board, combo.first);
    mask_of_contains(board, combo.second);
    masks_together(combo.first.bit(), combo.second.bit(), mask_of(board));
}

/// How many of the first `n` hands share a card with a hand.
pub open spec fn blocked(mask: u64, hands: Seq<RiverCombo>, n: nat) -> nat
    decreases n,
{
    if n == 0 {
        0
    } else {
        blocked(mask, hands, (n - 1) as nat) + (if mask & hands[n - 1].mask != 0 {
            1nat
        } else {
            0
        })
    }
}

/// How many hands are at the top: a share of all, rounded up, at least one.
pub open spec fn top_count_spec<S: Scalar>(count: nat, fraction: S) -> nat {
    let share = S::from_count_spec(count as usize).times_spec(
        fraction.max_spec(S::zero_spec()).min_spec(S::one_spec()),
    ).ceil_u32_spec() as nat;
    let least = if share == 0 {
        1
    } else {
        share
    };
    if least < count {
        least
    } else {
        count
    }
}

fn top_count<S: Scalar>(count: usize, fraction: S) -> (r: usize)
    ensures
        r == top_count_spec(count as nat, fraction),
        r <= count,
{
    let share: u32 = S::from_count(count).times(fraction.max_of(S::zero()).min_of(S::one())).ceil_u32();
    let least: usize = if share == 0 {
        1
    } else {
        share as usize
    };
    if least < count {
        least
    } else {
        count
    }
}

/// What a hand blocks.
pub open spec fn report_of<S: Scalar>(hero: RiverCombo, villains: Seq<RiverCombo>, fraction: S) -> RiverBlockerReport {
    let top = top_count_spec(villains.len(), fraction);
    RiverBlockerReport {
        hero,
        blocked_villain_combos: blocked(hero.mask, villains, villains.len()) as usize,
        blocked_top_combos: blocked(hero.mask, villains, top) as usize,
        total_villain_combos: villains.len() as usize,
        top_villain_combos: top as usize,
    }
}

/// What the first `n` hands off the board block.
pub open spec fn reports_spec<S: Scalar>(
    board: Seq<Card>,
    heroes: Seq<RiverCombo>,
    villains: Seq<RiverCombo>,
    fraction: S,
    n: nat,
) -> Seq<RiverBlockerReport>
    decreases n,
{
    if n == 0 {
        Seq::empty()
    } else {
        let front = reports_spec(board, heroes, villains, fraction, (n - 1) as nat);
        if heroes[n - 1].mask & mask_of(board) == 0 {
            front.push(report_of(heroes[n - 1], villains, fraction))
        } else {
            front
        }
    }
}

fn count_blocked(mask: u64, hands: &[RiverCombo], n: usize) -> (r: usize)
    requires
        n <= hands@.len(),
    ensures
        r == blocked(mask, hands@, n as nat),
        r <= n,
{
    let mut count: usize = 0;
    for i in 0..n
        invariant
            n <= hands@.len(),
            count == blocked(mask, hands@, i as nat),
            count <= i,
    {
        if mask & hands[i].mask != 0 {
            count = count + 1;
        }
    }
    count
}

/// What each hand off the board blocks of the other player's hands, the strongest of which come first.
pub fn river_blocker_reports<S: Scalar>(
    board: [Card; 5],
    hero_combos: &[RiverCombo],
    villain_combos: &[RiverCombo],
    top_fraction: S,
) -> (r: Vec<RiverBlockerReport>)
    ensures
        r@ == reports_spec(
            board@,
            hero_combos@,
            villain_combos@,
            top_fraction,
            hero_combos@.len(),
        ),
{
    let total: usize = villain_combos.len();
    let top: usize = top_count(total, top_fraction);
    let mask: u64 = board_mask(board);
    let mut reports: Vec<RiverBlockerReport> = Vec::new();
    for i in 0..hero_combos.len()
        invariant
            total == villain_combos@.len(),
            top == top_count_spec(villain_combos@.len(), top_fraction),
            top <= total,
            mask == mask_of(board@),
            reports@ == reports_spec(
                board@,
                hero_combos@,
                villain_combos@,
                top_fraction,
                i as nat,
            ),
    {
        let hero: RiverCombo = hero_combos[i];
        if hero.mask & mask == 0 {
            reports.push(
                RiverBlockerReport {
                    hero,
                    blocked_villain_combos: count_blocked(hero.mask, villain_combos, total),
                    blocked_top_combos: count_blocked(hero.mask, villain_combos, top),
                    total_villain_combos: total,
                    top_villain_combos: top,
                },
            );
        }
    }
    reports
}

/// The deals of one hand with each of the first `m` others that share no card with it.
pub open spec fn deal_row(hands: Seq<RiverCombo>, oop: int, m: nat) -> Seq<(usize, usize)>
    decreases m,
{
    if m == 0 {
        Seq::empty()
    } else {
        let front = deal_row(hands, oop, (m - 1) as nat);
        if oop == m - 1 || hands[oop].mask & hands[m - 1].mask != 0 {
            front
        } else {
            front.push((oop as usize, (m - 1) as usize))
        }
    }
}

/// The deals of each of the first `n` hands with each other that shares no card with it.
pub open spec fn deal_rows(hands: Seq<RiverCombo>, n: nat) -> Seq<(usize, usize)>
    decreases n,
{
    if n == 0 {
        Seq::empty()
    } else {
        deal_rows(hands, (n - 1) as nat) + deal_row(hands, n - 1, hands.len())
    }
}

/// The deals of two hands that share no card.
pub fn river_deals(combos: &[RiverCombo]) -> (r: Vec<(usize, usize)>)
    ensures
        r@ == deal_rows(combos@, combos@.len()),
        forall|k: int|
            0 <= k < r@.len() ==> {
                let deal = #[trigger] r@[k];
                &&& deal.0 < combos@.len()
                &&& deal.1 < combos@.len()
                &&& deal.0 != deal.1
                &&& combos@[deal.0 as int].mask & combos@[deal.1 as int].mask == 0
            },
{
    let mut deals: Vec<(usize, usize)> = Vec::new();
    for i in 0..combos.len()
        invariant
            deals@ == deal_rows(combos@, i as nat),
            forall|k: int|
                0 <= k < deals@.len() ==> {
                    let deal = #[trigger] deals@[k];
                    &&& deal.0 < combos@.len()
                    &&& deal.1 < combos@.len()
                    &&& deal.0 != deal.1
                    &&& combos@[deal.0 as int].mask & combos@[deal.1 as int].mask == 0
                },
    {
        let ghost front = deals@;
        proof {
            assert(front + deal_row(combos@, i as int, 0) =~= front);
        }
        for j in 0..combos.len()
            invariant
                i < combos@.len(),
                deals@ =~= front + deal_row(combos@, i as int, j as nat),
                forall|k: int|
                    0 <= k < deals@.len() ==> {
                        let deal = #[trigger] deals@[k];
                        &&& deal.0 < combos@.len()
                        &&& deal.1 < combos@.len()
                        &&& deal.0 != deal.1
                        &&& combos@[deal.0 as int].mask & combos@[deal.1 as int].mask == 0
                    },
        {
            if !(i == j || combos[i].mask & combos[j].mask != 0) {
                deals.push((i, j));
            }
        }
    }
    deals
}

/// The start of the numbers that deals are drawn by.
pub const SAMPLE_START: u64 = 0x9e37_79b9_7f4a_7c15;

/// A number scattered over all numbers.
pub open spec fn scattered(value: u64) -> u64 {
    let first = (value ^ (value >> 30u64)).wrapping_mul(0xbf58_476d_1ce4_e5b9);
    let second = (first ^ (first >> 27u64)).wrapping_mul(0x94d0_49bb_1331_11eb);
    second ^ (second >> 31u64)
}

/// A number scattered over all numbers.
pub fn scatter(value: u64) -> (r: u64)
    ensures
        r == scattered(value),
{
    let first: u64 = (value ^ (value >> 30u64)).wrapping_mul(0xbf58_476d_1ce4_e5b9);
    let second: u64 = (first ^ (first >> 27u64)).wrapping_mul(0x94d0_49bb_1331_11eb);
    second ^ (second >> 31u64)
}

/// The place that is drawn in an iteration.
pub open spec fn sampled(iteration: int, len: int) -> int {
    (scattered((iteration + SAMPLE_START) as u64) as usize) as int % len
}

/// The place that is drawn in an iteration.
pub fn sampled_index(iteration: usize, len: usize) -> (r: usize)
    requires
        len > 0,
        iteration + SAMPLE_START <= u64::MAX,
    ensures
        r == sampled(iteration as int, len as int),
        r < len,
{
    let value: u64 = scatter(iteration as u64 + SAMPLE_START);
    (value as usize) % len
}

/// The place of a role in reports.
pub open spec fn role_place(role: RiverRole) -> u8 {
    match role {
        RiverRole::Ip => 0,
        RiverRole::Oop => 1,
    }
}

/// The place of a role in reports.
pub fn role_key(role: RiverRole) -> (r: u8)
    ensures
        r == role_place(role),
{
    match role {
        RiverRole::Ip => 0,
        RiverRole::Oop => 1,
    }
}

/// The place of a decision in reports.
pub open spec fn node_place(node: RiverNode) -> u8 {
    match node {
        RiverNode::AfterCheck => 0,
        RiverNode::FacingBet => 1,
    }
}

/// The place of a decision in reports.
pub fn node_key(node: RiverNode) -> (r: u8)
    ensures
        r == node_place(node),
{
    match node {
        RiverNode::AfterCheck => 0,
        RiverNode::FacingBet => 1,
    }
}

} // verus!
