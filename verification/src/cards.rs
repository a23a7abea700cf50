//! Playing cards and boards.
use vstd::prelude::*;
use vstd::string::*;
use std::str::FromStr;

verus! {

/// The rank of a card, from deuce to ace.
#[derive(Clone, Copy, Debug, PartialEq, Eq, PartialOrd, Ord, Hash, Structural)]
pub enum Rank {
    Two,
    Three,
    Four,
    Five,
    Six,
    Seven,
    Eight,
    Nine,
    Ten,
    Jack,
    Queen,
    King,
    Ace,
}

/// The suit of a card.
#[derive(Clone, Copy, Debug, PartialEq, Eq, PartialOrd, Ord, Hash, Structural)]
pub enum Suit {
    Clubs,
    Diamonds,
    Hearts,
    Spades,
}

/// A card of the fifty-two card deck.
#[derive(Clone, Copy, Debug, PartialEq, Eq, PartialOrd, Ord, Hash, Structural)]
pub struct Card {
    pub rank: Rank,
    pub suit: Suit,
}

/// How many cards the deck holds.
pub const DECK_SIZE: usize = 52;

impl Rank {
    /// The position of the rank, deuce first.
    pub open spec fn ord(self) -> nat {
        match self {
            Rank::Two => 0,
            Rank::Three => 1,
            Rank::Four => 2,
            Rank::Five => 3,
            Rank::Six => 4,
            Rank::Seven => 5,
            Rank::Eight => 6,
            Rank::Nine => 7,
            Rank::Ten => 8,
            Rank::Jack => 9,
            Rank::Queen => 10,
            Rank::King => 11,
            Rank::Ace => 12,
        }
    }

    /// The rank at a position.
    pub open spec fn at(position: int) -> Rank {
        if position <= 0 {
            Rank::Two
        } else if position == 1 {
            Rank::Three
        } else if position == 2 {
            Rank::Four
        } else if position == 3 {
            Rank::Five
        } else if position == 4 {
            Rank::Six
        } else if position == 5 {
            Rank::Seven
        } else if position == 6 {
            Rank::Eight
        } else if position == 7 {
            Rank::Nine
        } else if position == 8 {
            Rank::Ten
        } else if position == 9 {
            Rank::Jack
        } else if position == 10 {
            Rank::Queen
        } else if position == 11 {
            Rank::King
        } else {
            Rank::Ace
        }
    }

    /// The position of the rank, deuce first.
    pub fn index(self) -> (r: usize)
        ensures
            r == self.ord(),
            r < 13,
            Rank::at(r as int) == self,
    {
        match self {
            Rank::Two => 0,
            Rank::Three => 1,
            Rank::Four => 2,
            Rank::Five => 3,
            Rank::Six => 4,
            Rank::Seven => 5,
            Rank::Eight => 6,
            Rank::Nine => 7,
            Rank::Ten => 8,
            Rank::Jack => 9,
            Rank::Queen => 10,
            Rank::King => 11,
            Rank::Ace => 12,
        }
    }

    /// The rank at a position.
    pub fn from_index(index: usize) -> (r: Rank)
        requires
            index < 13,
        ensures
            r.ord() == index,
            r == Rank::at(index as int),
    {
        if index == 0 {
            Rank::Two
        } else if index == 1 {
            Rank::Three
        } else if index == 2 {
            Rank::Four
        } else if index == 3 {
            Rank::Five
        } else if index == 4 {
            Rank::Six
        } else if index == 5 {
            Rank::Seven
        } else if index == 6 {
            Rank::Eight
        } else if index == 7 {
            Rank::Nine
        } else if index == 8 {
            Rank::Ten
        } else if index == 9 {
            Rank::Jack
        } else if index == 10 {
            Rank::Queen
        } else if index == 11 {
            Rank::King
        } else {
            Rank::Ace
        }
    }

    /// All ranks in ascending order.
    pub fn all() -> (r: [Rank; 13])
        ensures
            forall|i: int| 0 <= i < 13 ==> #[trigger] r@[i] == Rank::at(i),
    {
        [
            Rank::Two,
            Rank::Three,
            Rank::Four,
            Rank::Five,
            Rank::Six,
            Rank::Seven,
            Rank::Eight,
            Rank::Nine,
            Rank::Ten,
            Rank::Jack,
            Rank::Queen,
            Rank::King,
            Rank::Ace,
        ]
    }

    /// The letter a rank is written with.
    pub open spec fn letter_spec(self) -> char {
        match self {
            Rank::Two => '2',
            Rank::Three => '3',
            Rank::Four => '4',
            Rank::Five => '5',
            Rank::Six => '6',
            Rank::Seven => '7',
            Rank::Eight => '8',
            Rank::Nine => '9',
            Rank::Ten => 'T',
            Rank::Jack => 'J',
            Rank::Queen => 'Q',
            Rank::King => 'K',
            Rank::Ace => 'A',
        }
    }

    /// The letter a rank is written with.
    pub fn letter(self) -> (r: &'static str)
        ensures
            r@ == seq![self.letter_spec()],
    {
        proof {
            reveal_strlit("2");
            reveal_strlit("3");
            reveal_strlit("4");
            reveal_strlit("5");
            reveal_strlit("6");
            reveal_strlit("7");
            reveal_strlit("8");
            reveal_strlit("9");
            reveal_strlit("T");
            reveal_strlit("J");
            reveal_strlit("Q");
            reveal_strlit("K");
            reveal_strlit("A");
        }
        let r: &'static str = match self {
            Rank::Two => "2",
            Rank::Three => "3",
            Rank::Four => "4",
            Rank::Five => "5",
            Rank::Six => "6",
            Rank::Seven => "7",
            Rank::Eight => "8",
            Rank::Nine => "9",
            Rank::Ten => "T",
            Rank::Jack => "J",
            Rank::Queen => "Q",
            Rank::King => "K",
            Rank::Ace => "A",
        };
        proof {
            assert(r@ =~= seq![self.letter_spec()]);
        }
        r
    }

    /// The rank a letter, of either case, stands for.
    pub open spec fn of_letter(letter: char) -> Option<Rank> {
        if letter == '2' {
            Some(Rank::Two)
        } else if letter == '3' {
            Some(Rank::Three)
        } else if letter == '4' {
            Some(Rank::Four)
        } else if letter == '5' {
            Some(Rank::Five)
        } else if letter == '6' {
            Some(Rank::Six)
        } else if letter == '7' {
            Some(Rank::Seven)
        } else if letter == '8' {
            Some(Rank::Eight)
        } else if letter == '9' {
            Some(Rank::Nine)
        } else if letter == 'T' || letter == 't' {
            Some(Rank::Ten)
        } else if letter == 'J' || letter == 'j' {
            Some(Rank::Jack)
        } else if letter == 'Q' || letter == 'q' {
            Some(Rank::Queen)
        } else if letter == 'K' || letter == 'k' {
            Some(Rank::King)
        } else if letter == 'A' || letter == 'a' {
            Some(Rank::Ace)
        } else {
            None
        }
    }

    /// The rank a letter, of either case, stands for.
    pub fn from_letter(letter: char) -> (r: Option<Rank>)
        ensures
            r == Rank::of_letter(letter),
    {
        if letter == '2' {
            Some(Rank::Two)
        } else if letter == '3' {
            Some(Rank::Three)
        } else if letter == '4' {
            Some(Rank::Four)
        } else if letter == '5' {
            Some(Rank::Five)
        } else if letter == '6' {
            Some(Rank::Six)
        } else if letter == '7' {
            Some(Rank::Seven)
        } else if letter == '8' {
            Some(Rank::Eight)
        } else if letter == '9' {
            Some(Rank::Nine)
        } else if letter == 'T' || letter == 't' {
            Some(Rank::Ten)
        } else if letter == 'J' || letter == 'j' {
            Some(Rank::Jack)
        } else if letter == 'Q' || letter == 'q' {
            Some(Rank::Queen)
        } else if letter == 'K' || letter == 'k' {
            Some(Rank::King)
        } else if letter == 'A' || letter == 'a' {
            Some(Rank::Ace)
        } else {
            None
        }
    }
}

impl Suit {
    /// The position of the suit, clubs first.
    pub open spec fn ord(self) -> nat {
        match self {
            Suit::Clubs => 0,
            Suit::Diamonds => 1,
            Suit::Hearts => 2,
            Suit::Spades => 3,
        }
    }

    /// The suit at a position.
    pub open spec fn at(position: int) -> Suit {
        if position <= 0 {
            Suit::Clubs
        } else if position == 1 {
            Suit::Diamonds
        } else if position == 2 {
            Suit::Hearts
        } else {
            Suit::Spades
        }
    }

    /// The position of the suit, clubs first.
    pub fn index(self) -> (r: usize)
        ensures
            r == self.ord(),
            r < 4,
            Suit::at(r as int) == self,
    {
        match self {
            Suit::Clubs => 0,
            Suit::Diamonds => 1,
            Suit::Hearts => 2,
            Suit::Spades => 3,
        }
    }

    /// The suit at a position.
    pub fn from_index(index: usize) -> (r: Suit)
        requires
            index < 4,
        ensures
            r.ord() == index,
            r == Suit::at(index as int),
    {
        if index == 0 {
            Suit::Clubs
        } else if index == 1 {
            Suit::Diamonds
        } else if index == 2 {
            Suit::Hearts
        } else {
            Suit::Spades
        }
    }

    /// All suits, clubs first.
    pub fn all() -> (r: [Suit; 4])
        ensures
            forall|i: int| 0 <= i < 4 ==> #[trigger] r@[i] == Suit::at(i),
    {
        [Suit::Clubs, Suit::Diamonds, Suit::Hearts, Suit::Spades]
    }

    /// The letter a suit is written with.
    pub open spec fn letter_spec(self) -> char {
        match self {
            Suit::Clubs => 'c',
            Suit::Diamonds => 'd',
            Suit::Hearts => 'h',
            Suit::Spades => 's',
        }
    }

    /// The letter a suit is written with.
    pub fn letter(self) -> (r: &'static str)
        ensures
            r@ == seq![self.letter_spec()],
    {
        proof {
            reveal_strlit("c");
            reveal_strlit("d");
            reveal_strlit("h");
            reveal_strlit("s");
        }
        let r: &'static str = match self {
            Suit::Clubs => "c",
            Suit::Diamonds => "d",
            Suit::Hearts => "h",
            Suit::Spades => "s",
        };
        proof {
            assert(r@ =~= seq![self.letter_spec()]);
        }
        r
    }

    /// The suit a letter, of either case, stands for.
    pub open spec fn of_letter(letter: char) -> Option<Suit> {
        if letter == 'c' || letter == 'C' {
            Some(Suit::Clubs)
        } else if letter == 'd' || letter == 'D' {
            Some(Suit::Diamonds)
        } else if letter == 'h' || letter == 'H' {
            Some(Suit::Hearts)
        } else if letter == 's' || letter == 'S' {
            Some(Suit::Spades)
        } else {
            None
        }
    }

    /// The suit a letter, of either case, stands for.
    pub fn from_letter(letter: char) -> (r: Option<Suit>)
        ensures
            r == Suit::of_letter(letter),
    {
        if letter == 'c' || letter == 'C' {
            Some(Suit::Clubs)
        } else if letter == 'd' || letter == 'D' {
            Some(Suit::Diamonds)
        } else if letter == 'h' || letter == 'H' {
            Some(Suit::Hearts)
        } else if letter == 's' || letter == 'S' {
            Some(Suit::Spades)
        } else {
            None
        }
    }
}

impl Card {
    /// The position of the card in the deck, ranks before suits.
    pub open spec fn id(self) -> int {
        (self.rank.ord() * 4 + self.suit.ord()) as int
    }

    /// The card at a position of the deck.
    pub open spec fn at(position: int) -> Card {
        Card { rank: Rank::at(position / 4), suit: Suit::at(position % 4) }
    }

    /// The mask with the bit of this card alone.
    pub open spec fn bit(self) -> u64 {
        1u64 << (self.id() as u64)
    }

    pub fn new(rank: Rank, suit: Suit) -> (r: Card)
        ensures
            r == (Card { rank, suit }),
    {
        Card { rank, suit }
    }

    /// The position of the card in the deck, ranks before suits.
    pub fn index(self) -> (r: usize)
        ensures
            r == self.id(),
            r < 52,
    {
        self.rank.index() * 4 + self.suit.index()
    }

    /// The card at a position of the deck.
    pub fn from_index(index: u8) -> (r: Card)
        requires
            index < 52,
        ensures
            r.id() == index,
            r == Card::at(index as int),
    {
        Card { rank: Rank::from_index((index / 4) as usize), suit: Suit::from_index((index % 4) as usize) }
    }

    /// The mask with the bit of this card alone.
    pub fn deck_mask(self) -> (r: u64)
        ensures
            r == self.bit(),
    {
        let index: usize = self.index();
        1u64 << (index as u64)
    }

    /// The deck in ascending order.
    pub fn deck() -> (r: Vec<Card>)
        ensures
            r@ == deck_spec(),
    {
        let mut cards: Vec<Card> = Vec::new();
        for i in 0..52
            invariant
                cards@ =~= Seq::new(i as nat, |j: int| Card::at(j)),
        {
            cards.push(Card::from_index(i as u8));
        }
        cards
    }

    /// The card that a two-letter text names.
    pub open spec fn of_text(text: Seq<char>) -> Option<Card> {
        if text.len() == 2 {
            match (Rank::of_letter(text[0]), Suit::of_letter(text[1])) {
                (Some(rank), Some(suit)) => Some(Card { rank, suit }),
                _ => None,
            }
        } else {
            None
        }
    }

    /// The card that two letters name.
    pub fn from_letters(first: char, second: char) -> (r: Option<Card>)
        ensures
            r == Card::of_text(seq![first, second]),
    {
        match (Rank::from_letter(first), Suit::from_letter(second)) {
            (Some(rank), Some(suit)) => Some(Card { rank, suit }),
            _ => None,
        }
    }

    /// Reads a card from a two-letter text such as `As`.
    pub fn parse(text: &str) -> (r: Result<Card, String>)
        ensures
            match r {
                Ok(card) => Card::of_text(text@) == Some(card),
                Err(message) => Card::of_text(text@) is None && message@ == "invalid card"@,
            },
    {
        if text.unicode_len() == 2 {
            let first: char = text.get_char(0);
            let second: char = text.get_char(1);
            proof {
                assert(text@ =~= seq![first, second]);
            }
            if let Some(card) = Card::from_letters(first, second) {
                return Ok(card);
            }
        }
        Err("invalid card".to_owned())
    }

    /// The two letters a card is written with.
    pub open spec fn text_spec(self) -> Seq<char> {
        seq![self.rank.letter_spec(), self.suit.letter_spec()]
    }

    /// The two letters a card is written with.
    pub fn text(self) -> (r: String)
        ensures
            r@ == self.text_spec(),
    {
        let r: String = self.rank.letter().to_owned().concat(self.suit.letter());
        proof {
            assert(r@ =~= self.text_spec());
        }
        r
    }
}

impl FromStr for Card {
    type Err = String;

    fn from_str(value: &str) -> Result<Self, String> {
        Card::parse(value)
    }
}

/// The deck in ascending order.
pub open spec fn deck_spec() -> Seq<Card> {
    Seq::new(52, |i: int| Card::at(i))
}

/// Positions and cards of the deck stand for each other.
pub proof fn card_position_round_trip(card: Card, position: int)
    ensures
        0 <= card.id() < 52,
        Card::at(card.id()) == card,
        0 <= position < 52 ==> Card::at(position).id() == position,
{
    assert((card.rank.ord() * 4 + card.suit.ord()) / 4 == card.rank.ord());
    assert((card.rank.ord() * 4 + card.suit.ord()) % 4 == card.suit.ord());
}

/// Distinct cards have distinct positions.
pub broadcast proof fn card_ids_differ(a: Card, b: Card)
    ensures
        (#[trigger] a.id() == #[trigger] b.id()) == (a == b),
{
    card_position_round_trip(a, 0);
    card_position_round_trip(b, 0);
}

/// Two cards share a mask bit exactly if they are one card.
pub proof fn card_bits_overlap(a: Card, b: Card)
    ensures
        (a.bit() & b.bit() != 0) == (a == b),
        a.bit() != 0,
        a.bit() == b.bit() <==> a == b,
{
    card_ids_differ(a, b);
    card_position_round_trip(a, 0);
    card_position_round_trip(b, 0);
    let i: u64 = a.id() as u64;
    let j: u64 = b.id() as u64;
    assert(((1u64 << i) & (1u64 << j) != 0) == (i == j) && (1u64 << i) != 0 && (1u64 << i == 1u64
        << j) == (i == j)) by (bit_vector)
        requires
            i < 52,
            j < 52,
    ;
}

/// Up to five community cards, all different.
#[derive(Clone, Copy, Debug, PartialEq, Eq)]
pub struct Board {
    slots: [Card; 5],
    count: usize,
}

/// Whether no card occurs twice.
pub open spec fn all_different(cards: Seq<Card>) -> bool {
    forall|i: int, j: int| 0 <= i < j < cards.len() ==> #[trigger] cards[i] != #[trigger] cards[j]
}

/// The mask with the bits of all the given cards.
pub open spec fn mask_of(cards: Seq<Card>) -> u64
    decreases cards.len(),
{
    if cards.len() == 0 {
        0
    } else {
        mask_of(cards.drop_last()) | cards.last().bit()
    }
}

/// A mask of cards has the bit of a card exactly if the card is among them.
pub proof fn mask_of_contains(cards: Seq<Card>, card: Card)
    ensures
        (mask_of(cards) & card.bit() != 0) == cards.contains(card),
    decreases cards.len(),
{
    if cards.len() == 0 {
        let b = card.bit();
        assert(0u64 & b == 0) by (bit_vector);
    } else {
        let front = cards.drop_last();
        mask_of_contains(front, card);
        card_bits_overlap(cards.last(), card);
        let m = mask_of(front);
        let l = cards.last().bit();
        let b = card.bit();
        assert(((m | l) & b != 0) == ((m & b != 0) || (l & b != 0))) by (bit_vector);
        if front.contains(card) {
            let i = choose|i: int| 0 <= i < front.len() && front[i] == card;
            assert(cards[i] == card);
        }
        if cards.contains(card) && cards.last() != card {
            let i = choose|i: int| 0 <= i < cards.len() && cards[i] == card;
            assert(front[i] == card);
        }
        if cards.last() == card {
            assert(cards[cards.len() - 1] == card);
        }
    }
}

/// A mask shares no bit with two masks together exactly if it shares none with either.
pub proof fn masks_together(a: u64, b: u64, mask: u64)
    ensures
        ((a | b) & mask == 0) == (mask & a == 0 && mask & b == 0),
        mask & a == a & mask,
{
    assert(((a | b) & mask == 0) == (mask & a == 0 && mask & b == 0) && mask & a == a & mask)
        by (bit_vector);
}

/// The cards of the deck that are not among the given ones, in ascending order.
pub open spec fn deck_without(cards: Seq<Card>) -> Seq<Card> {
    deck_spec().filter(|card: Card| !cards.contains(card))
}

impl View for Board {
    type V = Seq<Card>;

    closed spec fn view(&self) -> Seq<Card> {
        self.slots@.take(self.count as int)
    }
}

impl Board {
    /// At most five cards, no card twice.
    pub closed spec fn wf(self) -> bool {
        self.count <= 5 && all_different(self@)
    }

    pub proof fn wf_facts(self)
        requires
            self.wf(),
        ensures
            self@.len() <= 5,
            all_different(self@),
    {
    }

    /// A board of the given cards.
    pub fn new(cards: Vec<Card>) -> (r: Board)
        requires
            cards@.len() <= 5,
            all_different(cards@),
        ensures
            r.wf(),
            r@ == cards@,
    {
        let filler: Card = Card { rank: Rank::Two, suit: Suit::Clubs };
        let mut slots: [Card; 5] = [filler; 5];
        for i in 0..cards.len()
            invariant
                cards@.len() <= 5,
                forall|j: int| 0 <= j < i ==> #[trigger] slots@[j] == cards@[j],
        {
            slots[i] = cards[i];
        }
        let r = Board { slots, count: cards.len() };
        proof {
            assert(r@ =~= cards@);
        }
        r
    }

    /// The cards, in the order they were dealt.
    pub fn cards(&self) -> (r: &[Card])
        requires
            self.wf(),
        ensures
            r@ == self@,
    {
        let r: &[Card] = vstd::slice::slice_subrange(self.slots.as_slice(), 0, self.count);
        proof {
            assert(r@ =~= self@);
        }
        r
    }

    /// How many cards the board holds.
    pub fn len(&self) -> (r: usize)
        requires
            self.wf(),
        ensures
            r == self@.len(),
            r <= 5,
    {
        self.count
    }

    /// The card dealt at a position.
    pub fn card(&self, index: usize) -> (r: Card)
        requires
            self.wf(),
            index < self@.len(),
        ensures
            r == self@[index as int],
    {
        self.slots[index]
    }

    /// Whether a card lies on the board.
    pub fn contains(&self, card: Card) -> (r: bool)
        requires
            self.wf(),
        ensures
            r == self@.contains(card),
    {
        for i in 0..self.count
            invariant
                self.wf(),
                forall|j: int| 0 <= j < i ==> self@[j] != card,
        {
            if self.slots[i] == card {
                proof {
                    assert(self@[i as int] == card);
                }
                return true;
            }
        }
        false
    }

    /// The mask of the board's cards.
    pub fn deck_mask(&self) -> (r: u64)
        requires
            self.wf(),
        ensures
            r == mask_of(self@),
    {
        let mut mask: u64 = 0;
        for i in 0..self.count
            invariant
                self.wf(),
                mask == mask_of(self@.take(i as int)),
        {
            proof {
                assert(self@.take(i + 1).drop_last() =~= self@.take(i as int));
            }
            mask = mask | self.slots[i].deck_mask();
        }
        proof {
            assert(self@.take(self.count as int) =~= self@);
        }
        mask
    }

    /// The board with one more card.
    pub closed spec fn with_card_spec(self, card: Card) -> Board {
        Board {
            slots: vstd::array::spec_array_update(self.slots, self.count as int, card),
            count: (self.count + 1) as usize,
        }
    }

    /// A board with room takes a card that it does not hold.
    pub proof fn card_can_be_added(self, card: Card)
        requires
            self.wf(),
            self@.len() < 5,
            !self@.contains(card),
        ensures
            self.with_card_spec(card).wf(),
            self.with_card_spec(card)@ == self@.push(card),
    {
        let next = self.with_card_spec(card);
        assert(next.slots@ =~= self.slots@.update(self.count as int, card));
        assert(next@ =~= self@.push(card));
    }

    /// The board with one more card.
    pub fn with_card(&self, card: Card) -> (r: Board)
        requires
            self.wf(),
            self@.len() < 5,
            !self@.contains(card),
        ensures
            r.wf(),
            r@ == self@.push(card),
            r == self.with_card_spec(card),
    {
        let mut slots: [Card; 5] = self.slots;
        slots[self.count] = card;
        let r = Board { slots, count: self.count + 1 };
        proof {
            assert(r@ =~= self@.push(card));
            assert(r.slots@ =~= self.slots@.update(self.count as int, card));
            let next = self.with_card_spec(card);
            assert(next.slots@ == r.slots@);
            assert(next.slots =~= r.slots);
        }
        r
    }

    /// The board with one more card; an error if the card lies there already or the board is full.
    pub fn push(&self, card: Card) -> (r: Result<Board, String>)
        requires
            self.wf(),
        ensures
            match r {
                Ok(board) => board.wf() && board@ == self@.push(card) && self@.len() < 5
                    && !self@.contains(card),
                Err(message) => if self@.contains(card) {
                    message@ == "board already holds this card"@
                } else {
                    self@.len() == 5 && message@ == "board is full"@
                },
            },
    {
        if self.contains(card) {
            return Err("board already holds this card".to_owned());
        }
        if self.count == 5 {
            return Err("board is full".to_owned());
        }
        Ok(self.with_card(card))
    }

    /// The cards of the deck that are not on the board, in ascending order.
    pub fn remaining_deck(&self) -> (r: Vec<Card>)
        requires
            self.wf(),
        ensures
            r@ == deck_without(self@),
    {
        let mut cards: Vec<Card> = Vec::new();
        let ghost keep = |card: Card| !self@.contains(card);
        for i in 0..52
            invariant
                self.wf(),
                keep == (|card: Card| !self@.contains(card)),
                cards@ == deck_spec().take(i as int).filter(keep),
        {
            let card: Card = Card::from_index(i as u8);
            proof {
                assert(deck_spec().take(i + 1).drop_last() =~= deck_spec().take(i as int));
                reveal(Seq::filter);
            }
            if !self.contains(card) {
                cards.push(card);
            }
        }
        proof {
            assert(deck_spec().take(52) =~= deck_spec());
        }
        cards
    }

    /// The cards that a text of two letters per card names, if it names cards throughout.
    pub open spec fn cards_of_text(text: Seq<char>) -> Option<Seq<Card>>
        decreases text.len(),
    {
        if text.len() == 0 {
            Some(Seq::empty())
        } else if text.len() == 1 {
            None
        } else {
            let n = text.len() as int;
            match (Board::cards_of_text(text.take(n - 2)), Card::of_text(text.subrange(n - 2, n))) {
                (Some(front), Some(card)) => Some(front.push(card)),
                _ => None,
            }
        }
    }

    /// Reads a board such as `As7h2c`: two letters per card, no card twice, at most five cards.
    pub fn parse(text: &str) -> (r: Result<Board, String>)
        ensures
            match r {
                Ok(board) => board.wf() && Board::cards_of_text(text@) == Some(board@),
                Err(_) => match Board::cards_of_text(text@) {
                    Some(cards) => cards.len() > 5 || !all_different(cards),
                    None => true,
                },
            },
    {
        let len: usize = text.unicode_len();
        if len % 2 != 0 {
            proof {
                lemma_odd_text(text@);
            }
            return Err("invalid board".to_owned());
        }
        let mut board: Board = Board::new(Vec::new());
        let mut i: usize = 0;
        proof {
            assert(text@.take(0) =~= Seq::<char>::empty());
            assert(board@ =~= Seq::<Card>::empty());
        }
        while i < len
            invariant
                len == text@.len(),
                len % 2 == 0,
                i % 2 == 0,
                i <= len,
                board.wf(),
                Board::cards_of_text(text@.take(i as int)) == Some(board@),
            decreases len - i,
        {
            let first: char = text.get_char(i);
            let second: char = text.get_char(i + 1);
            proof {
                let t = text@.take(i + 2);
                assert(t.take(i as int) =~= text@.take(i as int));
                assert(t.subrange(i as int, i + 2) =~= seq![first, second]);
            }
            match Card::from_letters(first, second) {
                Some(card) => {
                    match board.push(card) {
                        Ok(next) => {
                            board = next;
                        },
                        Err(message) => {
                            proof {
                                board.wf_facts();
                                let bad = board@.push(card);
                                if board@.contains(card) {
                                    let j = choose|j: int| 0 <= j < board@.len() && board@[j] == card;
                                    assert(bad[j] == bad[bad.len() - 1]);
                                    assert(!all_different(bad));
                                }
                                lemma_bad_prefix(text@, i + 2);
                            }
                            return Err(message);
                        },
                    }
                },
                None => {
                    proof {
                        lemma_bad_prefix(text@, i + 2);
                    }
                    return Err("invalid card".to_owned());
                },
            }
            i = i + 2;
        }
        proof {
            assert(text@.take(len as int) =~= text@);
        }
        Ok(board)
    }
}

proof fn lemma_odd_text(text: Seq<char>)
    requires
        text.len() % 2 == 1,
    ensures
        Board::cards_of_text(text) is None,
    decreases text.len(),
{
    if text.len() > 1 {
        lemma_odd_text(text.take(text.len() - 2));
    }
}

/// A text with an unreadable, repeating or overlong beginning is no board.
proof fn lemma_bad_prefix(text: Seq<char>, n: int)
    requires
        0 <= n <= text.len(),
        text.len() % 2 == 0,
        n % 2 == 0,
        match Board::cards_of_text(text.take(n)) {
            Some(cards) => cards.len() > 5 || !all_different(cards),
            None => true,
        },
    ensures
        match Board::cards_of_text(text) {
            Some(cards) => cards.len() > 5 || !all_different(cards),
            None => true,
        },
    decreases text.len() - n,
{
    if n == text.len() {
        assert(text.take(n) =~= text);
    } else {
        let t = text.take(n + 2);
        assert(t.take(n) =~= text.take(n));
        match Board::cards_of_text(t) {
            Some(cards) => {
                let front = Board::cards_of_text(text.take(n)).unwrap();
                assert(cards.drop_last() =~= front);
                if !all_different(front) {
                    let (i, j) = choose|i: int, j: int|
                        0 <= i < j < front.len() && #[trigger] front[i] == #[trigger] front[j];
                    assert(cards[i] == cards[j]);
                }
            },
            None => {},
        }
        lemma_bad_prefix(text, n + 2);
    }
}

impl FromStr for Board {
    type Err = String;

    fn from_str(value: &str) -> Result<Self, String> {
        Board::parse(value)
    }
}

} // verus!
