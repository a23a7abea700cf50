//! Suit symmetries of boards and ranges.
//!
//! A permutation of the suits that keeps the board and both ranges maps every way the hand can go on to
//! one of the same worth. Cards to come that such permutations map to each other form a class; it is
//! enough to play out one of them.
use vstd::prelude::*;
use crate::cards::{
    all_different, card_ids_differ, card_position_round_trip, deck_without, Board, Card, Suit,
};
use crate::deals::deck_without_facts;
use crate::range::{ComboWeight, RangeSpec};
use crate::scalar::Scalar;

verus! {

/// A permutation of the suits, by what it makes of each.
#[derive(Clone, Copy, Debug, PartialEq, Eq, Structural)]
pub struct SuitPermutation {
    pub clubs: Suit,
    pub diamonds: Suit,
    pub hearts: Suit,
    pub spades: Suit,
}

impl SuitPermutation {
    /// No two suits become one.
    pub open spec fn wf(self) -> bool {
        &&& self.clubs != self.diamonds
        &&& self.clubs != self.hearts
        &&& self.clubs != self.spades
        &&& self.diamonds != self.hearts
        &&& self.diamonds != self.spades
        &&& self.hearts != self.spades
    }

    /// What a suit becomes.
    pub open spec fn suit_image(self, suit: Suit) -> Suit {
        match suit {
            Suit::Clubs => self.clubs,
            Suit::Diamonds => self.diamonds,
            Suit::Hearts => self.hearts,
            Suit::Spades => self.spades,
        }
    }

    /// What a card becomes.
    pub open spec fn image(self, card: Card) -> Card {
        Card { rank: card.rank, suit: self.suit_image(card.suit) }
    }

    /// The permutation at a place among all maps of the suits.
    pub open spec fn at(place: int) -> SuitPermutation {
        SuitPermutation {
            clubs: Suit::at(place / 64),
            diamonds: Suit::at((place / 16) % 4),
            hearts: Suit::at((place / 4) % 4),
            spades: Suit::at(place % 4),
        }
    }

    /// The place of the permutation among all maps of the suits.
    pub open spec fn code_spec(self) -> nat {
        self.clubs.ord() * 64 + self.diamonds.ord() * 16 + self.hearts.ord() * 4 + self.spades.ord()
    }

    /// The permutation that changes nothing.
    pub fn identity() -> (r: Self)
        ensures
            r == Self::identity_spec(),
            r.wf(),
            r.code_spec() == 27,
    {
        SuitPermutation {
            clubs: Suit::Clubs,
            diamonds: Suit::Diamonds,
            hearts: Suit::Hearts,
            spades: Suit::Spades,
        }
    }

    /// The permutation that changes nothing.
    pub open spec fn identity_spec() -> Self {
        SuitPermutation {
            clubs: Suit::Clubs,
            diamonds: Suit::Diamonds,
            hearts: Suit::Hearts,
            spades: Suit::Spades,
        }
    }

    /// A number that tells permutations apart.
    pub fn code(self) -> (r: u8)
        ensures
            r == self.code_spec(),
    {
        (self.clubs.index() * 64 + self.diamonds.index() * 16 + self.hearts.index() * 4
            + self.spades.index()) as u8
    }

    /// What a card becomes.
    pub fn apply(self, card: Card) -> (r: Card)
        ensures
            r == self.image(card),
    {
        let suit: Suit = match card.suit {
            Suit::Clubs => self.clubs,
            Suit::Diamonds => self.diamonds,
            Suit::Hearts => self.hearts,
            Suit::Spades => self.spades,
        };
        Card { rank: card.rank, suit }
    }
}

/// Different permutations have different codes.
pub proof fn permutation_codes_differ(a: SuitPermutation, b: SuitPermutation)
    requires
        a.code_spec() == b.code_spec(),
    ensures
        a == b,
{
    let c = a.code_spec() as int;
    assert(Suit::at(a.clubs.ord() as int) == a.clubs && Suit::at(b.clubs.ord() as int) == b.clubs);
    assert(Suit::at(a.diamonds.ord() as int) == a.diamonds && Suit::at(b.diamonds.ord() as int)
        == b.diamonds);
    assert(Suit::at(a.hearts.ord() as int) == a.hearts && Suit::at(b.hearts.ord() as int) == b.hearts);
    assert(Suit::at(a.spades.ord() as int) == a.spades && Suit::at(b.spades.ord() as int) == b.spades);
}

/// A permutation maps different cards to different cards.
pub proof fn permutation_is_injective(permutation: SuitPermutation, a: Card, b: Card)
    requires
        permutation.wf(),
        permutation.image(a) == permutation.image(b),
    ensures
        a == b,
{
}

/// The permutations among the first `n` maps of the suits.
pub open spec fn permutations_below(n: nat) -> Seq<SuitPermutation>
    decreases n,
{
    if n == 0 {
        Seq::empty()
    } else if SuitPermutation::at(n - 1).wf() {
        permutations_below((n - 1) as nat).push(SuitPermutation::at(n - 1))
    } else {
        permutations_below((n - 1) as nat)
    }
}

/// All permutations of the suits, in ascending order of their codes.
pub fn all_suit_permutations() -> (r: Vec<SuitPermutation>)
    ensures
        r@ == permutations_below(256),
{
    let mut list: Vec<SuitPermutation> = Vec::new();
    for k in 0..256
        invariant
            list@ == permutations_below(k as nat),
    {
        let clubs: Suit = Suit::from_index(k / 64);
        let diamonds: Suit = Suit::from_index((k / 16) % 4);
        let hearts: Suit = Suit::from_index((k / 4) % 4);
        let spades: Suit = Suit::from_index(k % 4);
        if clubs != diamonds && clubs != hearts && clubs != spades && diamonds != hearts && diamonds
            != spades && hearts != spades {
            list.push(SuitPermutation { clubs, diamonds, hearts, spades });
        }
    }
    list
}

/// The place of the first combo made of two cards; the length of the list if there is none.
pub open spec fn combo_place<S>(combos: Seq<ComboWeight<S>>, first: Card, second: Card) -> nat
    decreases combos.len(),
{
    if combos.len() == 0 {
        0
    } else {
        let front = combo_place(combos.drop_last(), first, second);
        if front < combos.len() - 1 {
            front
        } else if made_of(combos.last(), first, second) {
            (combos.len() - 1) as nat
        } else {
            combos.len()
        }
    }
}

/// Whether a combo is made of two cards, in either order.
pub open spec fn made_of<S>(combo: ComboWeight<S>, first: Card, second: Card) -> bool {
    (combo.first == first && combo.second == second) || (combo.first == second && combo.second
        == first)
}

/// Whether a permutation maps the combo at a place to a combo of the list of the same weight. The one
/// that changes nothing always does.
pub open spec fn keeps_combo<S: Scalar>(
    combos: Seq<ComboWeight<S>>,
    permutation: SuitPermutation,
    i: int,
) -> bool {
    let target = target_place(combos, permutation, i);
    permutation == SuitPermutation::identity_spec() || (target < combos.len()
        && combos[target as int].weight.same_spec(combos[i].weight))
}

/// The place of what a permutation makes of the combo at a place.
pub open spec fn target_place<S>(
    combos: Seq<ComboWeight<S>>,
    permutation: SuitPermutation,
    i: int,
) -> nat {
    if permutation == SuitPermutation::identity_spec() {
        i as nat
    } else {
        combo_place(combos, permutation.image(combos[i].first), permutation.image(combos[i].second))
    }
}

/// Whether a permutation maps every combo of a list to one of the same weight.
pub open spec fn keeps_combos<S: Scalar>(
    combos: Seq<ComboWeight<S>>,
    permutation: SuitPermutation,
) -> bool {
    forall|i: int| 0 <= i < combos.len() ==> #[trigger] keeps_combo(combos, permutation, i)
}

/// The places of combos by their cards.
struct PairTable {
    places: Vec<usize>,
}

spec fn table_slot(first: Card, second: Card) -> int {
    first.id() * 52 + second.id()
}

proof fn lemma_table_slot(a: Card, b: Card, c: Card, d: Card)
    ensures
        0 <= table_slot(a, b) < 2704,
        table_slot(a, b) == table_slot(c, d) <==> a == c && b == d,
{
    card_position_round_trip(a, 0);
    card_position_round_trip(b, 0);
    card_position_round_trip(c, 0);
    card_position_round_trip(d, 0);
    card_ids_differ(a, c);
    card_ids_differ(b, d);
}

impl PairTable {
    spec fn tells<S>(self, combos: Seq<ComboWeight<S>>, n: nat) -> bool {
        &&& self.places@.len() == 2704
        &&& forall|a: Card, b: Card|
            (#[trigger] self.places@[table_slot(a, b)]) == (if combo_place(combos.take(n as int), a, b)
                < n {
                combo_place(combos.take(n as int), a, b) as int
            } else {
                combos.len() as int
            })
    }

    fn build<S: Scalar>(combos: &[ComboWeight<S>]) -> (r: Self)
        ensures
            r.tells(combos@, combos@.len()),
    {
        let mut places: Vec<usize> = Vec::new();
        let none: usize = combos.len();
        for k in 0..2704
            invariant
                places@.len() == k,
                forall|j: int| 0 <= j < k ==> #[trigger] places@[j] == none,
        {
            places.push(none);
        }
        let mut table = PairTable { places };
        proof {
            assert forall|a: Card, b: Card| (#[trigger] table.places@[table_slot(a, b)]) == (
            if combo_place(combos@.take(0), a, b) < 0 {
                combo_place(combos@.take(0), a, b) as int
            } else {
                combos@.len() as int
            }) by {
                lemma_table_slot(a, b, a, b);
            }
        }
        for i in 0..combos.len()
            invariant
                none == combos@.len(),
                table.tells(combos@, i as nat),
        {
            let combo: ComboWeight<S> = combos[i];
            let one: usize = combo.first.index() * 52 + combo.second.index();
            let two: usize = combo.second.index() * 52 + combo.first.index();
            let ghost before = table.places@;
            proof {
                lemma_table_slot(combo.first, combo.second, combo.second, combo.first);
                lemma_table_slot(combo.second, combo.first, combo.second, combo.first);
            }
            if table.places[one] == none {
                table.places[one] = i;
            }
            if table.places[two] == none {
                table.places[two] = i;
            }
            proof {
                let was = combos@.take(i as int);
                let now = combos@.take(i + 1);
                assert(now.drop_last() =~= was);
                assert(now.last() == combo);
                assert forall|a: Card, b: Card| (#[trigger] table.places@[table_slot(a, b)]) == (
                if combo_place(now, a, b) < i + 1 {
                    combo_place(now, a, b) as int
                } else {
                    combos@.len() as int
                }) by {
                    lemma_table_slot(a, b, combo.first, combo.second);
                    lemma_table_slot(a, b, combo.second, combo.first);
                    assert(before[table_slot(a, b)] == (if combo_place(was, a, b) < i {
                        combo_place(was, a, b) as int
                    } else {
                        combos@.len() as int
                    }));
                }
            }
        }
        table
    }

    fn place<S: Scalar>(&self, first: Card, second: Card, combos: &[ComboWeight<S>]) -> (r: usize)
        requires
            self.tells(combos@, combos@.len()),
        ensures
            r == combo_place(combos@, first, second),
    {
        proof {
            lemma_table_slot(first, second, first, second);
            assert(combos@.take(combos@.len() as int) =~= combos@);
            lemma_combo_place(combos@, first, second);
        }
        let slot: usize = first.index() * 52 + second.index();
        proof {
            assert(slot == table_slot(first, second));
        }
        self.places[slot]
    }
}

pub proof fn lemma_combo_place<S>(combos: Seq<ComboWeight<S>>, first: Card, second: Card)
    ensures
        combo_place(combos, first, second) <= combos.len(),
        combo_place(combos, first, second) < combos.len() ==> made_of(
            combos[combo_place(combos, first, second) as int],
            first,
            second,
        ),
        combo_place(combos, first, second) == combos.len() ==> forall|i: int|
            0 <= i < combos.len() ==> !made_of(#[trigger] combos[i], first, second),
    decreases combos.len(),
{
    if combos.len() > 0 {
        lemma_combo_place(combos.drop_last(), first, second);
        let front = combos.drop_last();
        if combo_place(combos, first, second) == combos.len() {
            assert forall|i: int| 0 <= i < combos.len() implies !made_of(
                #[trigger] combos[i],
                first,
                second,
            ) by {
                if i < front.len() {
                    assert(combos[i] == front[i]);
                }
            }
        }
    }
}

/// Where a permutation takes each combo of a list; nothing if it takes one off the list or to another
/// weight.
pub fn private_combo_permutation_indices<S: Scalar>(
    combos: &[ComboWeight<S>],
    permutation: SuitPermutation,
) -> (r: Option<Vec<usize>>)
    ensures
        match r {
            Some(targets) => {
                &&& keeps_combos(combos@, permutation)
                &&& targets@.len() == combos@.len()
                &&& forall|i: int|
                    0 <= i < combos@.len() ==> #[trigger] targets@[i] == target_place(
                        combos@,
                        permutation,
                        i,
                    ) && targets@[i] < combos@.len()
            },
            None => !keeps_combos(combos@, permutation),
        },
{
    let table: PairTable = PairTable::build(combos);
    let unchanged: bool = permutation == SuitPermutation::identity();
    let mut targets: Vec<usize> = Vec::new();
    for i in 0..combos.len()
        invariant
            table.tells(combos@, combos@.len()),
            targets@.len() == i,
            unchanged == (permutation == SuitPermutation::identity_spec()),
            forall|j: int|
                0 <= j < i ==> #[trigger] targets@[j] == target_place(combos@, permutation, j)
                    && targets@[j] < combos@.len(),
            forall|j: int| 0 <= j < i ==> #[trigger] keeps_combo(combos@, permutation, j),
    {
        let target: usize = if unchanged {
            i
        } else {
            table.place(
                permutation.apply(combos[i].first),
                permutation.apply(combos[i].second),
                combos,
            )
        };
        if !unchanged && (target >= combos.len() || !combos[target].weight.same(combos[i].weight)) {
            proof {
                assert(!keeps_combo(combos@, permutation, i as int));
            }
            return None;
        }
        targets.push(target);
    }
    Some(targets)
}

/// Whether a permutation keeps a board as a set of cards.
pub open spec fn keeps_board(board: Seq<Card>, permutation: SuitPermutation) -> bool {
    forall|i: int|
        0 <= i < board.len() ==> #[trigger] keeps_board_card(board, permutation, i)
}

/// Whether the card at a place of a board is what a permutation makes of one of the board's cards.
pub open spec fn keeps_board_card(board: Seq<Card>, permutation: SuitPermutation, i: int) -> bool {
    exists|j: int| 0 <= j < board.len() && permutation.image(#[trigger] board[j]) == board[i]
}

fn board_is_kept(board: &Board, permutation: SuitPermutation) -> (r: bool)
    requires
        board.wf(),
    ensures
        r == keeps_board(board@, permutation),
{
    let count: usize = board.len();
    for i in 0..count
        invariant
            board.wf(),
            count == board@.len(),
            forall|k: int| 0 <= k < i ==> #[trigger] keeps_board_card(board@, permutation, k),
    {
        let card: Card = board.card(i);
        let mut found: bool = false;
        for j in 0..count
            invariant
                board.wf(),
                count == board@.len(),
                i < count,
                card == board@[i as int],
                found == (exists|k: int|
                    0 <= k < j && permutation.image(#[trigger] board@[k]) == card),
        {
            if permutation.apply(board.card(j)) == card {
                found = true;
                proof {
                    assert(permutation.image(board@[j as int]) == card);
                }
            }
        }
        if !found {
            proof {
                assert(!keeps_board_card(board@, permutation, i as int));
            }
            return false;
        }
    }
    true
}

/// Whether a permutation keeps a board and two ranges.
pub open spec fn is_symmetry<S: Scalar>(
    board: Seq<Card>,
    oop: Seq<ComboWeight<S>>,
    ip: Seq<ComboWeight<S>>,
    permutation: SuitPermutation,
) -> bool {
    keeps_board(board, permutation) && keeps_combos(oop, permutation) && keeps_combos(ip, permutation)
}

/// The symmetries among the first `n` maps of the suits.
pub open spec fn symmetries_below<S: Scalar>(
    board: Seq<Card>,
    oop: Seq<ComboWeight<S>>,
    ip: Seq<ComboWeight<S>>,
    n: nat,
) -> Seq<SuitPermutation>
    decreases n,
{
    if n == 0 {
        Seq::empty()
    } else {
        let front = symmetries_below(board, oop, ip, (n - 1) as nat);
        let permutation = SuitPermutation::at(n - 1);
        if permutation.wf() && is_symmetry(board, oop, ip, permutation) {
            front.push(permutation)
        } else {
            front
        }
    }
}

/// The symmetries of a board and two ranges, in ascending order of their codes.
pub open spec fn symmetries<S: Scalar>(
    board: Seq<Card>,
    oop: Seq<ComboWeight<S>>,
    ip: Seq<ComboWeight<S>>,
) -> Seq<SuitPermutation> {
    symmetries_below(board, oop, ip, 256)
}

/// The symmetries of a board and two ranges, in ascending order of their codes.
pub fn board_symmetries<S: Scalar>(board: &Board, oop: &RangeSpec<S>, ip: &RangeSpec<S>) -> (r: Vec<
    SuitPermutation,
>)
    requires
        board.wf(),
    ensures
        r@ == symmetries(board@, oop.combos_spec(), ip.combos_spec()),
{
    let mut list: Vec<SuitPermutation> = Vec::new();
    for k in 0..256
        invariant
            board.wf(),
            list@ == symmetries_below(board@, oop.combos_spec(), ip.combos_spec(), k as nat),
    {
        let clubs: Suit = Suit::from_index(k / 64);
        let diamonds: Suit = Suit::from_index((k / 16) % 4);
        let hearts: Suit = Suit::from_index((k / 4) % 4);
        let spades: Suit = Suit::from_index(k % 4);
        let permutation = SuitPermutation { clubs, diamonds, hearts, spades };
        proof {
            assert(permutation == SuitPermutation::at(k as int));
        }
        if clubs != diamonds && clubs != hearts && clubs != spades && diamonds != hearts && diamonds
            != spades && hearts != spades {
            if board_is_kept(board, permutation) && private_combo_permutation_indices(
                oop.combos(),
                permutation,
            ).is_some() && private_combo_permutation_indices(ip.combos(), permutation).is_some() {
                list.push(permutation);
            }
        }
    }
    list
}

/// The place of the permutation, among the first `n`, that makes the least card of a card.
pub open spec fn best_place(permutations: Seq<SuitPermutation>, card: Card, n: nat) -> nat
    decreases n,
{
    if n <= 1 {
        0
    } else {
        let front = best_place(permutations, card, (n - 1) as nat);
        if permutations[n - 1].image(card).id() < permutations[front as int].image(card).id() {
            (n - 1) as nat
        } else {
            front
        }
    }
}

/// The permutation that makes the least card of a card, the first of them.
pub open spec fn best_permutation(permutations: Seq<SuitPermutation>, card: Card) -> SuitPermutation {
    permutations[best_place(permutations, card, permutations.len()) as int]
}

/// The card that stands for the class of a card: the least that a permutation makes of it.
pub open spec fn class_card(permutations: Seq<SuitPermutation>, card: Card) -> Card {
    best_permutation(permutations, card).image(card)
}

/// A card of a class and the permutation that makes the class's representative of it.
#[derive(Clone, Copy, Debug, PartialEq, Eq, Structural)]
pub struct ClassMember {
    pub card: Card,
    pub permutation_to_representative: SuitPermutation,
}

/// Cards to come that symmetries map to each other.
#[derive(Clone, Debug, PartialEq, Eq)]
pub struct CardClass {
    pub representative: Card,
    pub members: Vec<ClassMember>,
}

impl CardClass {
    /// How many cards are in the class.
    pub fn multiplicity(&self) -> (r: usize)
        ensures
            r == self.members@.len(),
    {
        self.members.len()
    }
}

/// The classes of the cards to come.
#[derive(Clone, Debug, PartialEq, Eq)]
pub struct NextCardIsomorphism {
    pub concrete_events: usize,
    pub classes: Vec<CardClass>,
}

/// The members of a class among the first `n` cards of a deck.
pub open spec fn members_below(
    permutations: Seq<SuitPermutation>,
    deck: Seq<Card>,
    representative: Card,
    n: nat,
) -> Seq<ClassMember>
    decreases n,
{
    if n == 0 {
        Seq::empty()
    } else {
        let front = members_below(permutations, deck, representative, (n - 1) as nat);
        let card = deck[n - 1];
        if class_card(permutations, card) == representative {
            front.push(
                ClassMember {
                    card,
                    permutation_to_representative: best_permutation(permutations, card),
                },
            )
        } else {
            front
        }
    }
}

/// A class with its members as a sequence.
pub ghost struct ClassView {
    pub representative: Card,
    pub members: Seq<ClassMember>,
}

impl View for CardClass {
    type V = ClassView;

    open spec fn view(&self) -> ClassView {
        ClassView { representative: self.representative, members: self.members@ }
    }
}

/// The classes whose representative is among the first `n` cards of a deck.
pub open spec fn classes_below(
    permutations: Seq<SuitPermutation>,
    deck: Seq<Card>,
    n: nat,
) -> Seq<ClassView>
    decreases n,
{
    if n == 0 {
        Seq::empty()
    } else {
        let front = classes_below(permutations, deck, (n - 1) as nat);
        let members = members_below(permutations, deck, deck[n - 1], deck.len());
        if members.len() == 0 {
            front
        } else {
            front.push(ClassView { representative: deck[n - 1], members })
        }
    }
}

/// The classes of the cards to come on a board.
pub open spec fn next_card_classes<S: Scalar>(
    board: Seq<Card>,
    oop: Seq<ComboWeight<S>>,
    ip: Seq<ComboWeight<S>>,
) -> Seq<ClassView> {
    let deck = deck_without(board);
    classes_below(symmetries(board, oop, ip), deck, deck.len())
}

/// The views of classes.
pub open spec fn class_views(classes: Seq<CardClass>) -> Seq<ClassView> {
    classes.map(|i: int, class: CardClass| class@)
}

fn find_best(permutations: &Vec<SuitPermutation>, card: Card) -> (r: SuitPermutation)
    requires
        permutations@.len() > 0,
    ensures
        r == best_permutation(permutations@, card),
{
    let mut best: usize = 0;
    let mut i: usize = 1;
    while i < permutations.len()
        invariant
            1 <= i <= permutations@.len(),
            best < i,
            best == best_place(permutations@, card, i as nat),
        decreases permutations@.len() - i,
    {
        if permutations[i].apply(card).index() < permutations[best].apply(card).index() {
            best = i;
        }
        i = i + 1;
    }
    permutations[best]
}

/// The classes of the cards that may come next.
pub fn next_card_isomorphism<S: Scalar>(board: &Board, oop: &RangeSpec<S>, ip: &RangeSpec<S>) -> (r:
    NextCardIsomorphism)
    requires
        board.wf(),
    ensures
        r.concrete_events == deck_without(board@).len(),
        class_views(r.classes@) == next_card_classes(board@, oop.combos_spec(), ip.combos_spec()),
{
    let deck: Vec<Card> = board.remaining_deck();
    let permutations: Vec<SuitPermutation> = board_symmetries(board, oop, ip);
    let mut classes: Vec<CardClass> = Vec::new();
    proof {
        identity_is_symmetry(board@, oop.combos_spec(), ip.combos_spec());
    }
    let mut best: Vec<SuitPermutation> = Vec::new();
    for i in 0..deck.len()
        invariant
            permutations@.len() > 0,
            best@.len() == i,
            forall|j: int|
                0 <= j < i ==> #[trigger] best@[j] == best_permutation(permutations@, deck@[j]),
    {
        best.push(find_best(&permutations, deck[i]));
    }
    proof {
        assert(class_views(classes@) =~= Seq::empty());
    }
    for k in 0..deck.len()
        invariant
            permutations@.len() > 0,
            best@.len() == deck@.len(),
            forall|j: int|
                0 <= j < deck@.len() ==> #[trigger] best@[j] == best_permutation(
                    permutations@,
                    deck@[j],
                ),
            class_views(classes@) == classes_below(permutations@, deck@, k as nat),
    {
        let representative: Card = deck[k];
        let mut members: Vec<ClassMember> = Vec::new();
        for i in 0..deck.len()
            invariant
                best@.len() == deck@.len(),
                forall|j: int|
                    0 <= j < deck@.len() ==> #[trigger] best@[j] == best_permutation(
                        permutations@,
                        deck@[j],
                    ),
                members@ == members_below(permutations@, deck@, representative, i as nat),
        {
            let permutation: SuitPermutation = best[i];
            if permutation.apply(deck[i]) == representative {
                members.push(
                    ClassMember { card: deck[i], permutation_to_representative: permutation },
                );
            }
        }
        if members.len() > 0 {
            let ghost before = classes@;
            classes.push(CardClass { representative, members });
            proof {
                assert(class_views(classes@) =~= class_views(before).push(
                    classes@[classes@.len() - 1]@,
                ));
            }
        }
    }
    NextCardIsomorphism { concrete_events: deck.len(), classes }
}

/// Every symmetry listed is a permutation that keeps the board and both ranges.
pub proof fn symmetries_facts<S: Scalar>(
    board: Seq<Card>,
    oop: Seq<ComboWeight<S>>,
    ip: Seq<ComboWeight<S>>,
    n: nat,
)
    ensures
        forall|i: int|
            0 <= i < symmetries_below(board, oop, ip, n).len() ==> (#[trigger] symmetries_below(
                board,
                oop,
                ip,
                n,
            )[i]).wf() && is_symmetry(board, oop, ip, symmetries_below(board, oop, ip, n)[i]),
    decreases n,
{
    if n > 0 {
        symmetries_facts(board, oop, ip, (n - 1) as nat);
        let front = symmetries_below(board, oop, ip, (n - 1) as nat);
        let whole = symmetries_below(board, oop, ip, n);
        assert forall|i: int| 0 <= i < whole.len() implies (#[trigger] whole[i]).wf() && is_symmetry(
            board,
            oop,
            ip,
            whole[i],
        ) by {
            if i < front.len() {
                assert(whole[i] == front[i]);
            }
        }
    }
}

/// There is always a symmetry: the permutation that changes nothing.
pub proof fn identity_is_symmetry<S: Scalar>(
    board: Seq<Card>,
    oop: Seq<ComboWeight<S>>,
    ip: Seq<ComboWeight<S>>,
)
    ensures
        symmetries(board, oop, ip).contains(SuitPermutation::identity_spec()),
        symmetries(board, oop, ip).len() > 0,
{
    let id = SuitPermutation::identity_spec();
    assert forall|i: int| 0 <= i < board.len() implies #[trigger] keeps_board_card(board, id, i) by {
        assert(id.image(board[i]) == board[i]);
    }
    assert(SuitPermutation::at(27) == id);
    lemma_symmetry_listed(board, oop, ip, 27, 256);
}

proof fn lemma_symmetry_listed<S: Scalar>(
    board: Seq<Card>,
    oop: Seq<ComboWeight<S>>,
    ip: Seq<ComboWeight<S>>,
    k: nat,
    n: nat,
)
    requires
        k < n,
        SuitPermutation::at(k as int).wf(),
        is_symmetry(board, oop, ip, SuitPermutation::at(k as int)),
    ensures
        symmetries_below(board, oop, ip, n).contains(SuitPermutation::at(k as int)),
    decreases n,
{
    let whole = symmetries_below(board, oop, ip, n);
    let target = SuitPermutation::at(k as int);
    if k == n - 1 {
        assert(whole[whole.len() - 1] == target);
    } else {
        lemma_symmetry_listed(board, oop, ip, k, (n - 1) as nat);
        let front = symmetries_below(board, oop, ip, (n - 1) as nat);
        let i = choose|i: int| 0 <= i < front.len() && front[i] == target;
        assert(whole[i] == target);
    }
}

proof fn lemma_best_place(permutations: Seq<SuitPermutation>, card: Card, n: nat)
    requires
        1 <= n <= permutations.len(),
    ensures
        best_place(permutations, card, n) < n,
        forall|i: int|
            0 <= i < n ==> permutations[best_place(permutations, card, n) as int].image(card).id()
                <= (#[trigger] permutations[i]).image(card).id(),
    decreases n,
{
    if n > 1 {
        lemma_best_place(permutations, card, (n - 1) as nat);
    }
}

/// A symmetry takes cards off the board to cards off the board.
proof fn lemma_off_board(board: Seq<Card>, permutation: SuitPermutation, card: Card)
    requires
        permutation.wf(),
        keeps_board(board, permutation),
        !board.contains(card),
    ensures
        !board.contains(permutation.image(card)),
{
    if board.contains(permutation.image(card)) {
        let i = choose|i: int| 0 <= i < board.len() && board[i] == permutation.image(card);
        assert(keeps_board_card(board, permutation, i));
        if i < 3 {
            let j = choose|j: int|
                0 <= j < 3 && j < board.len() && permutation.image(#[trigger] board[j]) == board[i];
            permutation_is_injective(permutation, board[j], card);
            assert(board.contains(card));
        } else {
            permutation_is_injective(permutation, board[i], card);
        }
    }
}

/// How many cards some classes hold in all.
pub open spec fn members_total(classes: Seq<ClassView>) -> nat
    decreases classes.len(),
{
    if classes.len() == 0 {
        0
    } else {
        members_total(classes.drop_last()) + classes.last().members.len()
    }
}

/// How many of the first `m` cards have a representative among the first `n`.
spec fn covered(permutations: Seq<SuitPermutation>, deck: Seq<Card>, n: nat, m: nat) -> nat
    decreases m,
{
    if m == 0 {
        0
    } else {
        covered(permutations, deck, n, (m - 1) as nat) + (if exists|k: int|
            0 <= k < n && #[trigger] deck[k] == class_card(permutations, deck[m - 1]) {
            1nat
        } else {
            0
        })
    }
}

proof fn lemma_covered_step(permutations: Seq<SuitPermutation>, deck: Seq<Card>, n: nat, m: nat)
    requires
        0 < n <= deck.len(),
        m <= deck.len(),
        all_different(deck),
    ensures
        covered(permutations, deck, n, m) == covered(permutations, deck, (n - 1) as nat, m)
            + members_below(permutations, deck, deck[n - 1], m).len(),
    decreases m,
{
    if m > 0 {
        lemma_covered_step(permutations, deck, n, (m - 1) as nat);
        let r = class_card(permutations, deck[m - 1]);
        if r == deck[n - 1] {
            assert(deck[n - 1] == r);
            assert(!exists|k: int| 0 <= k < n - 1 && deck[k] == r) by {
                if exists|k: int| 0 <= k < n - 1 && deck[k] == r {
                    let k = choose|k: int| 0 <= k < n - 1 && deck[k] == r;
                    assert(deck[k] != deck[n - 1]);
                }
            }
        } else {
            if exists|k: int| 0 <= k < n && deck[k] == r {
                let k = choose|k: int| 0 <= k < n && deck[k] == r;
                assert(k < n - 1);
            }
        }
    }
}

proof fn lemma_classes_total(permutations: Seq<SuitPermutation>, deck: Seq<Card>, n: nat)
    requires
        n <= deck.len(),
        all_different(deck),
    ensures
        members_total(classes_below(permutations, deck, n)) == covered(
            permutations,
            deck,
            n,
            deck.len(),
        ),
    decreases n,
{
    if n == 0 {
        lemma_nothing_covered(permutations, deck, deck.len());
    } else {
        lemma_classes_total(permutations, deck, (n - 1) as nat);
        lemma_covered_step(permutations, deck, n, deck.len());
        let front = classes_below(permutations, deck, (n - 1) as nat);
        let whole = classes_below(permutations, deck, n);
        if whole != front {
            assert(whole.drop_last() =~= front);
        }
    }
}

proof fn lemma_nothing_covered(permutations: Seq<SuitPermutation>, deck: Seq<Card>, m: nat)
    ensures
        covered(permutations, deck, 0, m) == 0,
    decreases m,
{
    if m > 0 {
        lemma_nothing_covered(permutations, deck, (m - 1) as nat);
    }
}

proof fn lemma_all_covered(permutations: Seq<SuitPermutation>, deck: Seq<Card>, m: nat)
    requires
        m <= deck.len(),
        forall|i: int|
            0 <= i < deck.len() ==> deck.contains(class_card(permutations, #[trigger] deck[i])),
    ensures
        covered(permutations, deck, deck.len(), m) == m,
    decreases m,
{
    if m > 0 {
        lemma_all_covered(permutations, deck, (m - 1) as nat);
        let r = class_card(permutations, deck[m - 1]);
        assert(deck.contains(r));
        let k = choose|k: int| 0 <= k < deck.len() && deck[k] == r;
        assert(deck[k] == r);
    }
}

/// The classes hold every card to come once: their sizes add up to the number of such cards.
pub proof fn classes_preserve_card_count<S: Scalar>(
    board: Seq<Card>,
    oop: Seq<ComboWeight<S>>,
    ip: Seq<ComboWeight<S>>,
)
    ensures
        members_total(next_card_classes(board, oop, ip)) == deck_without(board).len(),
{
    let deck = deck_without(board);
    let permutations = symmetries(board, oop, ip);
    identity_is_symmetry(board, oop, ip);
    deck_without_facts(board);
    symmetries_facts(board, oop, ip, 256);
    assert(all_different(deck)) by {
        assert forall|i: int, j: int| 0 <= i < j < deck.len() implies #[trigger] deck[i]
            != #[trigger] deck[j] by {
            assert(deck[i].id() < deck[j].id());
        }
    }
    assert forall|i: int| 0 <= i < deck.len() implies deck.contains(
        class_card(permutations, #[trigger] deck[i]),
    ) by {
        let card = deck[i];
        lemma_best_place(permutations, card, permutations.len());
        let k = best_place(permutations, card, permutations.len()) as int;
        assert(permutations[k].wf() && is_symmetry(board, oop, ip, permutations[k]));
        lemma_off_board(board, permutations[k], card);
    }
    lemma_classes_total(permutations, deck, deck.len());
    lemma_all_covered(permutations, deck, deck.len());
}

/// The representative of a class is a card to come, and each member's permutation is a symmetry that
/// makes the representative of it.
pub proof fn class_facts<S: Scalar>(
    board: Seq<Card>,
    oop: Seq<ComboWeight<S>>,
    ip: Seq<ComboWeight<S>>,
    n: nat,
)
    requires
        n <= deck_without(board).len(),
    ensures
        forall|i: int|
            0 <= i < classes_below(symmetries(board, oop, ip), deck_without(board), n).len() ==> {
                let class = #[trigger] classes_below(
                    symmetries(board, oop, ip),
                    deck_without(board),
                    n,
                )[i];
                &&& !board.contains(class.representative)
                &&& class.members.len() > 0
                &&& forall|j: int|
                    0 <= j < class.members.len() ==> {
                        let member = #[trigger] class.members[j];
                        &&& member.permutation_to_representative.image(member.card)
                            == class.representative
                        &&& member.permutation_to_representative.wf()
                        &&& is_symmetry(board, oop, ip, member.permutation_to_representative)
                    }
            },
    decreases n,
{
    let permutations = symmetries(board, oop, ip);
    let deck = deck_without(board);
    if n > 0 {
        class_facts(board, oop, ip, (n - 1) as nat);
        identity_is_symmetry(board, oop, ip);
        deck_without_facts(board);
        assert(!board.contains(deck[n - 1]));
        lemma_members(board, oop, ip, deck[n - 1], deck.len());
    }
}

/// Classes have different representatives.
pub proof fn classes_are_apart<S: Scalar>(
    board: Seq<Card>,
    oop: Seq<ComboWeight<S>>,
    ip: Seq<ComboWeight<S>>,
)
    ensures
        forall|i: int, j: int|
            0 <= i < j < next_card_classes(board, oop, ip).len() ==> (#[trigger] next_card_classes(
                board,
                oop,
                ip,
            )[i]).representative != (#[trigger] next_card_classes(board, oop, ip)[j]).representative,
{
    deck_without_facts(board);
    lemma_apart(symmetries(board, oop, ip), deck_without(board), deck_without(board).len());
}

proof fn lemma_apart(permutations: Seq<SuitPermutation>, deck: Seq<Card>, n: nat)
    requires
        n <= deck.len(),
        forall|i: int, j: int|
            0 <= i < j < deck.len() ==> (#[trigger] deck[i]).id() < (#[trigger] deck[j]).id(),
    ensures
        forall|i: int|
            0 <= i < classes_below(permutations, deck, n).len() ==> deck.take(n as int).contains(
                (#[trigger] classes_below(permutations, deck, n)[i]).representative,
            ),
        forall|i: int, j: int|
            0 <= i < j < classes_below(permutations, deck, n).len() ==> (#[trigger] classes_below(
                permutations,
                deck,
                n,
            )[i]).representative != (#[trigger] classes_below(permutations, deck, n)[j]).representative,
    decreases n,
{
    if n > 0 {
        lemma_apart(permutations, deck, (n - 1) as nat);
        let front = classes_below(permutations, deck, (n - 1) as nat);
        let whole = classes_below(permutations, deck, n);
        let fore = deck.take(n - 1);
        let all = deck.take(n as int);
        assert forall|i: int| 0 <= i < whole.len() implies all.contains(
            (#[trigger] whole[i]).representative,
        ) by {
            if i < front.len() {
                assert(whole[i] == front[i]);
                let k = choose|k: int| 0 <= k < fore.len() && fore[k] == front[i].representative;
                assert(all[k] == front[i].representative);
            } else {
                assert(all[n - 1] == whole[i].representative);
            }
        }
        assert forall|i: int, j: int| 0 <= i < j < whole.len() implies (
        #[trigger] whole[i]).representative != (#[trigger] whole[j]).representative by {
            assert(whole[i] == front[i]);
            if j < front.len() {
                assert(whole[j] == front[j]);
            } else {
                let k = choose|k: int| 0 <= k < fore.len() && fore[k] == front[i].representative;
                assert(deck[k].id() < deck[n - 1].id());
            }
        }
    }
}

proof fn lemma_members<S: Scalar>(
    board: Seq<Card>,
    oop: Seq<ComboWeight<S>>,
    ip: Seq<ComboWeight<S>>,
    representative: Card,
    n: nat,
)
    requires
        symmetries(board, oop, ip).len() > 0,
    ensures
        forall|j: int|
            0 <= j < members_below(
                symmetries(board, oop, ip),
                deck_without(board),
                representative,
                n,
            ).len() ==> {
                let member = #[trigger] members_below(
                    symmetries(board, oop, ip),
                    deck_without(board),
                    representative,
                    n,
                )[j];
                &&& member.permutation_to_representative.image(member.card) == representative
                &&& member.permutation_to_representative.wf()
                &&& is_symmetry(board, oop, ip, member.permutation_to_representative)
            },
    decreases n,
{
    let permutations = symmetries(board, oop, ip);
    let deck = deck_without(board);
    if n > 0 {
        lemma_members(board, oop, ip, representative, (n - 1) as nat);
        symmetries_facts(board, oop, ip, 256);
        lemma_best_place(permutations, deck[n - 1], permutations.len());
        let k = best_place(permutations, deck[n - 1], permutations.len()) as int;
        assert(permutations[k].wf() && is_symmetry(board, oop, ip, permutations[k]));
    }
}

} // verus!
