//! Ranges of private cards.
use vstd::prelude::*;
use vstd::string::*;
use crate::cards::{card_ids_differ, card_position_round_trip, deck_spec, Board, Card, Rank, Suit};
use crate::deals::{index_pairs, pairs, pairs_are_all};
use crate::range_text::{
    is_full_range, names_full, range_tokens, tokens_of, RangeToken, TokenText,
};
use crate::scalar::Scalar;
use crate::terminal_board::combos_of;

verus! {

/// A combo and how often it is held.
#[derive(Clone, Copy, Debug, PartialEq)]
pub struct ComboWeight<S> {
    pub first: Card,
    pub second: Card,
    pub weight: S,
}

/// A range of combos with weights.
#[derive(Clone, Debug, PartialEq)]
pub struct RangeSpec<S> {
    combos: Vec<ComboWeight<S>>,
}

/// Whether a weight is finite and not negative.
pub open spec fn weight_fits<S: Scalar>(weight: S) -> bool {
    weight.is_finite_spec() && !S::zero_spec().exceeds_spec(weight)
}

/// Whether a combo may stand in a range.
pub open spec fn combo_fits<S: Scalar>(combo: ComboWeight<S>) -> bool {
    combo.first != combo.second && weight_fits(combo.weight)
}

/// What is said of a combo that may not stand in a range.
pub open spec fn misfit_message<S: Scalar>(combo: ComboWeight<S>) -> Seq<char> {
    if combo.first == combo.second {
        "range combo repeats card "@ + combo.first.text_spec()
    } else {
        "range weights must be finite and non-negative"@
    }
}

/// The first combo that may not stand in a range is what an error is about.
pub open spec fn first_misfit<S: Scalar>(combos: Seq<ComboWeight<S>>, i: int) -> bool {
    &&& 0 <= i < combos.len()
    &&& !combo_fits(combos[i])
    &&& forall|j: int| 0 <= j < i ==> combo_fits(#[trigger] combos[j])
}

impl<S: Scalar> RangeSpec<S> {
    /// The combos of the range, in the order they were given.
    pub closed spec fn combos_spec(&self) -> Seq<ComboWeight<S>> {
        self.combos@
    }

    /// Every combo may stand in a range.
    pub open spec fn wf(&self) -> bool {
        forall|i: int| 0 <= i < self.combos_spec().len() ==> combo_fits(#[trigger] self.combos_spec()[i])
    }

    /// A range of the given combos.
    pub fn new(combos: Vec<ComboWeight<S>>) -> (r: Result<Self, String>)
        ensures
            match r {
                Ok(range) => range.wf() && range.combos_spec() == combos@,
                Err(message) => exists|i: int| #[trigger]
                    first_misfit(combos@, i) && message@ == misfit_message(combos@[i]),
            },
            r is Ok == (forall|i: int| 0 <= i < combos@.len() ==> combo_fits(#[trigger] combos@[i])),
    {
        for i in 0..combos.len()
            invariant
                forall|j: int| 0 <= j < i ==> combo_fits(#[trigger] combos@[j]),
        {
            let combo: ComboWeight<S> = combos[i];
            if combo.first == combo.second {
                proof {
                    assert(first_misfit(combos@, i as int));
                }
                return Err("range combo repeats card ".to_owned().concat(combo.first.text().as_str()));
            }
            if !combo.weight.is_finite() || S::zero().exceeds(combo.weight) {
                proof {
                    assert(first_misfit(combos@, i as int));
                }
                return Err("range weights must be finite and non-negative".to_owned());
            }
        }
        Ok(RangeSpec { combos })
    }

    /// All combos of the deck, each with weight one.
    pub open spec fn full_deck_combos() -> Seq<ComboWeight<S>> {
        combos_of(deck_spec()).map(
            |i: int, combo: crate::terminal_board::PrivateCombo|
                ComboWeight { first: combo.first, second: combo.second, weight: S::one_spec() },
        )
    }

    /// All combos of the deck, each with weight one.
    pub fn full_deck_uniform() -> (r: Self)
        ensures
            r.combos_spec() == Self::full_deck_combos(),
            r.wf(),
            are_tidy(r.combos_spec()),
    {
        let deck: Vec<Card> = Card::deck();
        proof {
            pairs_are_all(52);
        }
        let list: Vec<(usize, usize)> = index_pairs(deck.len());
        let mut combos: Vec<ComboWeight<S>> = Vec::new();
        for k in 0..list.len()
            invariant
                deck@ == deck_spec(),
                deck@.len() == 52,
                list@ == pairs(52),
                forall|i: int|
                    0 <= i < pairs(52).len() ==> (#[trigger] pairs(52)[i]).0 < pairs(52)[i].1 < 52,
                combos@ =~= Self::full_deck_combos().take(k as int),
        {
            proof {
                assert(list@[k as int] == pairs(52)[k as int]);
            }
            let (i, j): (usize, usize) = list[k];
            combos.push(ComboWeight { first: deck[i], second: deck[j], weight: S::one() });
        }
        proof {
            assert(Self::full_deck_combos().take(list@.len() as int) =~= Self::full_deck_combos());
            full_deck_is_tidy::<S>();
        }
        RangeSpec { combos }
    }

    /// The combos of the range, in the order they were given.
    pub fn combos(&self) -> (r: &[ComboWeight<S>])
        ensures
            r@ == self.combos_spec(),
    {
        self.combos.as_slice()
    }

    /// Whether a combo shares no card with a board.
    pub open spec fn off_board(board: Seq<Card>) -> spec_fn(ComboWeight<S>) -> bool {
        |combo: ComboWeight<S>| !board.contains(combo.first) && !board.contains(combo.second)
    }

    /// The combos that share no card with a board.
    pub fn without_board_conflicts(&self, board: &Board) -> (r: Self)
        requires
            board.wf(),
        ensures
            r.combos_spec() == self.combos_spec().filter(Self::off_board(board@)),
            self.wf() ==> r.wf(),
    {
        let mut combos: Vec<ComboWeight<S>> = Vec::new();
        let ghost keep = Self::off_board(board@);
        proof {
            reveal(Seq::filter);
            assert(self.combos@.take(0) =~= Seq::empty());
        }
        for i in 0..self.combos.len()
            invariant
                board.wf(),
                keep == Self::off_board(board@),
                combos@ == self.combos@.take(i as int).filter(keep),
                self.wf() ==> forall|j: int| 0 <= j < combos@.len() ==> combo_fits(#[trigger] combos@[j]),
        {
            let combo: ComboWeight<S> = self.combos[i];
            proof {
                reveal(Seq::filter);
                assert(self.combos@.take(i + 1).drop_last() =~= self.combos@.take(i as int));
                if self.wf() {
                    assert(combo_fits(self.combos_spec()[i as int]));
                }
            }
            if !board.contains(combo.first) && !board.contains(combo.second) {
                combos.push(combo);
            }
        }
        let r = RangeSpec { combos };
        proof {
            assert(self.combos@.take(self.combos@.len() as int) =~= self.combos@);
        }
        r
    }
}

/// Which suits an unpaired range token stands for.
#[derive(Clone, Copy, Debug, PartialEq, Eq, Structural)]
pub enum Suitedness {
    Both,
    Suited,
    Offsuit,
}

/// A combo in ascending order of its cards.
pub open spec fn ordered_combo<S>(first: Card, second: Card, weight: S) -> ComboWeight<S> {
    if first.id() <= second.id() {
        ComboWeight { first, second, weight }
    } else {
        ComboWeight { first: second, second: first, weight }
    }
}

/// Whether a list holds a combo of the same cards in the same order.
pub open spec fn lists_cards<S>(combos: Seq<ComboWeight<S>>, combo: ComboWeight<S>) -> bool {
    exists|i: int|
        0 <= i < combos.len() && (#[trigger] combos[i]).first == combo.first && combos[i].second
            == combo.second
}

/// A list with one more combo, unless its cards are listed already.
pub open spec fn pushed<S>(combos: Seq<ComboWeight<S>>, first: Card, second: Card, weight: S) -> Seq<
    ComboWeight<S>,
> {
    let combo = ordered_combo(first, second, weight);
    if lists_cards(combos, combo) {
        combos
    } else {
        combos.push(combo)
    }
}

/// Adds a combo to a list unless its cards are listed already.
pub fn push_combo<S: Scalar>(combos: &mut Vec<ComboWeight<S>>, first: Card, second: Card, weight: S)
    ensures
        final(combos)@ == pushed(old(combos)@, first, second, weight),
{
    let swap: bool = first.index() > second.index();
    let combo: ComboWeight<S> = ComboWeight {
        first: if swap {
            second
        } else {
            first
        },
        second: if swap {
            first
        } else {
            second
        },
        weight,
    };
    for i in 0..combos.len()
        invariant
            combos@ == old(combos)@,
            combo == ordered_combo(first, second, weight),
            forall|j: int|
                0 <= j < i ==> (#[trigger] combos@[j]).first != combo.first || combos@[j].second
                    != combo.second,
    {
        if combos[i].first == combo.first && combos[i].second == combo.second {
            return ;
        }
    }
    combos.push(combo);
}

/// The length of a text in bytes.
pub open spec fn byte_len(text: Seq<char>) -> usize {
    vstd::utf8::encode_utf8(text).len() as usize
}

/// Whether a token names two cards, suits included.
pub open spec fn is_exact_token(token: Seq<char>) -> bool {
    &&& byte_len(token) == 4
    &&& token.len() > 3
    &&& Suit::of_letter(token[1]) is Some
    &&& Suit::of_letter(token[3]) is Some
}

/// Whether a token names two cards, suits included.
pub fn is_exact_combo_token(token: &str) -> (r: bool)
    ensures
        r == is_exact_token(token@),
{
    token.len() == 4 && token.unicode_len() > 3 && Suit::from_letter(token.get_char(1)).is_some()
        && Suit::from_letter(token.get_char(3)).is_some()
}

/// The rank a letter, of either case, stands for.
pub fn parse_rank(value: char) -> (r: Option<Rank>)
    ensures
        r == Rank::of_letter(value),
{
    Rank::from_letter(value)
}

/// The position of a rank.
pub fn rank_index(rank: Rank) -> (r: usize)
    ensures
        r == rank.ord(),
        r < 13,
{
    rank.index()
}

/// The rank at a position.
pub fn rank_from_index(index: usize) -> (r: Rank)
    requires
        index < 13,
    ensures
        r == Rank::at(index as int),
        r.ord() == index,
{
    Rank::from_index(index)
}

/// The ranks from one position up to before another.
pub open spec fn rank_run(from: int, to: int) -> Seq<Rank> {
    Seq::new(
        (if from < to {
            to - from
        } else {
            0
        }) as nat,
        |i: int| Rank::at(from + i),
    )
}

fn rank_run_vec(from: usize, to: usize) -> (r: Vec<Rank>)
    requires
        to <= 13,
    ensures
        r@ == rank_run(from as int, to as int),
{
    let mut ranks: Vec<Rank> = Vec::new();
    let mut i: usize = from;
    while i < to
        invariant
            to <= 13,
            from < to ==> from <= i <= to,
            from >= to ==> i == from,
            ranks@ =~= rank_run(from as int, i as int),
        decreases to - i,
    {
        ranks.push(rank_from_index(i));
        i = i + 1;
    }
    proof {
        assert(ranks@ =~= rank_run(from as int, to as int));
    }
    ranks
}

/// The ranks of a pair token: the rank itself, with a plus up to the ace.
pub open spec fn pair_ranks_spec(rank: Rank, has_plus: bool) -> Seq<Rank> {
    if has_plus {
        rank_run(rank.ord() as int, 13)
    } else {
        seq![rank]
    }
}

/// The ranks of a pair token: the rank itself, with a plus up to the ace.
pub fn pair_ranks(rank: Rank, has_plus: bool) -> (r: Vec<Rank>)
    ensures
        r@ == pair_ranks_spec(rank, has_plus),
{
    if has_plus {
        rank_run_vec(rank_index(rank), 13)
    } else {
        let mut ranks: Vec<Rank> = Vec::new();
        ranks.push(rank);
        proof {
            assert(ranks@ =~= seq![rank]);
        }
        ranks
    }
}

/// The lower ranks of an unpaired token: the one given, with a plus up to below the higher one.
pub open spec fn kickers_spec(high: Rank, low: Rank, has_plus: bool) -> Seq<Rank> {
    if has_plus {
        rank_run(low.ord() as int, high.ord() as int)
    } else {
        seq![low]
    }
}

/// The lower ranks of an unpaired token: the one given, with a plus up to below the higher one.
pub fn broadway_kickers(high: Rank, low: Rank, has_plus: bool) -> (r: Vec<Rank>)
    ensures
        r@ == kickers_spec(high, low, has_plus),
{
    if has_plus {
        rank_run_vec(rank_index(low), rank_index(high))
    } else {
        let mut ranks: Vec<Rank> = Vec::new();
        ranks.push(low);
        proof {
            assert(ranks@ =~= seq![low]);
        }
        ranks
    }
}

/// A list with the first `n` of the six combos of a pair.
pub open spec fn with_pair<S>(combos: Seq<ComboWeight<S>>, rank: Rank, weight: S, n: nat) -> Seq<
    ComboWeight<S>,
>
    decreases n,
{
    if n == 0 {
        combos
    } else {
        let p = pairs(4)[n - 1];
        pushed(
            with_pair(combos, rank, weight, (n - 1) as nat),
            Card { rank, suit: Suit::at(p.0 as int) },
            Card { rank, suit: Suit::at(p.1 as int) },
            weight,
        )
    }
}

fn expand_pair<S: Scalar>(rank: Rank, weight: S, combos: &mut Vec<ComboWeight<S>>)
    ensures
        final(combos)@ == with_pair(old(combos)@, rank, weight, 6),
{
    proof {
        pairs_are_all(4);
    }
    let list: Vec<(usize, usize)> = index_pairs(4);
    for k in 0..6
        invariant
            list@ == pairs(4),
            list@.len() == 6,
            forall|i: int| 0 <= i < 6 ==> (#[trigger] pairs(4)[i]).0 < pairs(4)[i].1 < 4,
            combos@ == with_pair(old(combos)@, rank, weight, k as nat),
    {
        let (i, j): (usize, usize) = list[k];
        proof {
            assert(list@[k as int] == pairs(4)[k as int]);
        }
        push_combo(
            combos,
            Card { rank, suit: Suit::from_index(i) },
            Card { rank, suit: Suit::from_index(j) },
            weight,
        );
    }
}

/// Whether two suits are of the wanted kind.
pub open spec fn suits_match(suitedness: Suitedness, suited: bool) -> bool {
    match suitedness {
        Suitedness::Both => true,
        Suitedness::Suited => suited,
        Suitedness::Offsuit => !suited,
    }
}

/// A list with the combos of two ranks over the first `n` of the sixteen suit pairs.
pub open spec fn with_unpaired<S>(
    combos: Seq<ComboWeight<S>>,
    high: Rank,
    low: Rank,
    suitedness: Suitedness,
    weight: S,
    n: nat,
) -> Seq<ComboWeight<S>>
    decreases n,
{
    if n == 0 {
        combos
    } else {
        let front = with_unpaired(combos, high, low, suitedness, weight, (n - 1) as nat);
        let high_suit = Suit::at((n - 1) as int / 4);
        let low_suit = Suit::at((n - 1) as int % 4);
        if suits_match(suitedness, high_suit == low_suit) {
            pushed(
                front,
                Card { rank: high, suit: high_suit },
                Card { rank: low, suit: low_suit },
                weight,
            )
        } else {
            front
        }
    }
}

fn expand_unpaired<S: Scalar>(
    high: Rank,
    low: Rank,
    suitedness: Suitedness,
    weight: S,
    combos: &mut Vec<ComboWeight<S>>,
)
    ensures
        final(combos)@ == with_unpaired(old(combos)@, high, low, suitedness, weight, 16),
{
    for k in 0..16
        invariant
            combos@ == with_unpaired(old(combos)@, high, low, suitedness, weight, k as nat),
    {
        let high_suit: Suit = Suit::from_index(k / 4);
        let low_suit: Suit = Suit::from_index(k % 4);
        let suited: bool = high_suit == low_suit;
        let wanted: bool = match suitedness {
            Suitedness::Both => true,
            Suitedness::Suited => suited,
            Suitedness::Offsuit => !suited,
        };
        if wanted {
            push_combo(
                combos,
                Card { rank: high, suit: high_suit },
                Card { rank: low, suit: low_suit },
                weight,
            );
        }
    }
}

/// A list with the combos of the first `n` of some pairs.
pub open spec fn with_pairs<S>(combos: Seq<ComboWeight<S>>, ranks: Seq<Rank>, weight: S, n: nat) -> Seq<
    ComboWeight<S>,
>
    decreases n,
{
    if n == 0 {
        combos
    } else {
        with_pair(with_pairs(combos, ranks, weight, (n - 1) as nat), ranks[n - 1], weight, 6)
    }
}

/// A list with the combos of a rank with the first `n` of some lower ones.
pub open spec fn with_kickers<S>(
    combos: Seq<ComboWeight<S>>,
    high: Rank,
    kickers: Seq<Rank>,
    suitedness: Suitedness,
    weight: S,
    n: nat,
) -> Seq<ComboWeight<S>>
    decreases n,
{
    if n == 0 {
        combos
    } else {
        with_unpaired(
            with_kickers(combos, high, kickers, suitedness, weight, (n - 1) as nat),
            high,
            kickers[n - 1],
            suitedness,
            weight,
            16,
        )
    }
}

/// How a text appears between quotes, as `std`'s debug form writes it.
pub uninterp spec fn quoted_spec(text: Seq<char>) -> Seq<char>;

/// The debug form of a text, by `std`'s `format!` with `{:?}`: the text between quotes, with what cannot
/// stand there escaped. Which characters are escaped is not stated; equal texts have one debug form.
#[verifier::external_body]
fn quoted(text: &str) -> (r: String)
    ensures
        r@ == quoted_spec(text@),
{
    format!("{text:?}")
}

/// What a range token without suits stands for, or what is wrong with it.
pub ghost enum TokenMeaning {
    Pairs { ranks: Seq<Rank> },
    Unpaired { high: Rank, kickers: Seq<Rank>, suitedness: Suitedness },
    Wrong { message: Seq<char> },
}

/// The suffix of a token: its suitedness and whether it has a plus.
pub open spec fn suffix_of(token: Seq<char>) -> Option<(Suitedness, bool)> {
    if token.len() == 2 {
        Some((Suitedness::Both, false))
    } else if token.len() == 3 {
        if token[2] == '+' {
            Some((Suitedness::Both, true))
        } else if token[2] == 's' || token[2] == 'S' {
            Some((Suitedness::Suited, false))
        } else if token[2] == 'o' || token[2] == 'O' {
            Some((Suitedness::Offsuit, false))
        } else {
            None
        }
    } else if token[3] == '+' {
        if token[2] == 's' || token[2] == 'S' {
            Some((Suitedness::Suited, true))
        } else if token[2] == 'o' || token[2] == 'O' {
            Some((Suitedness::Offsuit, true))
        } else {
            None
        }
    } else {
        None
    }
}

/// What a range token without suits stands for.
pub open spec fn meaning_of(cards: Seq<char>) -> TokenMeaning {
    let token = crate::range_text::trimmed(cards);
    let quoted_token = quoted_spec(token);
    if byte_len(token) < 2 || byte_len(token) > 4 {
        TokenMeaning::Wrong { message: "invalid range token "@ + quoted_token }
    } else if token.len() < 2 || Rank::of_letter(token[0]) is None || Rank::of_letter(token[1]) is None {
        TokenMeaning::Wrong { message: "invalid range rank in "@ + quoted_token }
    } else if token.len() > 4 {
        TokenMeaning::Wrong { message: "invalid range token "@ + quoted_token }
    } else {
        let high = Rank::of_letter(token[0])->0;
        let low = Rank::of_letter(token[1])->0;
        match suffix_of(token) {
            None => TokenMeaning::Wrong { message: "invalid range token "@ + quoted_token },
            Some((suitedness, has_plus)) => if high == low {
                if suitedness != Suitedness::Both {
                    TokenMeaning::Wrong {
                        message: "pocket pair token cannot use suitedness: "@ + quoted_token,
                    }
                } else {
                    TokenMeaning::Pairs { ranks: pair_ranks_spec(high, has_plus) }
                }
            } else if high.ord() < low.ord() {
                TokenMeaning::Wrong {
                    message: "range token must list the higher rank first, got "@ + quoted_token,
                }
            } else {
                TokenMeaning::Unpaired { high, kickers: kickers_spec(high, low, has_plus), suitedness }
            },
        }
    }
}

/// A list with the combos of a token, or what is wrong with the token.
pub open spec fn with_token<S>(combos: Seq<ComboWeight<S>>, cards: Seq<char>, weight: S) -> Result<
    Seq<ComboWeight<S>>,
    Seq<char>,
> {
    if is_exact_token(cards) {
        match (
            Card::of_text(cards.subrange(0, 2)),
            Card::of_text(cards.subrange(2, cards.len() as int)),
        ) {
            (Some(first), Some(second)) => Ok(pushed(combos, first, second, weight)),
            _ => Err("invalid card"@),
        }
    } else {
        match meaning_of(cards) {
            TokenMeaning::Pairs { ranks } => Ok(with_pairs(combos, ranks, weight, ranks.len())),
            TokenMeaning::Unpaired { high, kickers, suitedness } => Ok(
                with_kickers(combos, high, kickers, suitedness, weight, kickers.len()),
            ),
            TokenMeaning::Wrong { message } => Err(message),
        }
    }
}

fn token_suffix(token: &str, len: usize) -> (r: Option<(Suitedness, bool)>)
    requires
        len == token@.len(),
        2 <= len <= 4,
    ensures
        r == suffix_of(token@),
{
    if len == 2 {
        return Some((Suitedness::Both, false));
    }
    let mark: char = token.get_char(2);
    let suited: bool = mark == 's' || mark == 'S';
    let offsuit: bool = mark == 'o' || mark == 'O';
    if len == 3 {
        if mark == '+' {
            Some((Suitedness::Both, true))
        } else if suited {
            Some((Suitedness::Suited, false))
        } else if offsuit {
            Some((Suitedness::Offsuit, false))
        } else {
            None
        }
    } else if token.get_char(3) == '+' {
        if suited {
            Some((Suitedness::Suited, true))
        } else if offsuit {
            Some((Suitedness::Offsuit, true))
        } else {
            None
        }
    } else {
        None
    }
}

/// Adds the combos of a token without suits, such as `99+` or `ATo+`.
pub fn expand_range_token<S: Scalar>(token: &str, weight: S, combos: &mut Vec<ComboWeight<S>>) -> (r:
    Result<(), String>)
    ensures
        match meaning_of(token@) {
            TokenMeaning::Pairs { ranks } => r is Ok && final(combos)@ == with_pairs(
                old(combos)@,
                ranks,
                weight,
                ranks.len(),
            ),
            TokenMeaning::Unpaired { high, kickers, suitedness } => r is Ok && final(combos)@
                == with_kickers(old(combos)@, high, kickers, suitedness, weight, kickers.len()),
            TokenMeaning::Wrong { message } => r is Err && r->Err_0@ == message && final(combos)@
                == old(combos)@,
        },
{
    let trimmed: &str = crate::range_text::trim_text(token);
    if trimmed.len() < 2 || trimmed.len() > 4 {
        return Err("invalid range token ".to_owned().concat(quoted(trimmed).as_str()));
    }
    let len: usize = trimmed.unicode_len();
    if len < 2 {
        return Err("invalid range rank in ".to_owned().concat(quoted(trimmed).as_str()));
    }
    let (high, low): (Rank, Rank) = match (
        parse_rank(trimmed.get_char(0)),
        parse_rank(trimmed.get_char(1)),
    ) {
        (Some(high), Some(low)) => (high, low),
        _ => {
            return Err("invalid range rank in ".to_owned().concat(quoted(trimmed).as_str()));
        },
    };
    if len > 4 {
        return Err("invalid range token ".to_owned().concat(quoted(trimmed).as_str()));
    }
    let (suitedness, has_plus): (Suitedness, bool) = match token_suffix(trimmed, len) {
        Some(suffix) => suffix,
        None => {
            return Err("invalid range token ".to_owned().concat(quoted(trimmed).as_str()));
        },
    };
    if high == low {
        if suitedness != Suitedness::Both {
            return Err(
                "pocket pair token cannot use suitedness: ".to_owned().concat(
                    quoted(trimmed).as_str(),
                ),
            );
        }
        let ranks: Vec<Rank> = pair_ranks(high, has_plus);
        for i in 0..ranks.len()
            invariant
                combos@ == with_pairs(old(combos)@, ranks@, weight, i as nat),
        {
            expand_pair(ranks[i], weight, combos);
        }
    } else {
        if rank_index(high) < rank_index(low) {
            return Err(
                "range token must list the higher rank first, got ".to_owned().concat(
                    quoted(trimmed).as_str(),
                ),
            );
        }
        let kickers: Vec<Rank> = broadway_kickers(high, low, has_plus);
        for i in 0..kickers.len()
            invariant
                combos@ == with_kickers(
                    old(combos)@,
                    high,
                    kickers@,
                    suitedness,
                    weight,
                    i as nat,
                ),
        {
            expand_unpaired(high, kickers[i], suitedness, weight, combos);
        }
    }
    Ok(())
}

/// The cards of a range token and its weight.
#[derive(Debug)]
pub struct WeightedToken<S> {
    pub cards: String,
    pub weight: S,
}

/// The combos of the first `n` tokens, or what is wrong with the first token that is wrong.
pub open spec fn combos_of_tokens<S>(tokens: Seq<WeightedToken<S>>, n: nat) -> Result<
    Seq<ComboWeight<S>>,
    Seq<char>,
>
    decreases n,
{
    if n == 0 {
        Ok(Seq::empty())
    } else {
        match combos_of_tokens(tokens, (n - 1) as nat) {
            Ok(combos) => with_token(combos, tokens[n - 1].cards@, tokens[n - 1].weight),
            Err(message) => Err(message),
        }
    }
}

proof fn lemma_wrong_token<S>(tokens: Seq<WeightedToken<S>>, k: nat, n: nat)
    requires
        k <= n,
        combos_of_tokens(tokens, k) is Err,
    ensures
        combos_of_tokens(tokens, n) == combos_of_tokens(tokens, k),
    decreases n,
{
    if k < n {
        lemma_wrong_token(tokens, k, (n - 1) as nat);
    }
}

impl<S: Scalar> RangeSpec<S> {
    /// The range that some tokens stand for. A combo that occurs again keeps its first weight.
    pub fn from_tokens(tokens: &[WeightedToken<S>]) -> (r: Result<Self, String>)
        ensures
            match combos_of_tokens(tokens@, tokens@.len()) {
                Ok(combos) => match r {
                    Ok(range) => range.wf() && range.combos_spec() == combos && are_tidy(combos),
                    Err(message) => exists|i: int| #[trigger]
                        first_misfit(combos, i) && message@ == misfit_message(combos[i]),
                },
                Err(message) => r is Err && r->Err_0@ == message,
            },
            r is Ok == (combos_of_tokens(tokens@, tokens@.len()) is Ok && forall|i: int|
                0 <= i < (combos_of_tokens(tokens@, tokens@.len())->Ok_0).len() ==> combo_fits(
                    #[trigger] (combos_of_tokens(tokens@, tokens@.len())->Ok_0)[i],
                )),
    {
        let mut combos: Vec<ComboWeight<S>> = Vec::new();
        for i in 0..tokens.len()
            invariant
                combos_of_tokens(tokens@, i as nat) == Ok::<Seq<ComboWeight<S>>, Seq<char>>(combos@),
        {
            let cards: &str = tokens[i].cards.as_str();
            let weight: S = tokens[i].weight;
            let ghost before = combos@;
            if is_exact_combo_token(cards) {
                let len: usize = cards.unicode_len();
                let first: Result<Card, String> = Card::parse(cards.substring_char(0, 2));
                let second: Result<Card, String> = Card::parse(cards.substring_char(2, len));
                match (first, second) {
                    (Ok(first), Ok(second)) => {
                        push_combo(&mut combos, first, second, weight);
                    },
                    _ => {
                        proof {
                            lemma_wrong_token(tokens@, (i + 1) as nat, tokens@.len());
                        }
                        return Err("invalid card".to_owned());
                    },
                }
            } else {
                match expand_range_token(cards, weight, &mut combos) {
                    Ok(_) => {},
                    Err(message) => {
                        proof {
                            lemma_wrong_token(tokens@, (i + 1) as nat, tokens@.len());
                        }
                        return Err(message);
                    },
                }
            }
        }
        proof {
            assert(combos_of_tokens(tokens@, tokens@.len()) == Ok::<
                Seq<ComboWeight<S>>,
                Seq<char>,
            >(combos@));
        }
        let ghost list = combos@;
        let r: Result<Self, String> = Self::new(combos);
        proof {
            assert(combos_of_tokens(tokens@, tokens@.len())->Ok_0 == list);
            if r is Ok {
                tokens_give_tidy_combos(tokens@, tokens@.len());
            }
            if r is Err {
                let i = choose|i: int| #[trigger]
                    first_misfit(list, i) && r->Err_0@ == misfit_message(list[i]);
                assert(first_misfit(list, i));
            }
        }
        r
    }
}

/// Whether a list is in ascending order within each combo, with no cards listed twice.
pub open spec fn no_repeats<S>(combos: Seq<ComboWeight<S>>) -> bool {
    &&& forall|i: int|
        0 <= i < combos.len() ==> (#[trigger] combos[i]).first.id() <= combos[i].second.id()
    &&& forall|i: int, j: int|
        0 <= i < j < combos.len() ==> (#[trigger] combos[i]).first != (#[trigger] combos[j]).first
            || combos[i].second != combos[j].second
}

proof fn lemma_pushed<S>(combos: Seq<ComboWeight<S>>, first: Card, second: Card, weight: S)
    requires
        no_repeats(combos),
    ensures
        no_repeats(pushed(combos, first, second, weight)),
        combos.is_prefix_of(pushed(combos, first, second, weight)),
{
    let combo = ordered_combo(first, second, weight);
    if !lists_cards(combos, combo) {
        let more = combos.push(combo);
        assert forall|i: int, j: int| 0 <= i < j < more.len() implies (#[trigger] more[i]).first != (
        #[trigger] more[j]).first || more[i].second != more[j].second by {
            if j == combos.len() {
                assert(combos[i] == more[i]);
            }
        }
    }
}

proof fn lemma_with_pair<S>(combos: Seq<ComboWeight<S>>, rank: Rank, weight: S, n: nat)
    requires
        no_repeats(combos),
    ensures
        no_repeats(with_pair(combos, rank, weight, n)),
        combos.is_prefix_of(with_pair(combos, rank, weight, n)),
    decreases n,
{
    if n > 0 {
        lemma_with_pair(combos, rank, weight, (n - 1) as nat);
        let p = pairs(4)[n - 1];
        lemma_pushed(
            with_pair(combos, rank, weight, (n - 1) as nat),
            Card { rank, suit: Suit::at(p.0 as int) },
            Card { rank, suit: Suit::at(p.1 as int) },
            weight,
        );
        lemma_prefixes(
            combos,
            with_pair(combos, rank, weight, (n - 1) as nat),
            with_pair(combos, rank, weight, n),
        );
    }
}

proof fn lemma_prefixes<A>(a: Seq<A>, b: Seq<A>, c: Seq<A>)
    requires
        a.is_prefix_of(b),
        b.is_prefix_of(c),
    ensures
        a.is_prefix_of(c),
{
    assert(c.subrange(0, a.len() as int) =~= b.subrange(0, a.len() as int)) by {
        assert forall|i: int| 0 <= i < a.len() implies c[i] == b[i] by {
            assert(b[i] == c.subrange(0, b.len() as int)[i]);
        }
    }
}

proof fn lemma_with_unpaired<S>(
    combos: Seq<ComboWeight<S>>,
    high: Rank,
    low: Rank,
    suitedness: Suitedness,
    weight: S,
    n: nat,
)
    requires
        no_repeats(combos),
    ensures
        no_repeats(with_unpaired(combos, high, low, suitedness, weight, n)),
        combos.is_prefix_of(with_unpaired(combos, high, low, suitedness, weight, n)),
    decreases n,
{
    if n > 0 {
        lemma_with_unpaired(combos, high, low, suitedness, weight, (n - 1) as nat);
        let front = with_unpaired(combos, high, low, suitedness, weight, (n - 1) as nat);
        lemma_pushed(
            front,
            Card { rank: high, suit: Suit::at((n - 1) as int / 4) },
            Card { rank: low, suit: Suit::at((n - 1) as int % 4) },
            weight,
        );
        if front != with_unpaired(combos, high, low, suitedness, weight, n) {
            lemma_prefixes(combos, front, with_unpaired(combos, high, low, suitedness, weight, n));
        }
    }
}

proof fn lemma_with_pairs<S>(combos: Seq<ComboWeight<S>>, ranks: Seq<Rank>, weight: S, n: nat)
    requires
        no_repeats(combos),
    ensures
        no_repeats(with_pairs(combos, ranks, weight, n)),
        combos.is_prefix_of(with_pairs(combos, ranks, weight, n)),
    decreases n,
{
    if n > 0 {
        lemma_with_pairs(combos, ranks, weight, (n - 1) as nat);
        lemma_with_pair(with_pairs(combos, ranks, weight, (n - 1) as nat), ranks[n - 1], weight, 6);
        lemma_prefixes(
            combos,
            with_pairs(combos, ranks, weight, (n - 1) as nat),
            with_pairs(combos, ranks, weight, n),
        );
    }
}

proof fn lemma_with_kickers<S>(
    combos: Seq<ComboWeight<S>>,
    high: Rank,
    kickers: Seq<Rank>,
    suitedness: Suitedness,
    weight: S,
    n: nat,
)
    requires
        no_repeats(combos),
    ensures
        no_repeats(with_kickers(combos, high, kickers, suitedness, weight, n)),
        combos.is_prefix_of(with_kickers(combos, high, kickers, suitedness, weight, n)),
    decreases n,
{
    if n > 0 {
        lemma_with_kickers(combos, high, kickers, suitedness, weight, (n - 1) as nat);
        lemma_with_unpaired(
            with_kickers(combos, high, kickers, suitedness, weight, (n - 1) as nat),
            high,
            kickers[n - 1],
            suitedness,
            weight,
            16,
        );
        lemma_prefixes(
            combos,
            with_kickers(combos, high, kickers, suitedness, weight, (n - 1) as nat),
            with_kickers(combos, high, kickers, suitedness, weight, n),
        );
    }
}

proof fn lemma_with_token<S>(before: Seq<ComboWeight<S>>, cards: Seq<char>, weight: S)
    requires
        no_repeats(before),
        with_token(before, cards, weight) is Ok,
    ensures
        no_repeats(with_token(before, cards, weight)->Ok_0),
        before.is_prefix_of(with_token(before, cards, weight)->Ok_0),
{
    if is_exact_token(cards) {
        lemma_pushed(
            before,
            Card::of_text(cards.subrange(0, 2))->0,
            Card::of_text(cards.subrange(2, cards.len() as int))->0,
            weight,
        );
    } else {
        match meaning_of(cards) {
            TokenMeaning::Pairs { ranks } => {
                lemma_with_pairs(before, ranks, weight, ranks.len());
            },
            TokenMeaning::Unpaired { high, kickers, suitedness } => {
                lemma_with_kickers(before, high, kickers, suitedness, weight, kickers.len());
            },
            TokenMeaning::Wrong { message } => {},
        }
    }
}

/// A range read from tokens lists no cards twice, and more tokens only add combos behind those of the
/// earlier ones: what an earlier token gave a combo as weight stays.
pub proof fn earlier_tokens_keep_weight<S>(tokens: Seq<WeightedToken<S>>, k: nat, n: nat)
    requires
        k <= n,
        combos_of_tokens(tokens, n) is Ok,
    ensures
        combos_of_tokens(tokens, k) is Ok,
        no_repeats(combos_of_tokens(tokens, n)->Ok_0),
        (combos_of_tokens(tokens, k)->Ok_0).is_prefix_of(combos_of_tokens(tokens, n)->Ok_0),
    decreases n,
{
    if n == 0 {
        assert(Seq::<ComboWeight<S>>::empty().is_prefix_of(Seq::<ComboWeight<S>>::empty()));
    } else {
        let last = (n - 1) as nat;
        let before = combos_of_tokens(tokens, last)->Ok_0;
        earlier_tokens_keep_weight(tokens, if k < n { k } else { last }, last);
        lemma_with_token(before, tokens[n - 1].cards@, tokens[n - 1].weight);
        let whole = combos_of_tokens(tokens, n)->Ok_0;
        if k < n {
            lemma_prefixes(combos_of_tokens(tokens, k)->Ok_0, before, whole);
        } else {
            assert(whole.subrange(0, whole.len() as int) =~= whole);
        }
    }
}

/// Whether combos are as a range text gives them: two different cards each, in the order of the deck,
/// with a finite weight that is not negative, and no two combos of the same cards.
pub open spec fn are_tidy<S: Scalar>(combos: Seq<ComboWeight<S>>) -> bool {
    &&& forall|i: int|
        0 <= i < combos.len() ==> (#[trigger] combos[i]).first.id() < combos[i].second.id()
            && weight_fits(combos[i].weight)
    &&& forall|i: int, j: int|
        0 <= i < j < combos.len() ==> !((#[trigger] combos[i]).first == (#[trigger] combos[j]).first
            && combos[i].second == combos[j].second)
}

/// The combos that tokens stand for are tidy, if each of them may stand in a range.
pub proof fn tokens_give_tidy_combos<S: Scalar>(tokens: Seq<WeightedToken<S>>, n: nat)
    requires
        combos_of_tokens(tokens, n) is Ok,
        forall|i: int|
            0 <= i < (combos_of_tokens(tokens, n)->Ok_0).len() ==> combo_fits(
                #[trigger] (combos_of_tokens(tokens, n)->Ok_0)[i],
            ),
    ensures
        are_tidy(combos_of_tokens(tokens, n)->Ok_0),
{
    earlier_tokens_keep_weight(tokens, n, n);
    let combos = combos_of_tokens(tokens, n)->Ok_0;
    assert forall|i: int| 0 <= i < combos.len() implies (#[trigger] combos[i]).first.id()
        < combos[i].second.id() && weight_fits(combos[i].weight) by {
        assert(combo_fits(combos[i]));
        card_ids_differ(combos[i].first, combos[i].second);
    }
}

/// The combos of the whole deck are tidy.
pub proof fn full_deck_is_tidy<S: Scalar>()
    ensures
        are_tidy(RangeSpec::<S>::full_deck_combos()),
        forall|i: int|
            0 <= i < RangeSpec::<S>::full_deck_combos().len() ==> combo_fits(
                #[trigger] RangeSpec::<S>::full_deck_combos()[i],
            ),
{
    let combos = RangeSpec::<S>::full_deck_combos();
    S::one_is_positive();
    pairs_are_all(52);
    assert forall|i: int| 0 <= i < combos.len() implies (#[trigger] combos[i]).first.id() == pairs(
        52,
    )[i].0 && combos[i].second.id() == pairs(52)[i].1 && pairs(52)[i].0 < pairs(52)[i].1 by {
        let p = pairs(52)[i];
        assert(p.0 < p.1 < 52);
        card_position_round_trip(Card::at(p.0 as int), p.0 as int);
        card_position_round_trip(Card::at(p.1 as int), p.1 as int);
    }
    assert forall|i: int, j: int| 0 <= i < j < combos.len() implies !((
    #[trigger] combos[i]).first == (#[trigger] combos[j]).first && combos[i].second
        == combos[j].second) by {
        assert(pairs(52)[i] != pairs(52)[j]);
        assert(combos[i].first.id() == pairs(52)[i].0);
        assert(combos[j].first.id() == pairs(52)[j].0);
    }
}

/// The combos of the first `n` tokens of a text, each token with the weight that was read for it, or one
/// if it has none; or what is wrong with the first token that is wrong.
pub open spec fn combos_of_texts<S: Scalar>(tokens: Seq<TokenText>, weights: Seq<S>, n: nat) -> Result<
    Seq<ComboWeight<S>>,
    Seq<char>,
>
    decreases n,
{
    if n == 0 {
        Ok(Seq::empty())
    } else {
        match combos_of_texts(tokens, weights, (n - 1) as nat) {
            Ok(combos) => with_token(combos, tokens[n - 1].cards, token_weight(tokens[n - 1], weights[n - 1])),
            Err(message) => Err(message),
        }
    }
}

/// The weight of a token: what was read for it, or one if it has none.
pub open spec fn token_weight<S: Scalar>(token: TokenText, read: S) -> S {
    if token.weight is Some {
        read
    } else {
        S::one_spec()
    }
}

/// What a range text stands for: all combos of the deck, or the combos of its tokens.
pub open spec fn text_combos<S: Scalar>(text: Seq<char>, weights: Seq<S>) -> Result<
    Seq<ComboWeight<S>>,
    Seq<char>,
> {
    if names_full(text) {
        Ok(RangeSpec::<S>::full_deck_combos())
    } else {
        combos_of_texts(tokens_of(text), weights, tokens_of(text).len())
    }
}

proof fn lemma_texts<S: Scalar>(
    list: Seq<WeightedToken<S>>,
    tokens: Seq<TokenText>,
    weights: Seq<S>,
    n: nat,
)
    requires
        n <= list.len(),
        list.len() == tokens.len(),
        forall|i: int|
            0 <= i < list.len() ==> (#[trigger] list[i]).cards@ == tokens[i].cards && list[i].weight
                == token_weight(tokens[i], weights[i]),
    ensures
        combos_of_tokens(list, n) == combos_of_texts(tokens, weights, n),
    decreases n,
{
    if n > 0 {
        lemma_texts(list, tokens, weights, (n - 1) as nat);
        assert(list[n - 1].cards@ == tokens[n - 1].cards);
    }
}

impl<S: Scalar> RangeSpec<S> {
    /// The range that a text stands for, given the numbers that the weights of its tokens were read as.
    /// Where a token has no weight the number given for it is not looked at.
    pub fn from_text(text: &str, weights: &[S]) -> (r: Result<Self, String>)
        requires
            weights@.len() == tokens_of(text@).len(),
        ensures
            match text_combos(text@, weights@) {
                Ok(combos) => match r {
                    Ok(range) => range.wf() && range.combos_spec() == combos && are_tidy(combos),
                    Err(message) => exists|i: int| #[trigger]
                        first_misfit(combos, i) && message@ == misfit_message(combos[i]),
                },
                Err(message) => r is Err && r->Err_0@ == message,
            },
            r is Ok == (text_combos(text@, weights@) is Ok && forall|i: int|
                0 <= i < (text_combos(text@, weights@)->Ok_0).len() ==> combo_fits(
                    #[trigger] (text_combos(text@, weights@)->Ok_0)[i],
                )),
    {
        if is_full_range(text) {
            proof {
                full_deck_is_tidy::<S>();
            }
            return Ok(Self::full_deck_uniform());
        }
        let tokens: Vec<RangeToken> = range_tokens(text);
        let ghost texts = tokens_of(text@);
        let mut list: Vec<WeightedToken<S>> = Vec::new();
        for i in 0..tokens.len()
            invariant
                texts == tokens_of(text@),
                tokens@.len() == texts.len(),
                weights@.len() == texts.len(),
                forall|k: int| 0 <= k < tokens@.len() ==> (#[trigger] tokens@[k])@ == texts[k],
                list@.len() == i,
                forall|k: int|
                    0 <= k < i ==> (#[trigger] list@[k]).cards@ == texts[k].cards && list@[k].weight
                        == token_weight(texts[k], weights@[k]),
        {
            proof {
                assert(tokens@[i as int]@ == texts[i as int]);
            }
            let weight: S = if tokens[i].weight.is_some() {
                weights[i]
            } else {
                S::one()
            };
            list.push(WeightedToken { cards: tokens[i].cards.as_str().to_owned(), weight });
        }
        proof {
            lemma_texts(list@, texts, weights@, texts.len());
        }
        Self::from_tokens(list.as_slice())
    }
}

/// Whether numbers are what a reader made of the weights of a text's tokens.
pub open spec fn are_read<S: Scalar, F: Fn(&str) -> S>(
    read: F,
    tokens: Seq<TokenText>,
    weights: Seq<S>,
) -> bool {
    &&& weights.len() == tokens.len()
    &&& forall|i: int|
        0 <= i < tokens.len() && tokens[i].weight is Some ==> is_read(
            read,
            tokens[i].weight->Some_0,
            #[trigger] weights[i],
        )
}

/// Whether a number is what a reader made of a text.
pub open spec fn is_read<S: Scalar, F: Fn(&str) -> S>(read: F, text: Seq<char>, number: S) -> bool {
    exists|word: &str| word@ == text && #[trigger] call_ensures(read, (word,), number)
}

impl<S: Scalar> RangeSpec<S> {
    /// The range that a text stands for, the weights of its tokens read as numbers. A weight that is no
    /// number is read as one that is not finite, and no range is made of it.
    pub fn from_str<F: Fn(&str) -> S>(value: &str, read: F) -> (r: Result<Self, String>)
        requires
            forall|word: &str| #[trigger] call_requires(read, (word,)),
        ensures
            exists|weights: Seq<S>|
                {
                    &&& #[trigger] are_read(read, tokens_of(value@), weights)
                    &&& match text_combos(value@, weights) {
                        Ok(combos) => match r {
                            Ok(range) => range.combos_spec() == combos,
                            Err(message) => exists|i: int| #[trigger]
                                first_misfit(combos, i) && message@ == misfit_message(combos[i]),
                        },
                        Err(message) => r is Err && r->Err_0@ == message,
                    }
                    &&& r is Ok == (text_combos(value@, weights) is Ok && forall|i: int|
                        0 <= i < (text_combos(value@, weights)->Ok_0).len() ==> combo_fits(
                            #[trigger] (text_combos(value@, weights)->Ok_0)[i],
                        ))
                },
            r matches Ok(range) ==> range.wf() && are_tidy(range.combos_spec()),
    {
        let tokens: Vec<RangeToken> = range_tokens(value);
        let ghost texts = tokens_of(value@);
        let mut weights: Vec<S> = Vec::new();
        for i in 0..tokens.len()
            invariant
                forall|word: &str| #[trigger] call_requires(read, (word,)),
                tokens@.len() == texts.len(),
                forall|k: int| 0 <= k < tokens@.len() ==> (#[trigger] tokens@[k])@ == texts[k],
                weights@.len() == i,
                forall|k: int|
                    0 <= k < i && texts[k].weight is Some ==> is_read(
                        read,
                        texts[k].weight->Some_0,
                        #[trigger] weights@[k],
                    ),
        {
            proof {
                assert(tokens@[i as int]@ == texts[i as int]);
            }
            let weight: S = match &tokens[i].weight {
                Some(word) => read(word.as_str()),
                None => S::one(),
            };
            weights.push(weight);
        }
        proof {
            assert(are_read(read, texts, weights@));
        }
        Self::from_text(value, weights.as_slice())
    }
}

/// Whatever text a range is read from, and whatever its weights were read as, its combos are tidy: cards
/// in the order of the deck, weights finite and not negative, and no cards twice.
pub proof fn texts_give_tidy_ranges<S: Scalar>(text: Seq<char>, weights: Seq<S>)
    requires
        text_combos(text, weights) is Ok,
        forall|i: int|
            0 <= i < (text_combos(text, weights)->Ok_0).len() ==> combo_fits(
                #[trigger] (text_combos(text, weights)->Ok_0)[i],
            ),
    ensures
        are_tidy(text_combos(text, weights)->Ok_0),
{
    if names_full(text) {
        full_deck_is_tidy::<S>();
    } else {
        let tokens = tokens_of(text);
        lemma_texts_tidy(tokens, weights, tokens.len());
        let combos = text_combos(text, weights)->Ok_0;
        assert forall|i: int| 0 <= i < combos.len() implies (#[trigger] combos[i]).first.id()
            < combos[i].second.id() && weight_fits(combos[i].weight) by {
            assert(combo_fits(combos[i]));
            card_ids_differ(combos[i].first, combos[i].second);
        }
    }
}

proof fn lemma_texts_tidy<S: Scalar>(tokens: Seq<TokenText>, weights: Seq<S>, n: nat)
    requires
        combos_of_texts(tokens, weights, n) is Ok,
    ensures
        no_repeats(combos_of_texts(tokens, weights, n)->Ok_0),
    decreases n,
{
    if n > 0 {
        let last = (n - 1) as nat;
        lemma_texts_tidy(tokens, weights, last);
        lemma_with_token(
            combos_of_texts(tokens, weights, last)->Ok_0,
            tokens[n - 1].cards,
            token_weight(tokens[n - 1], weights[n - 1]),
        );
    }
}

} // verus!
