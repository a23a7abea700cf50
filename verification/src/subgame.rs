//! A subgame after the flop: board, pot, ranges and the bets that are looked at.
use vstd::prelude::*;
use crate::cards::{all_different, Card};
use crate::hand_class::{combo_class, combo_class_spec, HandClass};
use crate::river::Combo;
use crate::scalar::{ratio, ratio_spec, Scalar};

verus! {

/// A street after the flop.
#[derive(Clone, Copy, Debug, PartialEq, Eq, Structural)]
pub enum Street {
    Flop,
    Turn,
    River,
}

/// The street of a board with a number of cards.
pub open spec fn street_of(count: nat) -> Option<Street> {
    if count == 3 {
        Some(Street::Flop)
    } else if count == 4 {
        Some(Street::Turn)
    } else if count == 5 {
        Some(Street::River)
    } else {
        None
    }
}

impl Street {
    /// The street of a board.
    pub fn from_board(board: &[Card]) -> (r: Result<Self, SubgameValidationError>)
        ensures
            match r {
                Ok(street) => street_of(board@.len()) == Some(street),
                Err(error) => street_of(board@.len()) is None && error
                    == SubgameValidationError::InvalidBoardLength,
            },
    {
        match board.len() {
            3 => Ok(Street::Flop),
            4 => Ok(Street::Turn),
            5 => Ok(Street::River),
            _ => Err(SubgameValidationError::InvalidBoardLength),
        }
    }
}

/// A player of the subgame: out of position, who acts first, or in position.
#[derive(Clone, Copy, Debug, PartialEq, Eq, Structural)]
pub enum Player {
    Oop,
    Ip,
}

impl Player {
    /// The other player.
    pub open spec fn other_spec(self) -> Self {
        match self {
            Player::Oop => Player::Ip,
            Player::Ip => Player::Oop,
        }
    }

    /// The number of the player.
    pub fn index(self) -> (r: usize)
        ensures
            r == (if self is Oop {
                0int
            } else {
                1
            }),
    {
        match self {
            Player::Oop => 0,
            Player::Ip => 1,
        }
    }

    /// The other player.
    pub fn other(self) -> (r: Self)
        ensures
            r == self.other_spec(),
    {
        match self {
            Player::Oop => Player::Ip,
            Player::Ip => Player::Oop,
        }
    }
}

/// A value for each player.
#[derive(Clone, Copy, Debug, PartialEq)]
pub struct Sides<S> {
    pub oop: S,
    pub ip: S,
}

impl<S: Scalar> Sides<S> {
    /// The value of a player.
    pub open spec fn of_spec(self, player: Player) -> S {
        match player {
            Player::Oop => self.oop,
            Player::Ip => self.ip,
        }
    }

    /// The values with that of a player replaced.
    pub open spec fn with_spec(self, player: Player, value: S) -> Self {
        match player {
            Player::Oop => Sides { oop: value, ..self },
            Player::Ip => Sides { ip: value, ..self },
        }
    }

    pub fn new(oop: S, ip: S) -> (r: Self)
        ensures
            r == (Sides { oop, ip }),
    {
        Sides { oop, ip }
    }

    /// The value of a player.
    pub fn of(self, player: Player) -> (r: S)
        ensures
            r == self.of_spec(player),
    {
        match player {
            Player::Oop => self.oop,
            Player::Ip => self.ip,
        }
    }

    /// The values with that of a player replaced.
    pub fn with(self, player: Player, value: S) -> (r: Self)
        ensures
            r == self.with_spec(player, value),
    {
        match player {
            Player::Oop => Sides { oop: value, ip: self.ip },
            Player::Ip => Sides { oop: self.oop, ip: value },
        }
    }
}

/// The pot, the stacks behind it and the bets on the street.
#[derive(Clone, Copy, Debug, PartialEq)]
pub struct PotState<S> {
    pub pot: S,
    pub stacks: Sides<S>,
    pub committed: Sides<S>,
    pub invested: Sides<S>,
    pub current_bet: S,
    pub min_raise: S,
}

impl<S: Scalar> PotState<S> {
    /// A pot before any bet.
    pub open spec fn new_spec(pot: S, stacks: Sides<S>) -> Self {
        let none = Sides { oop: S::zero_spec(), ip: S::zero_spec() };
        PotState {
            pot,
            stacks,
            committed: none,
            invested: none,
            current_bet: S::zero_spec(),
            min_raise: S::zero_spec(),
        }
    }

    /// A pot before any bet.
    pub fn new(pot: S, stacks: Sides<S>) -> (r: Self)
        ensures
            r == Self::new_spec(pot, stacks),
    {
        let none: Sides<S> = Sides::new(S::zero(), S::zero());
        PotState {
            pot,
            stacks,
            committed: none,
            invested: none,
            current_bet: S::zero(),
            min_raise: S::zero(),
        }
    }
}

/// How large a bet is.
#[derive(Clone, Copy, Debug, PartialEq)]
pub enum BetSize<S> {
    PotFraction(S),
    CurrentBetMultiple(S),
    Chips(S),
    AllIn,
}

/// The bets that are looked at.
#[derive(Clone, Debug)]
pub struct ActionAbstraction<S> {
    pub bet_sizes: Vec<BetSize<S>>,
    pub raise_sizes: Vec<BetSize<S>>,
    pub reraise_sizes: Vec<BetSize<S>>,
    pub allow_all_in: bool,
    pub max_raises: u8,
}

/// The bets that are looked at, by value.
pub ghost struct AbstractionView<S> {
    pub bet_sizes: Seq<BetSize<S>>,
    pub raise_sizes: Seq<BetSize<S>>,
    pub reraise_sizes: Seq<BetSize<S>>,
    pub allow_all_in: bool,
    pub max_raises: u8,
}

impl<S> View for ActionAbstraction<S> {
    type V = AbstractionView<S>;

    open spec fn view(&self) -> AbstractionView<S> {
        AbstractionView {
            bet_sizes: self.bet_sizes@,
            raise_sizes: self.raise_sizes@,
            reraise_sizes: self.reraise_sizes@,
            allow_all_in: self.allow_all_in,
            max_raises: self.max_raises,
        }
    }
}

fn one_size<S: Scalar>(size: BetSize<S>) -> (r: Vec<BetSize<S>>)
    ensures
        r@ == seq![size],
{
    let mut sizes: Vec<BetSize<S>> = Vec::new();
    sizes.push(size);
    assert(sizes@ =~= seq![size]);
    sizes
}

impl<S: Scalar> Default for ActionAbstraction<S> {
    /// A bet of three quarters of the pot, a raise to three times and a reraise to two and a half
    /// times the bet, two raises at most.
    fn default() -> (r: Self)
        ensures
            r@ == (AbstractionView {
                bet_sizes: seq![BetSize::PotFraction(ratio_spec::<S>(3, 4))],
                raise_sizes: seq![BetSize::CurrentBetMultiple(S::from_u32_spec(3))],
                reraise_sizes: seq![BetSize::CurrentBetMultiple(ratio_spec::<S>(5, 2))],
                allow_all_in: false,
                max_raises: 2,
            }),
    {
        ActionAbstraction {
            bet_sizes: one_size(BetSize::PotFraction(ratio(3, 4))),
            raise_sizes: one_size(BetSize::CurrentBetMultiple(S::from_u32(3))),
            reraise_sizes: one_size(BetSize::CurrentBetMultiple(ratio(5, 2))),
            allow_all_in: false,
            max_raises: 2,
        }
    }
}

/// Which of the cards to come are looked at.
#[derive(Clone, Copy, Debug, PartialEq, Eq, Structural)]
pub enum ChancePolicy {
    Enumerate,
    Sample(usize),
}

impl ChancePolicy {
    /// How many are looked at, zero for all.
    pub open spec fn max_runouts_spec(self) -> usize {
        match self {
            ChancePolicy::Enumerate => 0,
            ChancePolicy::Sample(count) => count,
        }
    }

    /// How many are looked at, zero for all.
    pub fn max_runouts(self) -> (r: usize)
        ensures
            r == self.max_runouts_spec(),
    {
        match self {
            ChancePolicy::Enumerate => 0,
            ChancePolicy::Sample(count) => count,
        }
    }
}

/// A class of hands or one hand, with how often it is held.
#[derive(Clone, Copy, Debug)]
pub struct RangeEntry<S> {
    pub class: HandClass,
    pub combo: Option<Combo>,
    pub weight: S,
}

impl<S: Scalar> RangeEntry<S> {
    /// Whether the class names ranks of the deck and a hand holds two different cards.
    pub open spec fn valid(self) -> bool {
        match self.combo {
            Some(combo) => combo.first != combo.second,
            None => self.class.valid(),
        }
    }
}

/// The ranges of both players.
#[derive(Clone, Debug)]
pub struct RangeState<S> {
    pub oop: Vec<RangeEntry<S>>,
    pub ip: Vec<RangeEntry<S>>,
}

/// Whether a weight counts: finite and above zero.
pub open spec fn weight_counts<S: Scalar>(weight: S) -> bool {
    weight.is_finite_spec() && weight.exceeds_spec(S::zero_spec())
}

/// Whether a weight counts: finite and above zero.
pub fn counts<S: Scalar>(weight: S) -> (r: bool)
    ensures
        r == weight_counts(weight),
{
    weight.is_finite() && weight.exceeds(S::zero())
}

/// A range that holds each class as often as the next.
pub open spec fn uniform_spec<S: Scalar>(classes: Seq<HandClass>) -> Seq<RangeEntry<S>> {
    Seq::new(
        classes.len(),
        |i: int| RangeEntry { class: classes[i], combo: None, weight: S::one_spec() },
    )
}

/// A range that holds each class as often as the next.
pub fn uniform_range<S: Scalar>(classes: Vec<HandClass>) -> (r: Vec<RangeEntry<S>>)
    ensures
        r@ == uniform_spec::<S>(classes@),
{
    let mut entries: Vec<RangeEntry<S>> = Vec::new();
    for i in 0..classes.len()
        invariant
            entries@ =~= uniform_spec::<S>(classes@.take(i as int)),
    {
        entries.push(RangeEntry { class: classes[i], combo: None, weight: S::one() });
    }
    assert(classes@.take(classes@.len() as int) =~= classes@);
    entries
}

/// The first `n` classes whose weights count.
pub open spec fn weighted_spec<S: Scalar>(entries: Seq<(HandClass, S)>, n: nat) -> Seq<RangeEntry<S>>
    decreases n,
{
    if n == 0 {
        Seq::empty()
    } else {
        let front = weighted_spec(entries, (n - 1) as nat);
        let (class, weight) = entries[n - 1];
        if weight_counts(weight) {
            front.push(RangeEntry { class, combo: None, weight })
        } else {
            front
        }
    }
}

/// The classes whose weights count.
pub fn weighted_range<S: Scalar>(entries: Vec<(HandClass, S)>) -> (r: Vec<RangeEntry<S>>)
    ensures
        r@ == weighted_spec(entries@, entries@.len()),
{
    let mut range: Vec<RangeEntry<S>> = Vec::new();
    for i in 0..entries.len()
        invariant
            range@ == weighted_spec(entries@, i as nat),
    {
        let (class, weight): (HandClass, S) = entries[i];
        if counts(weight) {
            range.push(RangeEntry { class, combo: None, weight });
        }
    }
    range
}

/// The first `n` hands whose weights count.
pub open spec fn weighted_combo_spec<S: Scalar>(entries: Seq<(Combo, S)>, n: nat) -> Seq<
    RangeEntry<S>,
>
    decreases n,
{
    if n == 0 {
        Seq::empty()
    } else {
        let front = weighted_combo_spec(entries, (n - 1) as nat);
        let (combo, weight) = entries[n - 1];
        if weight_counts(weight) {
            front.push(RangeEntry { class: combo_class_spec(combo), combo: Some(combo), weight })
        } else {
            front
        }
    }
}

/// The hands whose weights count.
pub fn weighted_combo_range<S: Scalar>(entries: Vec<(Combo, S)>) -> (r: Vec<RangeEntry<S>>)
    ensures
        r@ == weighted_combo_spec(entries@, entries@.len()),
{
    let mut range: Vec<RangeEntry<S>> = Vec::new();
    for i in 0..entries.len()
        invariant
            range@ == weighted_combo_spec(entries@, i as nat),
    {
        let (combo, weight): (Combo, S) = entries[i];
        if counts(weight) {
            range.push(RangeEntry { class: combo_class(combo), combo: Some(combo), weight });
        }
    }
    range
}

impl<S: Scalar> RangeState<S> {
    /// Ranges that hold each class as often as the next.
    pub fn new(oop: Vec<HandClass>, ip: Vec<HandClass>) -> (r: Self)
        ensures
            r.oop@ == uniform_spec::<S>(oop@),
            r.ip@ == uniform_spec::<S>(ip@),
    {
        RangeState { oop: uniform_range(oop), ip: uniform_range(ip) }
    }

    /// Ranges of weighted classes.
    pub fn weighted(oop: Vec<(HandClass, S)>, ip: Vec<(HandClass, S)>) -> (r: Self)
        ensures
            r.oop@ == weighted_spec(oop@, oop@.len()),
            r.ip@ == weighted_spec(ip@, ip@.len()),
    {
        RangeState { oop: weighted_range(oop), ip: weighted_range(ip) }
    }

    /// Ranges of weighted hands.
    pub fn weighted_combos(oop: Vec<(Combo, S)>, ip: Vec<(Combo, S)>) -> (r: Self)
        ensures
            r.oop@ == weighted_combo_spec(oop@, oop@.len()),
            r.ip@ == weighted_combo_spec(ip@, ip@.len()),
    {
        RangeState { oop: weighted_combo_range(oop), ip: weighted_combo_range(ip) }
    }
}

/// What is wrong with a subgame.
#[derive(Clone, Copy, Debug, PartialEq, Eq, Structural)]
pub enum SubgameValidationError {
    InvalidBoardLength,
    StreetBoardMismatch,
    DuplicateBoardCard,
    EmptyRange,
    InvalidPot,
    InvalidStack,
    InvalidCommitment,
    InvalidBet,
    InvalidBetSize,
    InvalidRunoutSample,
}

/// Why a subgame cannot be built or solved.
#[derive(Clone, Copy, Debug, PartialEq, Eq, Structural)]
pub enum SubgameBuildError {
    Validation(SubgameValidationError),
    NoLegalDeals,
}

impl From<SubgameValidationError> for SubgameBuildError {
    fn from(error: SubgameValidationError) -> (r: Self) {
        SubgameBuildError::Validation(error)
    }
}

impl vstd::std_specs::convert::FromSpecImpl<SubgameValidationError> for SubgameBuildError {
    open spec fn obeys_from_spec() -> bool {
        true
    }

    open spec fn from_spec(error: SubgameValidationError) -> Self {
        SubgameBuildError::Validation(error)
    }
}

/// A subgame after the flop.
#[derive(Clone, Debug)]
pub struct SubgameSpec<S> {
    pub board: Vec<Card>,
    pub street: Street,
    pub root_player: Player,
    pub pot: PotState<S>,
    pub ranges: RangeState<S>,
    pub actions: ActionAbstraction<S>,
    pub chance: ChancePolicy,
}

/// Whether an amount is finite and not below zero.
pub open spec fn amount_counts<S: Scalar>(value: S) -> bool {
    value.is_finite_spec() && value.at_least_spec(S::zero_spec())
}

fn is_amount<S: Scalar>(value: S) -> (r: bool)
    ensures
        r == amount_counts(value),
{
    value.is_finite() && value.at_least(S::zero())
}

/// Whether a bet size is finite and above zero.
pub open spec fn size_counts<S: Scalar>(size: BetSize<S>) -> bool {
    match size {
        BetSize::PotFraction(value) => weight_counts(value),
        BetSize::CurrentBetMultiple(value) => weight_counts(value),
        BetSize::Chips(value) => weight_counts(value),
        BetSize::AllIn => true,
    }
}

fn is_size<S: Scalar>(size: BetSize<S>) -> (r: bool)
    ensures
        r == size_counts(size),
{
    match size {
        BetSize::PotFraction(value) => counts(value),
        BetSize::CurrentBetMultiple(value) => counts(value),
        BetSize::Chips(value) => counts(value),
        BetSize::AllIn => true,
    }
}

/// Whether all bet sizes are finite and above zero.
pub open spec fn sizes_count<S: Scalar>(sizes: Seq<BetSize<S>>) -> bool {
    forall|i: int| 0 <= i < sizes.len() ==> size_counts(#[trigger] sizes[i])
}

fn are_sizes<S: Scalar>(sizes: &[BetSize<S>]) -> (r: bool)
    ensures
        r == sizes_count(sizes@),
{
    for i in 0..sizes.len()
        invariant
            forall|j: int| 0 <= j < i ==> size_counts(#[trigger] sizes@[j]),
    {
        if !is_size(sizes[i]) {
            return false;
        }
    }
    true
}

/// Whether a board holds a card twice.
pub fn has_duplicate_cards(board: &[Card]) -> (r: bool)
    ensures
        r == !all_different(board@),
{
    for j in 0..board.len()
        invariant
            forall|a: int, b: int| 0 <= a < b < j ==> #[trigger] board@[a] != #[trigger] board@[b],
    {
        for i in 0..j
            invariant
                j < board@.len(),
                forall|a: int| 0 <= a < i ==> #[trigger] board@[a] != board@[j as int],
        {
            if board[i] == board[j] {
                assert(board@[i as int] == board@[j as int]);
                return true;
            }
        }
    }
    false
}

/// The first thing wrong with a subgame.
pub open spec fn fault_of<S: Scalar>(game: SubgameSpec<S>) -> Option<SubgameValidationError> {
    if street_of(game.board@.len()) is None {
        Some(SubgameValidationError::InvalidBoardLength)
    } else if street_of(game.board@.len()) != Some(game.street) {
        Some(SubgameValidationError::StreetBoardMismatch)
    } else if !all_different(game.board@) {
        Some(SubgameValidationError::DuplicateBoardCard)
    } else if game.ranges.oop@.len() == 0 || game.ranges.ip@.len() == 0 {
        Some(SubgameValidationError::EmptyRange)
    } else if !amount_counts(game.pot.pot) {
        Some(SubgameValidationError::InvalidPot)
    } else if !amount_counts(game.pot.current_bet) || !amount_counts(game.pot.min_raise) {
        Some(SubgameValidationError::InvalidBet)
    } else if !amount_counts(game.pot.stacks.oop) || !amount_counts(game.pot.stacks.ip) {
        Some(SubgameValidationError::InvalidStack)
    } else if !amount_counts(game.pot.committed.oop) || !amount_counts(game.pot.committed.ip) {
        Some(SubgameValidationError::InvalidCommitment)
    } else if !sizes_count(game.actions.bet_sizes@) || !sizes_count(game.actions.raise_sizes@)
        || !sizes_count(game.actions.reraise_sizes@) {
        Some(SubgameValidationError::InvalidBetSize)
    } else if game.chance == ChancePolicy::Sample(0) {
        Some(SubgameValidationError::InvalidRunoutSample)
    } else {
        None
    }
}

impl<S: Scalar> SubgameSpec<S> {
    /// Whether every entry of the ranges is of the deck.
    pub open spec fn wf(self) -> bool {
        &&& forall|i: int|
            0 <= i < self.ranges.oop@.len() ==> (#[trigger] self.ranges.oop@[i]).valid()
        &&& forall|i: int|
            0 <= i < self.ranges.ip@.len() ==> (#[trigger] self.ranges.ip@[i]).valid()
    }

    /// A subgame whose street is that of its board and whose first player is out of position.
    pub fn postflop(
        board: Vec<Card>,
        pot: PotState<S>,
        ranges: RangeState<S>,
        actions: ActionAbstraction<S>,
        chance: ChancePolicy,
    ) -> (r: Result<Self, SubgameValidationError>)
        ensures
            match r {
                Ok(game) => {
                    &&& game == (SubgameSpec {
                        board,
                        street: street_of(board@.len())->0,
                        root_player: Player::Oop,
                        pot,
                        ranges,
                        actions,
                        chance,
                    })
                    &&& fault_of(game) is None
                },
                Err(error) => {
                    ||| street_of(board@.len()) is None && error
                        == SubgameValidationError::InvalidBoardLength
                    ||| street_of(board@.len()) is Some && fault_of(
                        (SubgameSpec {
                            board,
                            street: street_of(board@.len())->0,
                            root_player: Player::Oop,
                            pot,
                            ranges,
                            actions,
                            chance,
                        }),
                    ) == Some(error)
                },
            },
    {
        let street: Street = match Street::from_board(&board) {
            Ok(street) => street,
            Err(error) => {
                return Err(error);
            },
        };
        let game: SubgameSpec<S> = SubgameSpec {
            board,
            street,
            root_player: Player::Oop,
            pot,
            ranges,
            actions,
            chance,
        };
        match game.validate() {
            Ok(_) => Ok(game),
            Err(error) => Err(error),
        }
    }

    /// Checks that nothing is wrong with the subgame.
    pub fn validate(&self) -> (r: Result<(), SubgameValidationError>)
        ensures
            match r {
                Ok(_) => fault_of(*self) is None,
                Err(error) => fault_of(*self) == Some(error),
            },
    {
        match Street::from_board(&self.board) {
            Ok(street) => {
                if street != self.street {
                    return Err(SubgameValidationError::StreetBoardMismatch);
                }
            },
            Err(error) => {
                return Err(error);
            },
        }
        if has_duplicate_cards(&self.board) {
            return Err(SubgameValidationError::DuplicateBoardCard);
        }
        if self.ranges.oop.len() == 0 || self.ranges.ip.len() == 0 {
            return Err(SubgameValidationError::EmptyRange);
        }
        if !is_amount(self.pot.pot) {
            return Err(SubgameValidationError::InvalidPot);
        }
        if !is_amount(self.pot.current_bet) || !is_amount(self.pot.min_raise) {
            return Err(SubgameValidationError::InvalidBet);
        }
        if !is_amount(self.pot.stacks.oop) || !is_amount(self.pot.stacks.ip) {
            return Err(SubgameValidationError::InvalidStack);
        }
        if !is_amount(self.pot.committed.oop) || !is_amount(self.pot.committed.ip) {
            return Err(SubgameValidationError::InvalidCommitment);
        }
        if !are_sizes(&self.actions.bet_sizes) || !are_sizes(&self.actions.raise_sizes)
            || !are_sizes(&self.actions.reraise_sizes) {
            return Err(SubgameValidationError::InvalidBetSize);
        }
        match self.chance {
            ChancePolicy::Sample(count) => {
                if count == 0 {
                    return Err(SubgameValidationError::InvalidRunoutSample);
                }
            },
            ChancePolicy::Enumerate => {},
        }
        Ok(())
    }

    /// The subgame with another first player.
    pub fn with_root_player(self, root_player: Player) -> (r: Self)
        ensures
            r == (SubgameSpec { root_player, ..self }),
    {
        SubgameSpec {
            board: self.board,
            street: self.street,
            root_player,
            pot: self.pot,
            ranges: self.ranges,
            actions: self.actions,
            chance: self.chance,
        }
    }
}

} // verus!
