//! Public betting trees: what they are made of.
use vstd::prelude::*;
use crate::cards::{Board, Card};
use crate::range::RangeSpec;
use crate::scalar::{ratio, ratio_spec, Scalar};

verus! {

/// A seat: out of position or in position.
#[derive(Clone, Copy, Debug, PartialEq, Eq, PartialOrd, Ord, Structural)]
pub enum Player {
    Oop,
    Ip,
}

impl Player {
    /// The opponent.
    pub open spec fn other_spec(self) -> Self {
        match self {
            Player::Oop => Player::Ip,
            Player::Ip => Player::Oop,
        }
    }

    /// The opponent.
    pub fn other(self) -> (r: Self)
        ensures
            r == self.other_spec(),
    {
        match self {
            Player::Oop => Player::Ip,
            Player::Ip => Player::Oop,
        }
    }
}

/// A betting round after the flop.
#[derive(Clone, Copy, Debug, PartialEq, Eq, PartialOrd, Ord, Structural)]
pub enum Street {
    Flop,
    Turn,
    River,
}

impl Street {
    /// The place of the street: 0, 1 or 2.
    pub open spec fn place(self) -> nat {
        match self {
            Street::Flop => 0,
            Street::Turn => 1,
            Street::River => 2,
        }
    }

    /// The place of the street: 0, 1 or 2.
    pub fn index(self) -> (r: usize)
        ensures
            r == self.place(),
    {
        match self {
            Street::Flop => 0,
            Street::Turn => 1,
            Street::River => 2,
        }
    }

    /// The street on which a board of so many cards is played.
    pub open spec fn of_board_len(cards: nat) -> Option<Self> {
        if cards == 3 {
            Some(Street::Flop)
        } else if cards == 4 {
            Some(Street::Turn)
        } else if cards == 5 {
            Some(Street::River)
        } else {
            None
        }
    }

    /// The street on which a board of so many cards is played.
    pub fn from_board_len(cards: usize) -> (r: Option<Self>)
        ensures
            r == Self::of_board_len(cards as nat),
    {
        match cards {
            3 => Some(Street::Flop),
            4 => Some(Street::Turn),
            5 => Some(Street::River),
            _ => None,
        }
    }

    /// The street that follows.
    pub open spec fn next_spec(self) -> Option<Self> {
        match self {
            Street::Flop => Some(Street::Turn),
            Street::Turn => Some(Street::River),
            Street::River => None,
        }
    }

    /// The street that follows.
    pub fn next(self) -> (r: Option<Self>)
        ensures
            r == self.next_spec(),
    {
        match self {
            Street::Flop => Some(Street::Turn),
            Street::Turn => Some(Street::River),
            Street::River => None,
        }
    }
}

/// What a player can do.
#[derive(Clone, Copy, Debug, PartialEq, Eq, PartialOrd, Ord, Structural)]
pub enum ActionKind {
    Check,
    Bet { amount: u32 },
    Call { amount: u32 },
    Fold,
    Raise { to: u32 },
    AllIn { to: u32 },
}

/// The cards that a chance node deals, with how many cards each stands for and the permutations that
/// take those to it.
#[derive(Clone, Debug, PartialEq, Eq)]
pub struct ChanceSpec {
    pub next_street: Street,
    pub cards: Vec<Card>,
    pub child_multiplicities: Vec<usize>,
    pub child_permutation_codes: Vec<Vec<u8>>,
}

/// Why a hand is over.
#[derive(Clone, Copy, Debug, PartialEq, Eq, Structural)]
pub enum TerminalReason {
    Fold,
    Showdown,
    AllIn,
}

/// What happens at a node.
#[derive(Clone, Debug, PartialEq, Eq)]
pub enum PublicNodeKind {
    Decision { player: Player, actions: Vec<ActionKind> },
    Chance(ChanceSpec),
    Terminal { reason: TerminalReason },
}

/// What both players know of a hand under way.
#[derive(Clone, Copy, Debug)]
pub struct PublicState {
    pub street: Street,
    pub board: Board,
    pub pot: u32,
    pub oop_stack: u32,
    pub ip_stack: u32,
    pub oop_street_commit: u32,
    pub ip_street_commit: u32,
    pub last_raise_size: u32,
    pub raises_this_street: u8,
    pub checks_this_street: u8,
    pub can_donk: bool,
    pub player: Player,
}

/// A node of a public tree.
#[derive(Clone, Debug)]
pub struct PublicNode {
    pub id: usize,
    pub state: PublicState,
    pub kind: PublicNodeKind,
    pub children: Vec<usize>,
}

/// Where a hand starts: board, chips and ranges.
#[derive(Clone, Debug)]
pub struct Spot<S> {
    pub board: Board,
    pub pot: u32,
    pub effective_stack: u32,
    pub oop_range: RangeSpec<S>,
    pub ip_range: RangeSpec<S>,
    pub first_player: Player,
}

/// How to size a bet.
#[derive(Clone, Copy, Debug)]
pub enum BetSizeSpec<S> {
    PotFraction(S),
    Geometric { streets: u8, max_pot_fraction: S },
    AllIn,
}

/// How to size a raise.
#[derive(Clone, Copy, Debug)]
pub enum RaiseSizeSpec<S> {
    PotFraction(S),
    PreviousBetMultiplier(S),
    Geometric { streets: u8, max_pot_fraction: S },
    AllIn,
}

impl<S: Scalar> RaiseSizeSpec<S> {
    /// Whether a size can be used.
    pub open spec fn valid_spec(self) -> bool {
        match self {
            RaiseSizeSpec::PotFraction(value) => value.is_finite_spec() && value.exceeds_spec(
                S::zero_spec(),
            ),
            RaiseSizeSpec::PreviousBetMultiplier(value) => value.is_finite_spec()
                && value.exceeds_spec(S::zero_spec()),
            RaiseSizeSpec::Geometric { streets, max_pot_fraction } => max_pot_fraction.is_finite_spec()
                || max_pot_fraction.is_infinite_spec(),
            RaiseSizeSpec::AllIn => true,
        }
    }

    /// Whether a size can be used.
    pub fn valid(self) -> (r: bool)
        ensures
            r == self.valid_spec(),
    {
        match self {
            RaiseSizeSpec::PotFraction(value) => value.is_finite() && value.exceeds(S::zero()),
            RaiseSizeSpec::PreviousBetMultiplier(value) => value.is_finite() && value.exceeds(
                S::zero(),
            ),
            RaiseSizeSpec::Geometric { streets, max_pot_fraction } => max_pot_fraction.is_finite()
                || max_pot_fraction.is_infinite(),
            RaiseSizeSpec::AllIn => true,
        }
    }
}

/// The bets considered on a street.
#[derive(Clone, Debug)]
pub struct StreetTemplate<S> {
    pub first_bet_sizes: Vec<BetSizeSpec<S>>,
    pub donk_bet_sizes: Vec<BetSizeSpec<S>>,
}

/// The raises considered, and when to go all in instead.
#[derive(Clone, Debug)]
pub struct RaisePolicy<S> {
    pub raise_multiplier: S,
    pub raise_sizes: Vec<RaiseSizeSpec<S>>,
    pub max_raises_per_street: u8,
    pub shove_spr_threshold: S,
    pub shove_commit_fraction: S,
    pub add_all_in_threshold: S,
    pub force_all_in_threshold: S,
    pub merging_threshold: S,
}

/// The bets and raises considered.
#[derive(Clone, Debug)]
pub struct ActionAbstraction<S> {
    pub min_bet: u32,
    pub flop: StreetTemplate<S>,
    pub turn: StreetTemplate<S>,
    pub river: StreetTemplate<S>,
    pub raise: RaisePolicy<S>,
}

/// Which cards chance nodes deal: one that stands for all, one of each class, or all.
#[derive(Clone, Copy, Debug, PartialEq, Eq, Structural)]
pub enum ChanceExpansion {
    TemplateOnly,
    Isomorphic,
    Enumerate,
}

/// How to build a tree.
#[derive(Clone, Debug)]
pub struct TreeTemplate<S> {
    pub action_abstraction: ActionAbstraction<S>,
    pub chance_expansion: ChanceExpansion,
}

/// What a tree was built from, in short.
#[derive(Clone, Copy, Debug)]
pub struct SpotSummary {
    pub board: Board,
    pub pot: u32,
    pub effective_stack: u32,
    pub first_player: Player,
    pub oop_range_combos: usize,
    pub ip_range_combos: usize,
}

/// A public tree: its nodes in preorder.
#[derive(Clone, Debug)]
pub struct PublicTree {
    pub spot: SpotSummary,
    pub nodes: Vec<PublicNode>,
}

/// How large a tree is.
#[derive(Clone, Copy, Debug, PartialEq, Eq)]
pub struct TreeStats {
    pub nodes: usize,
    pub decisions: usize,
    pub chances: usize,
    pub terminals: usize,
    pub max_depth: usize,
    pub decisions_by_street: [usize; 3],
}

/// Why a tree could not be built.
#[derive(Clone, Copy, Debug, PartialEq, Eq, Structural)]
pub enum TreeBuildError {
    BoardMustStartOnFlop,
    InvalidStack,
    InvalidSizing,
}

/// A bet of so many hundredths of the pot.
fn pot_share<S: Scalar>(hundredths: u32) -> (r: BetSizeSpec<S>)
    ensures
        r == BetSizeSpec::PotFraction(ratio_spec::<S>(hundredths, 100)),
{
    BetSizeSpec::PotFraction(ratio(hundredths, 100))
}

impl<S: Scalar> StreetTemplate<S> {
    /// Bets given in hundredths of the pot.
    pub open spec fn shares(self, first: Seq<u32>, donk: Seq<u32>) -> bool {
        &&& self.first_bet_sizes@ =~= first.map(
            |i: int, hundredths: u32| BetSizeSpec::PotFraction(ratio_spec::<S>(hundredths, 100)),
        )
        &&& self.donk_bet_sizes@ =~= donk.map(
            |i: int, hundredths: u32| BetSizeSpec::PotFraction(ratio_spec::<S>(hundredths, 100)),
        )
    }
}

impl<S: Scalar> ActionAbstraction<S> {
    /// Two bets a street, one raise of three times the bet, two raises a street.
    pub fn conservative_default() -> (r: Self)
        ensures
            r.min_bet == 100,
            r.flop.shares(seq![33, 75], seq![50]),
            r.turn.shares(seq![50, 100], seq![]),
            r.river.shares(seq![50, 100], seq![75]),
            r.raise.raise_multiplier == S::from_u32_spec(3),
            r.raise.raise_sizes@ == seq![RaiseSizeSpec::PreviousBetMultiplier(S::from_u32_spec(3))],
            r.raise.max_raises_per_street == 2,
            r.raise.shove_spr_threshold == ratio_spec::<S>(3, 2),
            r.raise.shove_commit_fraction == ratio_spec::<S>(70, 100),
            r.raise.add_all_in_threshold == S::zero_spec(),
            r.raise.force_all_in_threshold == S::zero_spec(),
            r.raise.merging_threshold == S::zero_spec(),
    {
        let mut flop_first: Vec<BetSizeSpec<S>> = Vec::new();
        flop_first.push(pot_share(33));
        flop_first.push(pot_share(75));
        let mut flop_donk: Vec<BetSizeSpec<S>> = Vec::new();
        flop_donk.push(pot_share(50));
        let mut turn_first: Vec<BetSizeSpec<S>> = Vec::new();
        turn_first.push(pot_share(50));
        turn_first.push(pot_share(100));
        let mut river_first: Vec<BetSizeSpec<S>> = Vec::new();
        river_first.push(pot_share(50));
        river_first.push(pot_share(100));
        let mut river_donk: Vec<BetSizeSpec<S>> = Vec::new();
        river_donk.push(pot_share(75));
        let mut raise_sizes: Vec<RaiseSizeSpec<S>> = Vec::new();
        raise_sizes.push(RaiseSizeSpec::PreviousBetMultiplier(S::from_u32(3)));
        ActionAbstraction {
            min_bet: 100,
            flop: StreetTemplate { first_bet_sizes: flop_first, donk_bet_sizes: flop_donk },
            turn: StreetTemplate { first_bet_sizes: turn_first, donk_bet_sizes: Vec::new() },
            river: StreetTemplate { first_bet_sizes: river_first, donk_bet_sizes: river_donk },
            raise: RaisePolicy {
                raise_multiplier: S::from_u32(3),
                raise_sizes,
                max_raises_per_street: 2,
                shove_spr_threshold: ratio(3, 2),
                shove_commit_fraction: ratio(70, 100),
                add_all_in_threshold: S::zero(),
                force_all_in_threshold: S::zero(),
                merging_threshold: S::zero(),
            },
        }
    }

    /// The bets of every street of [`Self::postflop_solver_basic`].
    pub open spec fn basic_bets() -> Seq<BetSizeSpec<S>> {
        seq![
            BetSizeSpec::PotFraction(ratio_spec::<S>(60, 100)),
            BetSizeSpec::Geometric { streets: 0, max_pot_fraction: S::infinity_spec() },
            BetSizeSpec::AllIn,
        ]
    }

    fn basic_bet_list() -> (r: Vec<BetSizeSpec<S>>)
        ensures
            r@ == Self::basic_bets(),
    {
        let mut list: Vec<BetSizeSpec<S>> = Vec::new();
        list.push(pot_share(60));
        list.push(BetSizeSpec::Geometric { streets: 0, max_pot_fraction: S::infinity() });
        list.push(BetSizeSpec::AllIn);
        list
    }

    /// Three bets a street, raises of two and a half times the bet, and all-ins where the stacks are
    /// shallow.
    pub fn postflop_solver_basic() -> (r: Self)
        ensures
            r.min_bet == 100,
            r.flop.first_bet_sizes@ == Self::basic_bets(),
            r.flop.donk_bet_sizes@.len() == 0,
            r.turn.first_bet_sizes@ == Self::basic_bets(),
            r.turn.donk_bet_sizes@.len() == 0,
            r.river.first_bet_sizes@ == Self::basic_bets(),
            r.river.donk_bet_sizes@ == seq![BetSizeSpec::PotFraction(ratio_spec::<S>(50, 100))],
            r.raise.raise_multiplier == ratio_spec::<S>(5, 2),
            r.raise.raise_sizes@ == seq![RaiseSizeSpec::PreviousBetMultiplier(ratio_spec::<S>(5, 2))],
            r.raise.max_raises_per_street == 255,
            r.raise.shove_spr_threshold == S::zero_spec(),
            r.raise.shove_commit_fraction == S::one_spec(),
            r.raise.add_all_in_threshold == ratio_spec::<S>(3, 2),
            r.raise.force_all_in_threshold == ratio_spec::<S>(15, 100),
            r.raise.merging_threshold == ratio_spec::<S>(1, 10),
    {
        let mut river_donk: Vec<BetSizeSpec<S>> = Vec::new();
        river_donk.push(pot_share(50));
        let mut raise_sizes: Vec<RaiseSizeSpec<S>> = Vec::new();
        raise_sizes.push(RaiseSizeSpec::PreviousBetMultiplier(ratio(5, 2)));
        ActionAbstraction {
            min_bet: 100,
            flop: StreetTemplate {
                first_bet_sizes: Self::basic_bet_list(),
                donk_bet_sizes: Vec::new(),
            },
            turn: StreetTemplate {
                first_bet_sizes: Self::basic_bet_list(),
                donk_bet_sizes: Vec::new(),
            },
            river: StreetTemplate {
                first_bet_sizes: Self::basic_bet_list(),
                donk_bet_sizes: river_donk,
            },
            raise: RaisePolicy {
                raise_multiplier: ratio(5, 2),
                raise_sizes,
                max_raises_per_street: 255,
                shove_spr_threshold: S::zero(),
                shove_commit_fraction: S::one(),
                add_all_in_threshold: ratio(3, 2),
                force_all_in_threshold: ratio(15, 100),
                merging_threshold: ratio(1, 10),
            },
        }
    }
}

impl<S: Scalar> TreeTemplate<S> {
    /// The conservative bets, with one card that stands for all at every chance node.
    pub fn conservative_default() -> (r: Self)
        ensures
            r.chance_expansion == ChanceExpansion::TemplateOnly,
            r.action_abstraction.min_bet == 100,
            r.action_abstraction.flop.shares(seq![33, 75], seq![50]),
            r.action_abstraction.turn.shares(seq![50, 100], seq![]),
            r.action_abstraction.river.shares(seq![50, 100], seq![75]),
            r.action_abstraction.raise.raise_multiplier == S::from_u32_spec(3),
            r.action_abstraction.raise.raise_sizes@ == seq![
                RaiseSizeSpec::PreviousBetMultiplier(S::from_u32_spec(3)),
            ],
            r.action_abstraction.raise.max_raises_per_street == 2,
            r.action_abstraction.raise.shove_spr_threshold == ratio_spec::<S>(3, 2),
            r.action_abstraction.raise.shove_commit_fraction == ratio_spec::<S>(70, 100),
            r.action_abstraction.raise.add_all_in_threshold == S::zero_spec(),
            r.action_abstraction.raise.force_all_in_threshold == S::zero_spec(),
            r.action_abstraction.raise.merging_threshold == S::zero_spec(),
    {
        TreeTemplate {
            action_abstraction: ActionAbstraction::conservative_default(),
            chance_expansion: ChanceExpansion::TemplateOnly,
        }
    }
}

} // verus!
