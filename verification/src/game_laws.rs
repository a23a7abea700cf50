//! Which subgames can be solved.
use vstd::prelude::*;
use crate::cards::all_different;
use crate::measure::MeasuredScalar;
use crate::subgame::{
    fault_of, size_counts, sizes_count, BetSize, ChancePolicy, Street, SubgameSpec,
    SubgameValidationError,
};

verus! {

/// The number of a size that is not all in, in steps.
pub open spec fn size_steps<S: MeasuredScalar>(size: BetSize<S>) -> int {
    match size {
        BetSize::PotFraction(value) => value.steps(),
        BetSize::CurrentBetMultiple(value) => value.steps(),
        BetSize::Chips(value) => value.steps(),
        BetSize::AllIn => 1,
    }
}

/// Whether all numbers of a game are finite.
pub open spec fn has_finite_numbers<S: MeasuredScalar>(game: SubgameSpec<S>) -> bool {
    let pot = game.pot;
    &&& pot.pot.is_finite_spec()
    &&& pot.current_bet.is_finite_spec()
    &&& pot.min_raise.is_finite_spec()
    &&& pot.stacks.oop.is_finite_spec()
    &&& pot.stacks.ip.is_finite_spec()
    &&& pot.committed.oop.is_finite_spec()
    &&& pot.committed.ip.is_finite_spec()
}

/// A game with finite numbers is taken just if its board is that of its street, with all cards different, both players
/// have hands, no chips are below zero, and sizes and the number of boards that are drawn are above zero; what it is
/// refused for is wrong with it.
pub proof fn sound_games_are_taken<S: MeasuredScalar>(game: SubgameSpec<S>)
    requires
        has_finite_numbers(game),
    ensures
        ({
            let pot = game.pot;
            let cards = game.board@.len();
            let in_street = cards == 3 && game.street == Street::Flop || cards == 4 && game.street
                == Street::Turn || cards == 5 && game.street == Street::River;
            let chips = pot.pot.steps() >= 0 && pot.current_bet.steps() >= 0 && pot.min_raise.steps() >= 0
                && pot.stacks.oop.steps() >= 0 && pot.stacks.ip.steps() >= 0 && pot.committed.oop.steps()
                >= 0 && pot.committed.ip.steps() >= 0;
            let hands = game.ranges.oop@.len() > 0 && game.ranges.ip@.len() > 0;
            &&& fault_of(game) is None ==> in_street && all_different(game.board@) && hands && chips
                && game.chance != ChancePolicy::Sample(0) && positive_sizes(game.actions.bet_sizes@)
                && positive_sizes(game.actions.raise_sizes@) && positive_sizes(
                game.actions.reraise_sizes@,
            )
            &&& in_street && all_different(game.board@) && hands && chips && game.chance
                != ChancePolicy::Sample(0) && sizes_count(game.actions.bet_sizes@) && sizes_count(
                game.actions.raise_sizes@,
            ) && sizes_count(game.actions.reraise_sizes@) ==> fault_of(game) is None
            &&& fault_of(game) == Some(SubgameValidationError::InvalidBoardLength) <==> !(3 <= cards <= 5)
            &&& fault_of(game) == Some(SubgameValidationError::StreetBoardMismatch) <==> 3 <= cards <= 5
                && !in_street
            &&& fault_of(game) == Some(SubgameValidationError::DuplicateBoardCard) ==> !all_different(
                game.board@,
            )
            &&& fault_of(game) == Some(SubgameValidationError::EmptyRange) ==> !hands
            &&& fault_of(game) == Some(SubgameValidationError::InvalidPot) ==> pot.pot.steps() < 0
            &&& fault_of(game) == Some(SubgameValidationError::InvalidBet) ==> pot.current_bet.steps() < 0
                || pot.min_raise.steps() < 0
            &&& fault_of(game) == Some(SubgameValidationError::InvalidStack) ==> pot.stacks.oop.steps()
                < 0 || pot.stacks.ip.steps() < 0
            &&& fault_of(game) == Some(SubgameValidationError::InvalidCommitment)
                ==> pot.committed.oop.steps() < 0 || pot.committed.ip.steps() < 0
            &&& fault_of(game) == Some(SubgameValidationError::InvalidRunoutSample) ==> game.chance
                == ChancePolicy::Sample(0)
        }),
{
    S::measured_units();
    let zero = S::zero_spec();
    S::measured_order(game.pot.pot, zero);
    S::measured_order(game.pot.current_bet, zero);
    S::measured_order(game.pot.min_raise, zero);
    S::measured_order(game.pot.stacks.oop, zero);
    S::measured_order(game.pot.stacks.ip, zero);
    S::measured_order(game.pot.committed.oop, zero);
    S::measured_order(game.pot.committed.ip, zero);
    if fault_of(game) is None {
        lemma_sizes(game.actions.bet_sizes@);
        lemma_sizes(game.actions.raise_sizes@);
        lemma_sizes(game.actions.reraise_sizes@);
    }
}

/// Whether all sizes are above zero.
pub open spec fn positive_sizes<S: MeasuredScalar>(sizes: Seq<BetSize<S>>) -> bool {
    forall|i: int| 0 <= i < sizes.len() ==> size_steps(#[trigger] sizes[i]) > 0
}

proof fn lemma_sizes<S: MeasuredScalar>(sizes: Seq<BetSize<S>>)
    requires
        forall|i: int| 0 <= i < sizes.len() ==> size_counts(#[trigger] sizes[i]),
    ensures
        positive_sizes(sizes),
{
    S::measured_units();
    let zero = S::zero_spec();
    assert forall|i: int| 0 <= i < sizes.len() implies size_steps(#[trigger] sizes[i]) > 0 by {
        assert(size_counts(sizes[i]));
        match sizes[i] {
            BetSize::PotFraction(value) => {
                S::measured_order(value, zero);
            },
            BetSize::CurrentBetMultiple(value) => {
                S::measured_order(value, zero);
            },
            BetSize::Chips(value) => {
                S::measured_order(value, zero);
            },
            BetSize::AllIn => {},
        }
    }
}

} // verus!
