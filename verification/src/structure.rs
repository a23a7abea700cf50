//! How blinds and antes press on a stack.
use vstd::prelude::*;
use crate::arith::{capped, capped_product};
use crate::blinds::BlindLevel;
use crate::scalar::Scalar;

verus! {

/// The stack every player starts with.
pub const STARTING_STACK: u32 = 40_000;

/// The pressure of a blind level on a stack.
#[derive(Clone, Copy, Debug, PartialEq)]
pub struct BlindPressure<S> {
    pub level: u8,
    pub stack_in_big_blinds: S,
    pub orbit_cost: u32,
    pub orbit_cost_as_stack_fraction: S,
    pub stack_after_one_folded_orbit: u32,
    pub stack_after_one_folded_orbit_in_big_blinds: S,
}

/// What one orbit of folds costs: every ante, the small blind and the big blind.
pub open spec fn orbit_cost_spec(level: BlindLevel, alive_players: u8) -> int {
    capped(level.per_player_ante * alive_players + level.small_blind + level.big_blind)
}

/// What one orbit of folds costs, at most the largest `u32`.
pub fn orbit_cost(level: BlindLevel, alive_players: u8) -> (r: u32)
    ensures
        r == orbit_cost_spec(level, alive_players),
{
    capped_product(level.per_player_ante, alive_players as u32).saturating_add(
        level.small_blind,
    ).saturating_add(level.big_blind)
}

/// What is left of a stack after one orbit of folds.
pub open spec fn stack_after_orbit(level: BlindLevel, alive_players: u8, stack: u32) -> u32 {
    let cost = orbit_cost_spec(level, alive_players);
    if cost >= stack {
        0
    } else {
        (stack - cost) as u32
    }
}

/// The pressure of a blind level on a stack.
pub open spec fn blind_pressure_spec<S: Scalar>(
    level: BlindLevel,
    alive_players: u8,
    stack: u32,
) -> BlindPressure<S> {
    let cost = orbit_cost_spec(level, alive_players) as u32;
    let after = stack_after_orbit(level, alive_players, stack);
    let big_blind = S::from_u32_spec(level.big_blind);
    BlindPressure {
        level: level.level,
        stack_in_big_blinds: S::from_u32_spec(stack).over_spec(big_blind),
        orbit_cost: cost,
        orbit_cost_as_stack_fraction: S::from_u32_spec(cost).over_spec(S::from_u32_spec(stack)),
        stack_after_one_folded_orbit: after,
        stack_after_one_folded_orbit_in_big_blinds: S::from_u32_spec(after).over_spec(big_blind),
    }
}

/// The pressure of a blind level on a stack.
pub fn blind_pressure<S: Scalar>(level: BlindLevel, alive_players: u8, stack: u32) -> (r:
    BlindPressure<S>)
    ensures
        r == blind_pressure_spec::<S>(level, alive_players, stack),
{
    let orbit_cost: u32 = orbit_cost(level, alive_players);
    let stack_after_one_folded_orbit: u32 = stack.saturating_sub(orbit_cost);
    let big_blind: S = S::from_u32(level.big_blind);
    BlindPressure {
        level: level.level,
        stack_in_big_blinds: S::from_u32(stack).over(big_blind),
        orbit_cost,
        orbit_cost_as_stack_fraction: S::from_u32(orbit_cost).over(S::from_u32(stack)),
        stack_after_one_folded_orbit,
        stack_after_one_folded_orbit_in_big_blinds: S::from_u32(stack_after_one_folded_orbit).over(
            big_blind,
        ),
    }
}

/// Another player at the table never makes an orbit cheaper.
pub proof fn orbit_cost_grows_with_players(level: BlindLevel, few: u8, many: u8)
    requires
        few <= many,
    ensures
        orbit_cost_spec(level, few) <= orbit_cost_spec(level, many),
{
    vstd::arithmetic::mul::lemma_mul_inequality(
        few as int,
        many as int,
        level.per_player_ante as int,
    );
    assert(level.per_player_ante * few == few * level.per_player_ante);
    assert(level.per_player_ante * many == many * level.per_player_ante);
}

} // verus!
