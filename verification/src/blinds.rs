//! Blind levels.
use vstd::prelude::*;

verus! {

/// What the players post at a level.
#[derive(Clone, Copy, Debug, PartialEq, Eq, Structural)]
pub struct BlindLevel {
    pub level: u8,
    pub small_blind: u32,
    pub big_blind: u32,
    pub per_player_ante: u32,
}

} // verus!
