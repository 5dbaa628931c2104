//! Capacities of the engine and the card sentinel, fixed at compile time.
use vstd::prelude::*;

verus! {

/// A playing card, encoded as rank * 4 + suit with ranks 0 (deuce) to
/// 12 (ace) and suits 0 (clubs), 1 (diamonds), 2 (hearts), 3 (spades).
pub type Card = u8;

pub const MAX_PLAYERS: usize = 6;

pub const ROUNDS: usize = 4;

pub const PRIVATE_CARD_AMOUNT: usize = 2;

pub const COMMUNITY_CARD_AMOUNT: usize = 5;

/// Sentinel for an unseated or not yet dealt card slot.
pub const NO_CARD_PLACEHOLDER: Card = 52;

pub const STACK_SIZE: u32 = 10_000;

pub const SMALL_BLIND: u32 = 50;

pub const BIG_BLIND: u32 = 100;

/// Upper bound on the chips one seat can ever own in a hand: the sum of a
/// player's stack and committed bets never exceeds this, which keeps every
/// chip computation of the engine inside `u32` and every payoff inside
/// `i32`.
pub const PLAYER_CHIP_LIMIT: u32 = 10_000_000;

} // verus!
