//! What the solver consumes from a game, and the numeric types they share.

use vstd::prelude::*;

pub mod gamestate_sampler;
pub mod oracle_gamestate;
pub mod utility;
pub mod visible_info;

pub use gamestate_sampler::{GamestateSampler, RandomGamestateIterator};
pub use oracle_gamestate::OracleGamestate;
pub use utility::{Utility, UtilityForAllPlayers, MAX_PLAYERS, MAX_UTILITY};
pub use visible_info::VisibleInfo;

verus! {

/// Index of a player, counted from zero.
pub type PlayerNumber = usize;

/// A probability in billionths: `PROBABILITY_ONE` stands for certainty.
pub type Probability = u64;

/// The fixed-point representation of probability one.
pub const PROBABILITY_ONE: u64 = 1_000_000_000;

/// The largest number of legal moves a position may offer. With no more
/// moves than this, rounding keeps the probabilities of the moves of one
/// position within a millionth of adding up to one.
pub const MAX_MOVES: usize = 1000;

} // verus!
