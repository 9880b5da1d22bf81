//! Counterfactual regret minimisation for finite, zero-sum, turn-based games
//! of imperfect information, with the games that exercise it.
//!
//! All quantities are exact fixed-point integers: a probability is a count of
//! billionths, a utility a signed count of billionths of one payoff unit.

pub mod bridge;
pub mod cfr;
pub mod tic_tac_toe;
