//! The solver: the interfaces a game implements and the strategy generation
//! built on them.

pub mod game_model;
pub mod strategy_generation;
