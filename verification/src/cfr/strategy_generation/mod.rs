//! Building a strategy by repeated regret-minimising traversals.

pub mod config;
pub mod workspace_data;
pub mod cfr_algorithm_impl;
pub mod update_strategy;
pub mod strategy;
pub mod strategy_generator;
pub mod decided_game;
