//! The card play of contract bridge.

pub mod card;
pub mod contract;
pub mod seat;
pub mod hand;
pub mod game;
pub mod sampler;
pub mod ranking;
pub mod player_info;
pub mod gamestate;
pub mod gamestate_sampler;
