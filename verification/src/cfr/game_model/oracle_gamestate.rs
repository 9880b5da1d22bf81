//! The full state of one playout.

use vstd::prelude::*;
use crate::cfr::game_model::{PlayerNumber, VisibleInfo};

verus! {

/// A game state with nothing hidden. States are immutable: `advance` builds
/// the successor.
///
/// As with `VisibleInfo`, a game written in plain Rust defines the
/// executable methods alone.
pub trait OracleGamestate<INFO: VisibleInfo>: Sized {
    /// The values that stand for a reachable state of the game.
    open spec fn valid(&self) -> bool {
        false
    }

    /// What the player to move observes.
    open spec fn spec_info(&self) -> INFO {
        arbitrary()
    }

    /// The state after the player to move plays `m`.
    open spec fn spec_advance(&self, m: INFO::Move) -> Self {
        arbitrary()
    }

    /// An upper bound on the number of moves until play ends.
    open spec fn remaining(&self) -> nat {
        0
    }

    fn info_for_turn_player(&self) -> (info: INFO)
        requires
            self.valid(),
        ensures
            info == self.spec_info(),
            info.valid(),
    ;

    fn players_playing(&self) -> (n: PlayerNumber)
        requires
            self.valid(),
        ensures
            n == self.spec_info().spec_players_playing(),
    ;

    fn turn(&self) -> (t: PlayerNumber)
        requires
            self.valid(),
        ensures
            t == self.spec_info().spec_turn(),
    ;

    /// The state after the legal move `m`: a state of the game, and
    /// strictly nearer to the end of play.
    fn advance(&self, m: &INFO::Move) -> (next: Self)
        requires
            self.valid(),
            self.spec_info().terminal_utility() is None,
            self.spec_info().legal_moves().contains(*m),
        ensures
            next == self.spec_advance(*m),
            next.valid(),
            next.remaining() < self.remaining(),
    ;
}

} // verus!
