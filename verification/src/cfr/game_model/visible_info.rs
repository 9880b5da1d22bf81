//! What the acting player can observe.

use vstd::prelude::*;
use crate::cfr::game_model::{PlayerNumber, UtilityForAllPlayers, MAX_MOVES, MAX_PLAYERS};
use std::hash::Hash;

verus! {

/// An information set: everything the player to move can see, and nothing of
/// what is hidden from them. Two game states that look alike to the mover
/// give equal values.
///
/// A verified game defines all of the trait. A game written in plain Rust
/// defines the executable methods alone: the specification functions then
/// keep their defaults, by which no value stands for a position, and
/// nothing is proved of such a game.
pub trait VisibleInfo: Sized + Eq + Hash {
    /// A legal action.
    type Move: Copy + Eq + Hash;

    /// The values that stand for a position of the game.
    open spec fn valid(&self) -> bool {
        false
    }

    open spec fn spec_players_playing(&self) -> PlayerNumber {
        1
    }

    open spec fn spec_turn(&self) -> PlayerNumber {
        0
    }

    /// The payoffs if play has ended here, `None` while it goes on.
    open spec fn terminal_utility(&self) -> Option<UtilityForAllPlayers> {
        None
    }

    /// The legal moves in the order `run_for_moves` reports them; meaningful
    /// while play goes on.
    open spec fn legal_moves(&self) -> Seq<Self::Move> {
        Seq::empty()
    }

    fn players_playing(&self) -> (n: PlayerNumber)
        requires
            self.valid(),
        ensures
            n == self.spec_players_playing(),
            1 <= n <= MAX_PLAYERS,
    ;

    fn turn(&self) -> (t: PlayerNumber)
        requires
            self.valid(),
        ensures
            t == self.spec_turn(),
    ;

    /// Whether `a` and `b` are the same information set.
    fn same_info(a: &Self, b: &Self) -> (same: bool)
        ensures
            same == (*a == *b),
    ;

    /// Whether `a` and `b` are the same move.
    fn same_move(a: &Self::Move, b: &Self::Move) -> (same: bool)
        ensures
            same == (*a == *b),
    ;

    /// Reports the legal moves by appending them to `moves`. Where play has
    /// ended it appends nothing and returns the final payoffs; otherwise it
    /// appends at least one move, and no more than `MAX_MOVES`, and returns
    /// `None`.
    fn run_for_moves(&self, moves: &mut Vec<Self::Move>) -> (terminal: Option<UtilityForAllPlayers>)
        requires
            self.valid(),
        ensures
            terminal == self.terminal_utility(),
            terminal matches Some(u) ==> u.bounded() && final(moves)@ == old(moves)@,
            terminal is None ==> final(moves)@ == old(moves)@ + self.legal_moves() && 0
                < self.legal_moves().len() <= MAX_MOVES,
    ;
}

} // verus!
