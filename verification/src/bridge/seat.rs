//! The four seats at the table.

use vstd::prelude::*;

verus! {

/// A seat, named by where it lies with respect to the declarer. Play goes
/// round from the declarer to the seat after it, the dummy, and the seat
/// before the declarer.
#[derive(Debug, Clone, Copy, Hash, PartialEq, Eq, Structural)]
pub enum Seat {
    Declarer,
    AfterDeclarer,
    Dummy,
    BeforeDeclarer,
}

impl Default for Seat {
    fn default() -> (seat: Seat)
        ensures
            seat == Seat::Declarer,
    {
        Self::Declarer
    }
}

impl Seat {
    /// The place of the seat in the order of play, the declarer first.
    pub open spec fn spec_number(&self) -> int {
        match self {
            Seat::Declarer => 0,
            Seat::AfterDeclarer => 1,
            Seat::Dummy => 2,
            Seat::BeforeDeclarer => 3,
        }
    }

    /// The seat whose place in the order of play is `n` modulo four.
    pub open spec fn at(n: int) -> Seat {
        if n % 4 == 0 {
            Seat::Declarer
        } else if n % 4 == 1 {
            Seat::AfterDeclarer
        } else if n % 4 == 2 {
            Seat::Dummy
        } else {
            Seat::BeforeDeclarer
        }
    }

    /// The seat that plays after this one.
    pub fn next(&self) -> (seat: Seat)
        ensures
            seat == Seat::at(self.spec_number() + 1),
    {
        match self {
            Seat::Declarer => Self::AfterDeclarer,
            Seat::AfterDeclarer => Self::Dummy,
            Seat::Dummy => Self::BeforeDeclarer,
            Seat::BeforeDeclarer => Self::Declarer,
        }
    }

    /// The seat that plays before this one.
    pub fn prev(&self) -> (seat: Seat)
        ensures
            seat == Seat::at(self.spec_number() + 3),
    {
        match self {
            Seat::Declarer => Self::BeforeDeclarer,
            Seat::AfterDeclarer => Self::Declarer,
            Seat::Dummy => Self::AfterDeclarer,
            Seat::BeforeDeclarer => Self::Dummy,
        }
    }

    /// The number of the seat as a player of the game.
    pub fn number(&self) -> (n: usize)
        ensures
            n == self.spec_number(),
    {
        match self {
            Seat::Declarer => 0,
            Seat::AfterDeclarer => 1,
            Seat::Dummy => 2,
            Seat::BeforeDeclarer => 3,
        }
    }

    /// Whether the seat belongs to the declaring side.
    pub fn declaring_side(&self) -> (declaring: bool)
        ensures
            declaring == (self.spec_number() % 2 == 0),
    {
        match self {
            Seat::Declarer => true,
            Seat::AfterDeclarer => false,
            Seat::Dummy => true,
            Seat::BeforeDeclarer => false,
        }
    }
}

} // verus!
