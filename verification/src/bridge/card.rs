//! The fifty-two cards.

use vstd::prelude::*;

verus! {

/// The number of suits.
pub const SUITS: u8 = 4;

/// The number of ranks in a suit.
pub const RANKS: u8 = 13;

#[derive(Clone, Copy, Debug, PartialEq, Eq, Hash, Structural)]
pub enum Suit {
    Clubs,
    Diamonds,
    Hearts,
    Spades,
}

impl Suit {
    /// The place of the suit among the suits, clubs first.
    pub open spec fn spec_n(&self) -> u8 {
        match self {
            Suit::Clubs => 0,
            Suit::Diamonds => 1,
            Suit::Hearts => 2,
            Suit::Spades => 3,
        }
    }

    /// The suit at place `n % 4`.
    pub open spec fn at(n: int) -> Suit {
        if n % 4 == 0 {
            Suit::Clubs
        } else if n % 4 == 1 {
            Suit::Diamonds
        } else if n % 4 == 2 {
            Suit::Hearts
        } else {
            Suit::Spades
        }
    }

    pub fn n(&self) -> (n: u8)
        ensures
            n == self.spec_n(),
            n < SUITS,
    {
        match self {
            Suit::Clubs => 0,
            Suit::Diamonds => 1,
            Suit::Hearts => 2,
            Suit::Spades => 3,
        }
    }

    /// The letter the suit is written with.
    pub open spec fn spec_symbol(&self) -> char {
        match self {
            Suit::Clubs => 'C',
            Suit::Diamonds => 'D',
            Suit::Hearts => 'H',
            Suit::Spades => 'S',
        }
    }

    pub fn symbol(&self) -> (c: char)
        ensures
            c == self.spec_symbol(),
    {
        match self {
            Suit::Clubs => 'C',
            Suit::Diamonds => 'D',
            Suit::Hearts => 'H',
            Suit::Spades => 'S',
        }
    }
}

/// The suits, clubs first.
pub fn all_suits() -> (suits: [Suit; 4])
    ensures
        forall|i: int| 0 <= i < 4 ==> (#[trigger] suits@[i]).spec_n() == i,
{
    [Suit::Clubs, Suit::Diamonds, Suit::Hearts, Suit::Spades]
}

#[derive(Clone, Copy, Debug, PartialEq, Eq, Hash, Structural)]
pub enum Rank {
    Two,
    Three,
    Four,
    Five,
    Six,
    Seven,
    Eight,
    Nine,
    Ten,
    Jack,
    Queen,
    King,
    Ace,
}

impl Rank {
    /// The place of the rank among the ranks, the two first.
    pub open spec fn spec_n(&self) -> u8 {
        match self {
            Rank::Two => 0,
            Rank::Three => 1,
            Rank::Four => 2,
            Rank::Five => 3,
            Rank::Six => 4,
            Rank::Seven => 5,
            Rank::Eight => 6,
            Rank::Nine => 7,
            Rank::Ten => 8,
            Rank::Jack => 9,
            Rank::Queen => 10,
            Rank::King => 11,
            Rank::Ace => 12,
        }
    }

    pub fn n(&self) -> (n: u8)
        ensures
            n == self.spec_n(),
            n < RANKS,
    {
        match self {
            Rank::Two => 0,
            Rank::Three => 1,
            Rank::Four => 2,
            Rank::Five => 3,
            Rank::Six => 4,
            Rank::Seven => 5,
            Rank::Eight => 6,
            Rank::Nine => 7,
            Rank::Ten => 8,
            Rank::Jack => 9,
            Rank::Queen => 10,
            Rank::King => 11,
            Rank::Ace => 12,
        }
    }

    /// The character the rank is written with.
    pub open spec fn spec_symbol(&self) -> char {
        match self {
            Rank::Two => '2',
            Rank::Three => '3',
            Rank::Four => '4',
            Rank::Five => '5',
            Rank::Six => '6',
            Rank::Seven => '7',
            Rank::Eight => '8',
            Rank::Nine => '9',
            Rank::Ten => 'T',
            Rank::Jack => 'J',
            Rank::Queen => 'Q',
            Rank::King => 'K',
            Rank::Ace => 'A',
        }
    }

    pub fn symbol(&self) -> (c: char)
        ensures
            c == self.spec_symbol(),
    {
        match self {
            Rank::Two => '2',
            Rank::Three => '3',
            Rank::Four => '4',
            Rank::Five => '5',
            Rank::Six => '6',
            Rank::Seven => '7',
            Rank::Eight => '8',
            Rank::Nine => '9',
            Rank::Ten => 'T',
            Rank::Jack => 'J',
            Rank::Queen => 'Q',
            Rank::King => 'K',
            Rank::Ace => 'A',
        }
    }
}

/// The ranks, the two first.
pub fn all_ranks() -> (ranks: [Rank; 13])
    ensures
        forall|i: int| 0 <= i < 13 ==> (#[trigger] ranks@[i]).spec_n() == i,
{
    [
        Rank::Two,
        Rank::Three,
        Rank::Four,
        Rank::Five,
        Rank::Six,
        Rank::Seven,
        Rank::Eight,
        Rank::Nine,
        Rank::Ten,
        Rank::Jack,
        Rank::Queen,
        Rank::King,
        Rank::Ace,
    ]
}

/// A card, held as its number: the cards count up through the clubs from
/// the two to the ace, then through the diamonds, the hearts and the
/// spades.
#[derive(Clone, Copy, Debug, Default, PartialEq, Eq, Hash, Structural)]
pub struct Card {
    pub n: u8,
}

impl Card {
    /// The number is that of one of the fifty-two cards.
    pub open spec fn wf(&self) -> bool {
        self.n < 52
    }

    pub open spec fn spec_suit(&self) -> Suit {
        if self.n < 13 {
            Suit::Clubs
        } else if self.n < 26 {
            Suit::Diamonds
        } else if self.n < 39 {
            Suit::Hearts
        } else {
            Suit::Spades
        }
    }

    pub open spec fn spec_rank(&self) -> Rank {
        let r = self.n % 13;
        if r == 0 {
            Rank::Two
        } else if r == 1 {
            Rank::Three
        } else if r == 2 {
            Rank::Four
        } else if r == 3 {
            Rank::Five
        } else if r == 4 {
            Rank::Six
        } else if r == 5 {
            Rank::Seven
        } else if r == 6 {
            Rank::Eight
        } else if r == 7 {
            Rank::Nine
        } else if r == 8 {
            Rank::Ten
        } else if r == 9 {
            Rank::Jack
        } else if r == 10 {
            Rank::Queen
        } else if r == 11 {
            Rank::King
        } else {
            Rank::Ace
        }
    }

    pub fn new(suit: Suit, rank: Rank) -> (card: Card)
        ensures
            card.wf(),
            card.n == suit.spec_n() * 13 + rank.spec_n(),
            card.spec_suit() == suit,
            card.spec_rank() == rank,
    {
        Self { n: suit.n() * RANKS + rank.n() }
    }

    pub fn suit(&self) -> (suit: Suit)
        requires
            self.wf(),
        ensures
            suit == self.spec_suit(),
            suit.spec_n() == self.n / 13,
    {
        self.rank_free_suit()
    }

    /// The suit the number of the card falls in, whatever the number.
    pub fn rank_free_suit(&self) -> (suit: Suit)
        ensures
            suit == self.spec_suit(),
    {
        if self.n < 13 {
            Suit::Clubs
        } else if self.n < 26 {
            Suit::Diamonds
        } else if self.n < 39 {
            Suit::Hearts
        } else {
            Suit::Spades
        }
    }

    pub fn rank(&self) -> (rank: Rank)
        ensures
            rank == self.spec_rank(),
            rank.spec_n() == self.n % 13,
    {
        let r = self.n % 13;
        if r == 0 {
            Rank::Two
        } else if r == 1 {
            Rank::Three
        } else if r == 2 {
            Rank::Four
        } else if r == 3 {
            Rank::Five
        } else if r == 4 {
            Rank::Six
        } else if r == 5 {
            Rank::Seven
        } else if r == 6 {
            Rank::Eight
        } else if r == 7 {
            Rank::Nine
        } else if r == 8 {
            Rank::Ten
        } else if r == 9 {
            Rank::Jack
        } else if r == 10 {
            Rank::Queen
        } else if r == 11 {
            Rank::King
        } else {
            Rank::Ace
        }
    }

    /// The two characters a card is written with: its rank, then its suit.
    pub fn symbols(&self) -> (text: (char, char))
        requires
            self.wf(),
        ensures
            text.0 == self.spec_rank().spec_symbol(),
            text.1 == self.spec_suit().spec_symbol(),
    {
        (self.rank().symbol(), self.suit().symbol())
    }
}

/// All the cards, in the order of their numbers.
pub fn all_cards() -> (cards: Vec<Card>)
    ensures
        cards@.len() == 52,
        forall|i: int| 0 <= i < 52 ==> (#[trigger] cards@[i]).n == i,
{
    let mut res: Vec<Card> = Vec::new();
    let suits = all_suits();
    let ranks = all_ranks();
    let mut s: usize = 0;
    while s < 4
        invariant
            s <= 4,
            res@.len() == s * 13,
            forall|i: int| 0 <= i < res@.len() ==> (#[trigger] res@[i]).n == i,
            forall|i: int| 0 <= i < 4 ==> (#[trigger] suits@[i]).spec_n() == i,
            forall|i: int| 0 <= i < 13 ==> (#[trigger] ranks@[i]).spec_n() == i,
        decreases 4 - s,
    {
        let mut r: usize = 0;
        while r < 13
            invariant
                s < 4,
                r <= 13,
                res@.len() == s * 13 + r,
                forall|i: int| 0 <= i < res@.len() ==> (#[trigger] res@[i]).n == i,
                forall|i: int| 0 <= i < 4 ==> (#[trigger] suits@[i]).spec_n() == i,
                forall|i: int| 0 <= i < 13 ==> (#[trigger] ranks@[i]).spec_n() == i,
            decreases 13 - r,
        {
            res.push(Card::new(suits[s], ranks[r]));
            r += 1;
        }
        s += 1;
    }
    res
}

} // verus!
