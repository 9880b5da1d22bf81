//! What the seat to play sees of a deal, with the cards ranked as they
//! rank once the cards played are out of play.

use vstd::prelude::*;
use crate::bridge::card::{Card, Suit};
use crate::bridge::contract::Contract;
use crate::bridge::game;
use crate::bridge::hand;
use crate::bridge::hand::Hand;
use crate::bridge::seat::Seat;
use crate::cfr::game_model::{PlayerNumber, UtilityForAllPlayers, VisibleInfo, PROBABILITY_ONE};

verus! {

/// The cards of the running trick, in the order they were played; the
/// places not taken hold the first card of the pack.
#[derive(Debug, Clone, Copy, Hash, PartialEq, Eq)]
pub struct Trick {
    pub len: usize,
    pub cards: [Card; 4],
}

impl Trick {
    pub open spec fn wf(&self) -> bool {
        &&& self.len <= 3
        &&& forall|i: int| 0 <= i < 4 ==> (#[trigger] self.cards@[i]).wf()
        &&& forall|i: int| self.len <= i < 4 ==> (#[trigger] self.cards@[i]).n == 0
    }

    /// The trick before a card is played to it.
    pub open spec fn spec_new() -> Trick {
        Trick { len: 0, cards: [Card { n: 0 }, Card { n: 0 }, Card { n: 0 }, Card { n: 0 }] }
    }

    /// The trick after `card` was played to it.
    pub open spec fn spec_push(&self, card: Card) -> Trick {
        Trick {
            len: (self.len + 1) as usize,
            cards: vstd::array::spec_array_update(self.cards, self.len as int, card),
        }
    }

    /// The card that was led, if one was.
    pub open spec fn spec_first(&self) -> Option<Card> {
        if self.len > 0 {
            Some(self.cards@[0])
        } else {
            None
        }
    }

    pub fn new() -> (trick: Trick)
        ensures
            trick == Trick::spec_new(),
            trick.wf(),
    {
        let c = Card { n: 0 };
        let trick = Trick { len: 0, cards: [c, c, c, c] };
        proof {
            assert(trick.cards =~= Trick::spec_new().cards);
        }
        trick
    }

    pub fn push(&mut self, card: Card)
        requires
            old(self).wf(),
            old(self).len < 3,
            card.wf(),
        ensures
            *final(self) == old(self).spec_push(card),
            final(self).wf(),
    {
        broadcast use vstd::array::group_array_axioms;

        self.cards[self.len] = card;
        self.len = self.len + 1;
        proof {
            assert(self.cards =~= vstd::array::spec_array_update(
                old(self).cards,
                old(self).len as int,
                card,
            ));
            assert forall|i: int| self.len <= i < 4 implies (#[trigger] self.cards@[i]).n == 0 by {
                assert(old(self).cards@[i].n == 0);
            }
            assert forall|i: int| 0 <= i < 4 implies (#[trigger] self.cards@[i]).wf() by {
                if i != old(self).len {
                    assert(old(self).cards@[i].wf());
                }
            }
        }
    }

    /// Whether the tricks are the same.
    pub fn same(&self, other: &Trick) -> (same: bool)
        ensures
            same == (*self == *other),
    {
        let same = self.len == other.len && self.cards[0].n == other.cards[0].n && self.cards[1].n
            == other.cards[1].n && self.cards[2].n == other.cards[2].n && self.cards[3].n
            == other.cards[3].n;
        proof {
            if same {
                assert(self.cards@ =~= other.cards@);
                assert(self.cards == other.cards);
            }
        }
        same
    }

    pub fn first(&self) -> (card: Option<Card>)
        ensures
            card == self.spec_first(),
    {
        if self.len > 0 {
            Some(self.cards[0])
        } else {
            None
        }
    }
}

/// What the seat to play sees while play goes on.
#[derive(Clone, Copy, Debug, Hash, PartialEq, Eq)]
pub struct InfoForTurnPlayer {
    pub player: Seat,
    pub declarer_tricks: u8,
    pub my_hand: Hand,
    /// The other hand that is seen: the dummy's, or the declarer's where
    /// the dummy is to play.
    pub other_visible_hand: Hand,
    pub cards_in_other_hands: Hand,
    pub current_trick: Trick,
}

/// What the seat to play sees.
#[derive(Clone, Copy, Debug, Hash, PartialEq, Eq)]
pub enum VisibleInfoForBridgePlayer {
    InPlay(InfoForTurnPlayer),
    Terminal { contract: Contract, declarer_tricks: u8 },
}

impl InfoForTurnPlayer {
    /// The cards that may be played: where a card was led and the hand
    /// holds cards of its suit, those; else any card of the hand.
    pub open spec fn spec_moves(&self) -> Seq<Card> {
        let cards = self.my_hand.spec_cards();
        match self.current_trick.spec_first() {
            Some(lead_card) => {
                let matching = hand::of_suit(cards, lead_card.spec_suit());
                if matching.len() > 0 {
                    matching
                } else {
                    cards
                }
            },
            None => cards,
        }
    }
}

impl VisibleInfo for VisibleInfoForBridgePlayer {
    type Move = Card;

    /// While play goes on the seat to play holds a card; once it has
    /// ended, the level of the contract and the tricks won are those of a
    /// deal.
    open spec fn valid(&self) -> bool {
        match self {
            VisibleInfoForBridgePlayer::InPlay(s) => {
                &&& s.my_hand.wf()
                &&& s.my_hand.bitset != 0
                &&& s.current_trick.wf()
            },
            VisibleInfoForBridgePlayer::Terminal { contract, declarer_tricks } => {
                &&& contract.wf()
                &&& *declarer_tricks <= 13
            },
        }
    }

    open spec fn spec_players_playing(&self) -> PlayerNumber {
        4
    }

    open spec fn spec_turn(&self) -> PlayerNumber {
        match self {
            VisibleInfoForBridgePlayer::InPlay(s) => s.player.spec_number() as usize,
            VisibleInfoForBridgePlayer::Terminal { .. } => 0,
        }
    }

    open spec fn terminal_utility(&self) -> Option<UtilityForAllPlayers> {
        match self {
            VisibleInfoForBridgePlayer::InPlay(_) => None,
            VisibleInfoForBridgePlayer::Terminal { contract, declarer_tricks } => Some(
                game::payoffs_for_points(contract.spec_declarer_points(*declarer_tricks as int)),
            ),
        }
    }

    open spec fn legal_moves(&self) -> Seq<Card> {
        match self {
            VisibleInfoForBridgePlayer::InPlay(s) => s.spec_moves(),
            VisibleInfoForBridgePlayer::Terminal { .. } => Seq::empty(),
        }
    }

    fn players_playing(&self) -> (n: PlayerNumber) {
        4
    }

    fn turn(&self) -> (t: PlayerNumber) {
        match self {
            VisibleInfoForBridgePlayer::InPlay(s) => match s.player {
                Seat::Declarer => 0,
                Seat::AfterDeclarer => 1,
                Seat::Dummy => 2,
                Seat::BeforeDeclarer => 3,
            },
            VisibleInfoForBridgePlayer::Terminal { .. } => 0,
        }
    }

    fn same_info(a: &VisibleInfoForBridgePlayer, b: &VisibleInfoForBridgePlayer) -> (same: bool) {
        match (a, b) {
            (VisibleInfoForBridgePlayer::InPlay(s), VisibleInfoForBridgePlayer::InPlay(t)) => {
                s.player == t.player && s.declarer_tricks == t.declarer_tricks && s.my_hand.bitset
                    == t.my_hand.bitset && s.other_visible_hand.bitset == t.other_visible_hand.bitset
                    && s.cards_in_other_hands.bitset == t.cards_in_other_hands.bitset
                    && s.current_trick.same(&t.current_trick)
            },
            (
                VisibleInfoForBridgePlayer::Terminal { contract: c1, declarer_tricks: t1 },
                VisibleInfoForBridgePlayer::Terminal { contract: c2, declarer_tricks: t2 },
            ) => *c1 == *c2 && *t1 == *t2,
            _ => false,
        }
    }

    fn same_move(a: &Card, b: &Card) -> (same: bool) {
        a.n == b.n
    }

    fn run_for_moves(&self, moves: &mut Vec<Card>) -> (terminal: Option<UtilityForAllPlayers>) {
        match self {
            VisibleInfoForBridgePlayer::InPlay(s) => {
                proof {
                    game::lemma_cards_of_hand(s.my_hand.bitset, Suit::Clubs);
                }
                match s.current_trick.first() {
                    Some(lead_card) => {
                        proof {
                            assert(lead_card == s.current_trick.cards@[0]);
                            game::lemma_cards_of_hand(s.my_hand.bitset, lead_card.spec_suit());
                        }
                        let mut matching = s.my_hand.cards_for_suit(lead_card.suit());
                        // We have no on suit cards apparently
                        if matching.len() > 0 {
                            moves.append(&mut matching);
                        } else {
                            s.my_hand.run_for_cards(moves);
                        }
                    },
                    None => {
                        s.my_hand.run_for_cards(moves);
                    },
                }
                None
            },
            VisibleInfoForBridgePlayer::Terminal { contract, declarer_tricks } => {
                let points = contract.declarer_points(*declarer_tricks as i32);
                let value: i64 = (points as i64) * (PROBABILITY_ONE as i64);
                let u = UtilityForAllPlayers { util: [value, -value, value, -value] };
                proof {
                    assert(u.util =~= game::payoffs_for_points(points as int).util);
                }
                Some(u)
            },
        }
    }
}

} // verus!
