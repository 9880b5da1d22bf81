//! The play of the cards as a game for the solver: what each seat sees, and
//! how a state follows from a card played.

use vstd::prelude::*;
use crate::bridge::card::{Card, Suit};
use crate::bridge::contract::Contract;
use crate::bridge::hand;
use crate::bridge::hand::Hand;
use crate::bridge::seat::Seat;
use crate::cfr::game_model::{
    OracleGamestate, PlayerNumber, UtilityForAllPlayers, VisibleInfo, PROBABILITY_ONE,
};

verus! {

/// What every seat can see.
#[derive(Debug, Clone, Copy, Eq, PartialEq, Hash)]
pub struct UniversalInformation {
    pub contract: Contract,
    pub declarer_tricks: u8,
    pub defender_tricks: u8,
    /// The seat noted as having led to the running trick, with the card
    /// noted as led; `None` between tricks.
    pub lead: Option<(Seat, Card)>,
    pub dummy_hand: Hand,
    pub cards_played: Hand,
}

#[derive(Debug, Clone, Copy, Hash, PartialEq, Eq)]
pub struct DeclarerInfoSet {
    pub universal_information: UniversalInformation,
    pub declarer_hand: Hand,
}

/// What is seen when the dummy is to play: the declarer plays its cards.
#[derive(Debug, Clone, Copy, Hash, PartialEq, Eq)]
pub struct DummyInfoSet {
    pub universal_information: UniversalInformation,
    pub declarer_hand: Hand,
}

#[derive(Debug, Clone, Copy, Hash, PartialEq, Eq)]
pub struct BeforeDeclarerInfoSet {
    pub universal_information: UniversalInformation,
    pub before_hand: Hand,
}

#[derive(Debug, Clone, Copy, Hash, PartialEq, Eq)]
pub struct AfterDeclarerInfoSet {
    pub universal_information: UniversalInformation,
    pub after_hand: Hand,
}

/// What the seat to play can see: what every seat sees, and its own hand.
#[derive(Debug, Clone, Copy, Hash, PartialEq, Eq)]
pub enum BridgeInfoSet {
    Declarer(DeclarerInfoSet),
    AfterDeclarer(AfterDeclarerInfoSet),
    Dummy(DummyInfoSet),
    BeforeDeclarer(BeforeDeclarerInfoSet),
}

/// The payoffs of a deal in which the declaring side has scored `points`:
/// the points to each seat of the declaring side, and as many against each
/// defender.
pub open spec fn payoffs_for_points(points: int) -> UtilityForAllPlayers {
    UtilityForAllPlayers {
        util: [
            (points * PROBABILITY_ONE) as i64,
            (-(points * PROBABILITY_ONE)) as i64,
            (points * PROBABILITY_ONE) as i64,
            (-(points * PROBABILITY_ONE)) as i64,
        ],
    }
}

impl BridgeInfoSet {
    pub open spec fn spec_seat(&self) -> Seat {
        match self {
            BridgeInfoSet::Declarer(_) => Seat::Declarer,
            BridgeInfoSet::AfterDeclarer(_) => Seat::AfterDeclarer,
            BridgeInfoSet::Dummy(_) => Seat::Dummy,
            BridgeInfoSet::BeforeDeclarer(_) => Seat::BeforeDeclarer,
        }
    }

    /// The hand that is played from.
    pub open spec fn spec_turn_player_hand(&self) -> Hand {
        match self {
            BridgeInfoSet::Declarer(i) => i.declarer_hand,
            BridgeInfoSet::AfterDeclarer(i) => i.after_hand,
            BridgeInfoSet::Dummy(i) => i.universal_information.dummy_hand,
            BridgeInfoSet::BeforeDeclarer(i) => i.before_hand,
        }
    }

    pub open spec fn spec_universal_information(&self) -> UniversalInformation {
        match self {
            BridgeInfoSet::Declarer(i) => i.universal_information,
            BridgeInfoSet::AfterDeclarer(i) => i.universal_information,
            BridgeInfoSet::Dummy(i) => i.universal_information,
            BridgeInfoSet::BeforeDeclarer(i) => i.universal_information,
        }
    }

    /// The cards that may be played: where a card was led and the hand
    /// holds cards of its suit, those; else any card of the hand.
    pub open spec fn spec_moves(&self) -> Seq<Card> {
        let cards = self.spec_turn_player_hand().spec_cards();
        match self.spec_universal_information().lead {
            Some((_, lead_card)) => {
                let matching = hand::of_suit(cards, lead_card.spec_suit());
                if matching.len() > 0 {
                    matching
                } else {
                    cards
                }
            },
            None => cards,
        }
    }

    /// The payoffs once the hand to play from is empty: what the contract
    /// scores for the tricks the declaring side has won.
    pub open spec fn spec_terminal(&self) -> Option<UtilityForAllPlayers> {
        if self.spec_turn_player_hand().bitset == 0 {
            let universal = self.spec_universal_information();
            Some(
                payoffs_for_points(
                    universal.contract.spec_declarer_points(universal.declarer_tricks as int),
                ),
            )
        } else {
            None
        }
    }

    pub fn seat(&self) -> (seat: Seat)
        ensures
            seat == self.spec_seat(),
    {
        match self {
            BridgeInfoSet::Declarer(_) => Seat::Declarer,
            BridgeInfoSet::AfterDeclarer(_) => Seat::AfterDeclarer,
            BridgeInfoSet::Dummy(_) => Seat::Dummy,
            BridgeInfoSet::BeforeDeclarer(_) => Seat::BeforeDeclarer,
        }
    }

    /// The cards that may be played, none once play has ended.
    pub fn moves(&self) -> (moves: Vec<Card>)
        requires
            self.valid(),
        ensures
            moves@ == (if self.spec_terminal() is Some {
                Seq::<Card>::empty()
            } else {
                self.spec_moves()
            }),
    {
        let mut res: Vec<Card> = Vec::new();
        let _terminal = self.run_for_moves(&mut res);
        res
    }

    pub fn turn_player_hand(&self) -> (hand: &Hand)
        ensures
            *hand == self.spec_turn_player_hand(),
    {
        match self {
            BridgeInfoSet::Declarer(i) => &i.declarer_hand,
            BridgeInfoSet::AfterDeclarer(i) => &i.after_hand,
            BridgeInfoSet::Dummy(i) => &i.universal_information.dummy_hand,
            BridgeInfoSet::BeforeDeclarer(i) => &i.before_hand,
        }
    }

    pub fn universal_information(&self) -> (universal: &UniversalInformation)
        ensures
            *universal == self.spec_universal_information(),
    {
        match self {
            BridgeInfoSet::Declarer(i) => &i.universal_information,
            BridgeInfoSet::AfterDeclarer(i) => &i.universal_information,
            BridgeInfoSet::Dummy(i) => &i.universal_information,
            BridgeInfoSet::BeforeDeclarer(i) => &i.universal_information,
        }
    }
}

/// The cards of a hand are cards, and those of one suit are among them.
pub proof fn lemma_cards_of_hand(bits: u64, suit: Suit)
    requires
        bits < 0x10_0000_0000_0000u64,
    ensures
        hand::cards_below(bits, 52).len() <= 52,
        bits != 0 ==> hand::cards_below(bits, 52).len() > 0,
        forall|i: int|
            0 <= i < hand::cards_below(bits, 52).len() ==> {
                &&& (#[trigger] hand::cards_below(bits, 52)[i]).wf()
                &&& hand::bit_is_set(bits, hand::cards_below(bits, 52)[i].n)
            },
        hand::of_suit(hand::cards_below(bits, 52), suit).len() <= 52,
        forall|i: int|
            0 <= i < hand::of_suit(hand::cards_below(bits, 52), suit).len() ==> {
                &&& (#[trigger] hand::of_suit(hand::cards_below(bits, 52), suit)[i]).wf()
                &&& hand::bit_is_set(bits, hand::of_suit(hand::cards_below(bits, 52), suit)[i].n)
            },
{
    let cards = hand::cards_below(bits, 52);
    hand::lemma_count_below(bits, 52);
    if bits != 0 {
        if cards.len() == 0 {
            assert forall|n: u8| n < 52 implies !hand::bit_is_set(bits, n) by {
                if hand::bit_is_set(bits, n) {
                    assert(cards.contains(Card { n }));
                }
            }
            hand::lemma_no_card_set(bits);
        }
    }
    let pred = |c: Card| c.spec_suit() == suit;
    cards.lemma_filter_len(pred);
    let matching = cards.filter(pred);
    assert forall|i: int| 0 <= i < matching.len() implies {
        &&& (#[trigger] matching[i]).wf()
        &&& hand::bit_is_set(bits, matching[i].n)
    } by {
        assert(matching.contains(matching[i]));
        cards.lemma_filter_contains_rev(pred, matching[i]);
        assert(cards.contains(matching[i]));
        let j = choose|j: int| 0 <= j < cards.len() && cards[j] == matching[i];
        assert(cards[j].wf());
    }
}

/// Whether what all seats see is the same.
pub fn same_universal(a: &UniversalInformation, b: &UniversalInformation) -> (same: bool)
    ensures
        same == (*a == *b),
{
    let same_lead = match (a.lead, b.lead) {
        (Some((seat_a, card_a)), Some((seat_b, card_b))) => seat_a == seat_b && card_a.n
            == card_b.n,
        (None, None) => true,
        _ => false,
    };
    same_lead && a.contract == b.contract && a.declarer_tricks == b.declarer_tricks
        && a.defender_tricks == b.defender_tricks && a.dummy_hand.bitset == b.dummy_hand.bitset
        && a.cards_played.bitset == b.cards_played.bitset
}

impl VisibleInfo for BridgeInfoSet {
    type Move = Card;

    /// The level of the contract and the tricks won are those of a deal,
    /// and the hand to play from holds cards only.
    open spec fn valid(&self) -> bool {
        &&& self.spec_universal_information().contract.wf()
        &&& self.spec_universal_information().declarer_tricks <= 13
        &&& self.spec_turn_player_hand().wf()
    }

    open spec fn spec_players_playing(&self) -> PlayerNumber {
        4
    }

    open spec fn spec_turn(&self) -> PlayerNumber {
        self.spec_seat().spec_number() as usize
    }

    open spec fn terminal_utility(&self) -> Option<UtilityForAllPlayers> {
        self.spec_terminal()
    }

    open spec fn legal_moves(&self) -> Seq<Card> {
        self.spec_moves()
    }

    fn players_playing(&self) -> (n: PlayerNumber) {
        4
    }

    fn turn(&self) -> (t: PlayerNumber) {
        match self {
            BridgeInfoSet::Declarer(_) => 0,
            BridgeInfoSet::AfterDeclarer(_) => 1,
            BridgeInfoSet::Dummy(_) => 2,
            BridgeInfoSet::BeforeDeclarer(_) => 3,
        }
    }

    fn same_info(a: &BridgeInfoSet, b: &BridgeInfoSet) -> (same: bool) {
        match (a, b) {
            (BridgeInfoSet::Declarer(s), BridgeInfoSet::Declarer(t)) => s.declarer_hand.bitset
                == t.declarer_hand.bitset && same_universal(
                &s.universal_information,
                &t.universal_information,
            ),
            (BridgeInfoSet::Dummy(s), BridgeInfoSet::Dummy(t)) => s.declarer_hand.bitset
                == t.declarer_hand.bitset && same_universal(
                &s.universal_information,
                &t.universal_information,
            ),
            (BridgeInfoSet::BeforeDeclarer(s), BridgeInfoSet::BeforeDeclarer(t)) => s.before_hand.bitset
                == t.before_hand.bitset && same_universal(
                &s.universal_information,
                &t.universal_information,
            ),
            (BridgeInfoSet::AfterDeclarer(s), BridgeInfoSet::AfterDeclarer(t)) => s.after_hand.bitset
                == t.after_hand.bitset && same_universal(
                &s.universal_information,
                &t.universal_information,
            ),
            _ => false,
        }
    }

    fn same_move(a: &Card, b: &Card) -> (same: bool) {
        a.n == b.n
    }

    fn run_for_moves(&self, moves: &mut Vec<Card>) -> (terminal: Option<UtilityForAllPlayers>) {
        let universal_info = self.universal_information();
        let hand = self.turn_player_hand();
        if hand.is_empty() {
            let tricks_for_declarer = universal_info.declarer_tricks;
            let points = universal_info.contract.declarer_points(tricks_for_declarer as i32);
            let value: i64 = (points as i64) * (PROBABILITY_ONE as i64);
            let u = UtilityForAllPlayers { util: [value, -value, value, -value] };
            proof {
                assert(u.util =~= payoffs_for_points(points as int).util);
            }
            return Some(u);
        }
        proof {
            lemma_cards_of_hand(hand.bitset, Suit::Clubs);
        }
        let lead_suit = match universal_info.lead {
            Some((_, lead_card)) => lead_card.rank_free_suit(),
            None => {
                hand.run_for_cards(moves);
                return None;
            },
        };
        let mut matching = hand.cards_for_suit(lead_suit);
        proof {
            lemma_cards_of_hand(hand.bitset, lead_suit);
        }
        if matching.len() > 0 {
            moves.append(&mut matching);
        } else {
            hand.run_for_cards(moves);
        }
        None
    }
}

/// The cards played so far, in the order they were played.
#[derive(Debug, Clone, Copy, Hash, PartialEq, Eq)]
pub struct PlayedCards {
    pub len: usize,
    pub cards: [Card; 52],
}

impl View for PlayedCards {
    type V = Seq<Card>;

    open spec fn view(&self) -> Seq<Card> {
        self.cards@.subrange(0, self.len as int)
    }
}

impl PlayedCards {
    pub open spec fn wf(&self) -> bool {
        &&& self.len <= 52
        &&& forall|i: int| 0 <= i < 52 ==> (#[trigger] self.cards@[i]).wf()
    }

    /// The cards after `card` was played.
    pub open spec fn spec_push(&self, card: Card) -> PlayedCards {
        PlayedCards {
            len: (self.len + 1) as usize,
            cards: vstd::array::spec_array_update(self.cards, self.len as int, card),
        }
    }

    pub fn new() -> (played: PlayedCards)
        ensures
            played.wf(),
            played.len == 0,
    {
        let c = Card { n: 0 };
        PlayedCards {
            len: 0,
            cards: [
                c, c, c, c, c, c, c, c, c, c, c, c, c,
                c, c, c, c, c, c, c, c, c, c, c, c, c,
                c, c, c, c, c, c, c, c, c, c, c, c, c,
                c, c, c, c, c, c, c, c, c, c, c, c, c,
            ],
        }
    }

    pub fn push(&mut self, card: Card)
        requires
            old(self).wf(),
            old(self).len < 52,
            card.wf(),
        ensures
            *final(self) == old(self).spec_push(card),
            final(self).wf(),
            final(self)@ == old(self)@.push(card),
    {
        broadcast use vstd::array::group_array_axioms;

        self.cards[self.len] = card;
        self.len = self.len + 1;
        proof {
            assert(self.cards =~= vstd::array::spec_array_update(
                old(self).cards,
                old(self).len as int,
                card,
            ));
            assert(self@ =~= old(self)@.push(card));
        }
    }

    pub fn len(&self) -> (n: usize)
        ensures
            n == self.len,
    {
        self.len
    }

    /// The cards of `hand` as cards played, in the order of their numbers.
    pub fn from_hand(hand: &Hand) -> (played: PlayedCards)
        requires
            hand.wf(),
        ensures
            played.wf(),
            played@ == hand.spec_cards(),
            played.len == hand.spec_len(),
    {
        let cards = hand.cards();
        proof {
            hand::lemma_count_below(hand.bitset, 52);
        }
        let mut played = PlayedCards::new();
        let mut i: usize = 0;
        while i < cards.len()
            invariant
                i <= cards@.len(),
                cards@.len() <= 52,
                played.wf(),
                played.len == i,
                played@ == cards@.subrange(0, i as int),
                forall|j: int| 0 <= j < cards@.len() ==> (#[trigger] cards@[j]).wf(),
            decreases cards@.len() - i,
        {
            proof {
                assert(cards@[i as int].wf());
            }
            played.push(cards[i]);
            i += 1;
            proof {
                assert(cards@.subrange(0, i as int) =~= cards@.subrange(0, i - 1).push(
                    cards@[i - 1],
                ));
            }
        }
        proof {
            assert(cards@.subrange(0, cards@.len() as int) =~= cards@);
        }
        played
    }

    pub fn get(&self, i: usize) -> (card: Card)
        requires
            i < 52,
        ensures
            card == self.cards@[i as int],
    {
        self.cards[i]
    }
}

/// A deal in play with nothing hidden.
#[derive(Debug, Clone, Copy, Hash, PartialEq, Eq)]
pub struct BridgeGame {
    pub contract: Contract,
    pub declarer_tricks: u8,
    pub defender_tricks: u8,
    pub played_cards: usize,
    pub turn_player: Seat,
    pub cards_played: PlayedCards,
    pub hand_of_cards_played: Hand,
    pub before_hand: Hand,
    pub declarer_hand: Hand,
    pub after_hand: Hand,
    pub dummy_hand: Hand,
}

/// The seat that takes a trick of four cards, the last of them played by
/// `last_player`: the seat noted with the last card that beat the card
/// winning until then. The seat after `last_player` is noted with the
/// first card, and the seats before it, going back, with the second, the
/// third and the fourth.
pub open spec fn trick_winner(
    contract: Contract,
    first: Card,
    second: Card,
    third: Card,
    fourth: Card,
    last_player: Seat,
) -> Seat {
    let leader = Seat::at(last_player.spec_number() + 1);
    let (winner1, card1) = if contract.spec_card_defeats_card(first, second) {
        (Seat::at(leader.spec_number() + 3), second)
    } else {
        (leader, first)
    };
    let (winner2, card2) = if contract.spec_card_defeats_card(card1, third) {
        (Seat::at(leader.spec_number() + 2), third)
    } else {
        (winner1, card1)
    };
    if contract.spec_card_defeats_card(card2, fourth) {
        Seat::at(leader.spec_number() + 1)
    } else {
        winner2
    }
}

impl BridgeGame {
    /// The hand of the seat to play.
    pub open spec fn spec_turn_player_hand(&self) -> Hand {
        match self.turn_player {
            Seat::Declarer => self.declarer_hand,
            Seat::AfterDeclarer => self.after_hand,
            Seat::Dummy => self.dummy_hand,
            Seat::BeforeDeclarer => self.before_hand,
        }
    }

    /// This state with `hand` as the hand of the seat to play.
    pub open spec fn with_turn_player_hand(&self, hand: Hand) -> BridgeGame {
        match self.turn_player {
            Seat::Declarer => BridgeGame { declarer_hand: hand, ..*self },
            Seat::AfterDeclarer => BridgeGame { after_hand: hand, ..*self },
            Seat::Dummy => BridgeGame { dummy_hand: hand, ..*self },
            Seat::BeforeDeclarer => BridgeGame { before_hand: hand, ..*self },
        }
    }

    /// What is noted as the lead of the running trick: none between
    /// tricks; else, with `n` cards of the trick still to come, the seat
    /// `n` seats before the seat to play, and the card played at the
    /// place that is the number of tricks completed.
    pub open spec fn spec_lead(&self) -> Option<(Seat, Card)> {
        let len = self.cards_played.len as int;
        if len % 4 == 0 {
            None
        } else {
            Some(
                (
                    Seat::at(self.turn_player.spec_number() + 3 * (4 - len % 4)),
                    self.cards_played.cards@[len / 4],
                ),
            )
        }
    }

    pub open spec fn spec_universal_information(&self) -> UniversalInformation {
        UniversalInformation {
            contract: self.contract,
            declarer_tricks: self.declarer_tricks,
            defender_tricks: self.defender_tricks,
            cards_played: self.hand_of_cards_played,
            dummy_hand: self.dummy_hand,
            lead: self.spec_lead(),
        }
    }

    /// The state after the trick was completed that the seat to play put
    /// the last card to: the seat that takes the trick is to play, and its
    /// side has one trick more.
    pub open spec fn spec_end_of_trick(&self) -> BridgeGame {
        let len = self.cards_played.len as int;
        let winner = trick_winner(
            self.contract,
            self.cards_played.cards@[len - 4],
            self.cards_played.cards@[len - 3],
            self.cards_played.cards@[len - 2],
            self.cards_played.cards@[len - 1],
            self.turn_player,
        );
        if winner.spec_number() % 2 == 0 {
            BridgeGame {
                turn_player: winner,
                declarer_tricks: (self.declarer_tricks + 1) as u8,
                ..*self
            }
        } else {
            BridgeGame {
                turn_player: winner,
                defender_tricks: (self.defender_tricks + 1) as u8,
                ..*self
            }
        }
    }

    /// The state after the seat to play has played `m`, before the turn
    /// passes on.
    pub open spec fn spec_card_played(&self, m: Card) -> BridgeGame {
        BridgeGame {
            played_cards: (self.played_cards + 1) as usize,
            cards_played: self.cards_played.spec_push(m),
            hand_of_cards_played: self.hand_of_cards_played.spec_with(m),
            ..self.with_turn_player_hand(self.spec_turn_player_hand().spec_without(m))
        }
    }

    pub fn declarer_info(&self) -> (info: DeclarerInfoSet)
        requires
            self.cards_played.len <= 52,
        ensures
            info == (DeclarerInfoSet {
                universal_information: self.spec_universal_information(),
                declarer_hand: self.declarer_hand,
            }),
    {
        DeclarerInfoSet {
            universal_information: self.generate_universal_information(),
            declarer_hand: self.declarer_hand,
        }
    }

    pub fn dummy_info(&self) -> (info: DummyInfoSet)
        requires
            self.cards_played.len <= 52,
        ensures
            info == (DummyInfoSet {
                universal_information: self.spec_universal_information(),
                declarer_hand: self.declarer_hand,
            }),
    {
        DummyInfoSet {
            universal_information: self.generate_universal_information(),
            declarer_hand: self.declarer_hand,
        }
    }

    pub fn before_info(&self) -> (info: BeforeDeclarerInfoSet)
        requires
            self.cards_played.len <= 52,
        ensures
            info == (BeforeDeclarerInfoSet {
                universal_information: self.spec_universal_information(),
                before_hand: self.before_hand,
            }),
    {
        BeforeDeclarerInfoSet {
            universal_information: self.generate_universal_information(),
            before_hand: self.before_hand,
        }
    }

    pub fn after_info(&self) -> (info: AfterDeclarerInfoSet)
        requires
            self.cards_played.len <= 52,
        ensures
            info == (AfterDeclarerInfoSet {
                universal_information: self.spec_universal_information(),
                after_hand: self.after_hand,
            }),
    {
        AfterDeclarerInfoSet {
            universal_information: self.generate_universal_information(),
            after_hand: self.after_hand,
        }
    }

    pub fn lead(&self) -> (lead: Option<(Seat, Card)>)
        requires
            self.cards_played.len <= 52,
        ensures
            lead == self.spec_lead(),
    {
        let len = self.cards_played.len();
        if len % 4 == 0 {
            return None;
        }
        let mut n: usize = 4 - len % 4;
        let mut p = self.turn_player;
        while n > 0
            invariant
                n <= 4 - len % 4,
                len % 4 != 0,
                p == Seat::at(self.turn_player.spec_number() + 3 * ((4 - len % 4) - n)),
            decreases n,
        {
            p = p.prev();
            n -= 1;
        }
        Some((p, self.cards_played.get(len / 4)))
    }

    pub fn generate_universal_information(&self) -> (universal: UniversalInformation)
        requires
            self.cards_played.len <= 52,
        ensures
            universal == self.spec_universal_information(),
    {
        UniversalInformation {
            contract: self.contract,
            declarer_tricks: self.declarer_tricks,
            defender_tricks: self.defender_tricks,
            cards_played: self.hand_of_cards_played,
            dummy_hand: self.dummy_hand,
            lead: self.lead(),
        }
    }

    /// The hand of the seat to play, to change it.
    pub fn turn_player_hand_mut(&mut self) -> (hand: &mut Hand)
        ensures
            *hand == old(self).spec_turn_player_hand(),
            *final(self) == old(self).with_turn_player_hand(*final(hand)),
    {
        match self.turn_player {
            Seat::Declarer => &mut self.declarer_hand,
            Seat::AfterDeclarer => &mut self.after_hand,
            Seat::Dummy => &mut self.dummy_hand,
            Seat::BeforeDeclarer => &mut self.before_hand,
        }
    }

    /// Completes the trick that the seat to play has put the last card to.
    pub fn handle_end_of_trick(&mut self)
        requires
            old(self).cards_played.wf(),
            old(self).cards_played.len >= 4,
            old(self).declarer_tricks < 255,
            old(self).defender_tricks < 255,
        ensures
            *final(self) == old(self).spec_end_of_trick(),
    {
        let leader = self.turn_player.next();
        let len = self.cards_played.len();
        let lead_card = self.cards_played.get(len - 4);
        let mut winner = leader;
        let mut winner_card = lead_card;
        let mut current_player = leader;
        proof {
            assert(self.cards_played.cards@[len - 4].wf());
            assert(self.cards_played.cards@[len - 3].wf());
            assert(self.cards_played.cards@[len - 2].wf());
            assert(self.cards_played.cards@[len - 1].wf());
        }
        current_player = current_player.prev();
        let second = self.cards_played.get(len - 3);
        if self.contract.card_defeats_card(winner_card, second) {
            winner = current_player;
            winner_card = second;
        }
        current_player = current_player.prev();
        let third = self.cards_played.get(len - 2);
        if self.contract.card_defeats_card(winner_card, third) {
            winner = current_player;
            winner_card = third;
        }
        current_player = current_player.prev();
        let fourth = self.cards_played.get(len - 1);
        if self.contract.card_defeats_card(winner_card, fourth) {
            winner = current_player;
        }
        self.turn_player = winner;
        match self.turn_player {
            Seat::Declarer => {
                self.declarer_tricks += 1;
            },
            Seat::AfterDeclarer => {
                self.defender_tricks += 1;
            },
            Seat::Dummy => {
                self.declarer_tricks += 1;
            },
            Seat::BeforeDeclarer => {
                self.defender_tricks += 1;
            },
        }
    }

    /// The cards the seat to play may play.
    pub fn moves(&self) -> (moves: Vec<Card>)
        requires
            OracleGamestate::<BridgeInfoSet>::valid(self),
        ensures
            moves@ == (if self.spec_info().spec_terminal() is Some {
                Seq::<Card>::empty()
            } else {
                self.spec_info().spec_moves()
            }),
    {
        let mut res: Vec<Card> = Vec::new();
        let _terminal = self.info_for_turn_player().run_for_moves(&mut res);
        res
    }
}

/// A state that fits together stays so when the seat to play plays a card
/// of its hand, and one card more has then been played.
pub proof fn lemma_card_played(state: BridgeGame, m: Card)
    requires
        OracleGamestate::<BridgeInfoSet>::valid(&state),
        m.wf(),
        hand::bit_is_set(state.spec_turn_player_hand().bitset, m.n),
    ensures
        state.cards_played.len < 52,
        state.spec_card_played(m).cards_played.len == state.cards_played.len + 1,
        state.spec_card_played(m).cards_played.wf(),
        state.spec_card_played(m).fits_together(),
        state.spec_card_played(m).turn_player == state.turn_player,
        state.spec_card_played(m).declarer_tricks == state.declarer_tricks,
        state.spec_card_played(m).defender_tricks == state.defender_tricks,
        state.spec_card_played(m).contract == state.contract,
{
    broadcast use vstd::array::group_array_axioms;

    let next = state.spec_card_played(m);
    let n = m.n as u64;
    let played = state.hand_of_cards_played.bitset;
    let (d, a, u, b) = (
        state.declarer_hand.bitset,
        state.after_hand.bitset,
        state.dummy_hand.bitset,
        state.before_hand.bitset,
    );
    hand::lemma_disjoint_symmetric(d, played);
    hand::lemma_disjoint_symmetric(a, played);
    hand::lemma_disjoint_symmetric(u, played);
    hand::lemma_disjoint_symmetric(b, played);
    hand::lemma_disjoint_symmetric(b, d);
    hand::lemma_disjoint_symmetric(b, a);
    hand::lemma_disjoint_symmetric(b, u);
    hand::lemma_disjoint_symmetric(d, a);
    hand::lemma_disjoint_symmetric(d, u);
    hand::lemma_disjoint_symmetric(a, u);
    match state.turn_player {
        Seat::Declarer => {
            hand::lemma_move_card(d, played, a, n);
            hand::lemma_move_card(d, played, u, n);
            hand::lemma_move_card(d, played, b, n);
        },
        Seat::AfterDeclarer => {
            hand::lemma_move_card(a, played, d, n);
            hand::lemma_move_card(a, played, u, n);
            hand::lemma_move_card(a, played, b, n);
        },
        Seat::Dummy => {
            hand::lemma_move_card(u, played, d, n);
            hand::lemma_move_card(u, played, a, n);
            hand::lemma_move_card(u, played, b, n);
        },
        Seat::BeforeDeclarer => {
            hand::lemma_move_card(b, played, d, n);
            hand::lemma_move_card(b, played, a, n);
            hand::lemma_move_card(b, played, u, n);
        },
    }
    let more = played | (1u64 << n);
    assert(!hand::bit_is_set(played, m.n));
    assert forall|k: u8| hand::bit_is_set(more, k) == (hand::bit_is_set(played, k) || k == m.n) by {
        if k < 64 {
            hand::lemma_or_bits(played, 1u64 << n, k as u64);
            hand::lemma_single_bit(n, k as u64);
        }
    }
    hand::lemma_count_with_bit(played, more, m.n, 52);
    hand::lemma_count_below(more, 52);
    assert forall|i: int| 0 <= i < 52 implies (#[trigger] next.cards_played.cards@[i]).wf() by {
        if i != state.cards_played.len {
            assert(state.cards_played.cards@[i].wf());
        }
    }
}

impl BridgeGame {
    /// The parts of the state fit together: the hands hold cards only, no
    /// card is in two hands or both in a hand and played, and as many
    /// cards are noted as played as have been played.
    pub open spec fn fits_together(&self) -> bool {
        &&& self.contract.wf()
        &&& self.cards_played.wf()
        &&& self.played_cards == self.cards_played.len
        &&& self.hand_of_cards_played.wf()
        &&& self.before_hand.wf()
        &&& self.declarer_hand.wf()
        &&& self.after_hand.wf()
        &&& self.dummy_hand.wf()
        &&& self.hand_of_cards_played.spec_len() == self.cards_played.len
        &&& self.before_hand.disjoint(self.hand_of_cards_played)
        &&& self.declarer_hand.disjoint(self.hand_of_cards_played)
        &&& self.after_hand.disjoint(self.hand_of_cards_played)
        &&& self.dummy_hand.disjoint(self.hand_of_cards_played)
        &&& self.before_hand.disjoint(self.declarer_hand)
        &&& self.before_hand.disjoint(self.after_hand)
        &&& self.before_hand.disjoint(self.dummy_hand)
        &&& self.declarer_hand.disjoint(self.after_hand)
        &&& self.declarer_hand.disjoint(self.dummy_hand)
        &&& self.after_hand.disjoint(self.dummy_hand)
    }
}

impl OracleGamestate<BridgeInfoSet> for BridgeGame {
    /// The parts of the state fit together, and every completed trick has
    /// been counted for one side.
    open spec fn valid(&self) -> bool {
        &&& self.fits_together()
        &&& self.declarer_tricks + self.defender_tricks == self.cards_played.len / 4
    }

    open spec fn spec_info(&self) -> BridgeInfoSet {
        match self.turn_player {
            Seat::Declarer => BridgeInfoSet::Declarer(
                DeclarerInfoSet {
                    universal_information: self.spec_universal_information(),
                    declarer_hand: self.declarer_hand,
                },
            ),
            Seat::AfterDeclarer => BridgeInfoSet::AfterDeclarer(
                AfterDeclarerInfoSet {
                    universal_information: self.spec_universal_information(),
                    after_hand: self.after_hand,
                },
            ),
            Seat::Dummy => BridgeInfoSet::Dummy(
                DummyInfoSet {
                    universal_information: self.spec_universal_information(),
                    declarer_hand: self.declarer_hand,
                },
            ),
            Seat::BeforeDeclarer => BridgeInfoSet::BeforeDeclarer(
                BeforeDeclarerInfoSet {
                    universal_information: self.spec_universal_information(),
                    before_hand: self.before_hand,
                },
            ),
        }
    }

    open spec fn spec_advance(&self, m: Card) -> BridgeGame {
        let played = self.spec_card_played(m);
        if played.cards_played.len % 4 == 0 {
            played.spec_end_of_trick()
        } else {
            BridgeGame { turn_player: Seat::at(self.turn_player.spec_number() + 1), ..played }
        }
    }

    /// The number of cards not played yet.
    open spec fn remaining(&self) -> nat {
        (52 - self.cards_played.len) as nat
    }

    fn info_for_turn_player(&self) -> (info: BridgeInfoSet) {
        match self.turn_player {
            Seat::Declarer => BridgeInfoSet::Declarer(self.declarer_info()),
            Seat::AfterDeclarer => BridgeInfoSet::AfterDeclarer(self.after_info()),
            Seat::Dummy => BridgeInfoSet::Dummy(self.dummy_info()),
            Seat::BeforeDeclarer => BridgeInfoSet::BeforeDeclarer(self.before_info()),
        }
    }

    fn players_playing(&self) -> (n: PlayerNumber) {
        4
    }

    fn turn(&self) -> (t: PlayerNumber) {
        self.info_for_turn_player().turn()
    }

    fn advance(&self, m: &Card) -> (next: BridgeGame) {
        proof {
            let info = self.spec_info();
            lemma_cards_of_hand(self.spec_turn_player_hand().bitset, Suit::Clubs);
            match info.spec_universal_information().lead {
                Some((_, lead_card)) => {
                    lemma_cards_of_hand(self.spec_turn_player_hand().bitset, lead_card.spec_suit());
                },
                None => {},
            }
            let moves = info.spec_moves();
            let i = choose|i: int| 0 <= i < moves.len() && moves[i] == *m;
            assert(moves[i] == *m);
            lemma_card_played(*self, *m);
        }
        let mut new = *self;
        new.played_cards += 1;
        let hand = new.turn_player_hand_mut();
        hand.sub_assign(*m);
        new.cards_played.push(*m);
        new.hand_of_cards_played.add_assign(*m);
        proof {
            assert(new == self.spec_card_played(*m));
        }
        if new.cards_played.len() % 4 == 0 {
            new.handle_end_of_trick()
        } else {
            new.turn_player = self.turn_player.next();
        }
        new
    }
}

} // verus!
