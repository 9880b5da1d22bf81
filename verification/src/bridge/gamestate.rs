//! A deal in play with nothing hidden, seen by the seat to play with the
//! cards ranked as they rank once the cards played are out of play.

use vstd::prelude::*;
use crate::bridge::card::{Card, Suit};
use crate::bridge::contract::Contract;
use crate::bridge::game::PlayedCards;
use crate::bridge::hand;
use crate::bridge::hand::{Hand, TWOS_BITS};
use crate::bridge::player_info::{InfoForTurnPlayer, Trick, VisibleInfoForBridgePlayer};
use crate::bridge::ranking;
use crate::bridge::seat::Seat;
use crate::cfr::game_model::{OracleGamestate, PlayerNumber, VisibleInfo};

verus! {

/// A deal in play with nothing hidden.
#[derive(Debug, Clone, Copy, Hash, PartialEq, Eq)]
pub struct BridgeGamestate {
    pub contract: Contract,
    pub declarer_tricks: u8,
    pub turn: Seat,
    pub cards_played: PlayedCards,
    pub hand_of_cards_played: Hand,
    pub before_declarer_hand: Hand,
    pub declarer_hand: Hand,
    pub after_declarer_hand: Hand,
    pub dummy_hand: Hand,
}

/// Whether `card` takes the trick from the card `winning`: in the suit of
/// that card by a higher rank, in another suit by being a trump.
pub open spec fn beats(trump: Option<Suit>, winning: Card, card: Card) -> bool {
    if card.spec_suit() == winning.spec_suit() {
        card.spec_rank().spec_n() > winning.spec_rank().spec_n()
    } else {
        Some(card.spec_suit()) == trump
    }
}

/// The seat that holds the trick `cards`, led by `leader`, once its
/// cards up to place `i` are seen, and the card it holds the trick with.
pub open spec fn holder(trump: Option<Suit>, cards: Seq<Card>, leader: Seat, i: int) -> (
    Seat,
    Card,
)
    decreases i,
{
    if i <= 0 {
        (leader, cards[0])
    } else {
        let (seat, winning) = holder(trump, cards, leader, i - 1);
        if beats(trump, winning, cards[i]) {
            (Seat::at(leader.spec_number() + i), cards[i])
        } else {
            (seat, winning)
        }
    }
}

/// The running trick: the `k` cards of `cards` from place `start` on.
pub open spec fn trick_from(cards: Seq<Card>, start: int, k: nat) -> Trick
    decreases k,
{
    if k == 0 {
        Trick::spec_new()
    } else {
        trick_from(cards, start, (k - 1) as nat).spec_push(cards[start + k - 1])
    }
}

/// The hand that holds `cards`.
pub open spec fn hand_of_cards(cards: Seq<Card>) -> Hand
    decreases cards.len(),
{
    if cards.len() == 0 {
        Hand { bitset: 0 }
    } else {
        hand_of_cards(cards.drop_last()).spec_with(cards.last())
    }
}

/// One where `seat` has played to the running trick, to which `k` cards
/// were played and `turn` is to play next; else nothing.
pub open spec fn owed(turn: Seat, seat: Seat, k: int) -> nat {
    let back = (turn.spec_number() - seat.spec_number() + 4) % 4;
    if 1 <= back <= k {
        1
    } else {
        0
    }
}

impl BridgeGamestate {
    /// The hand of `seat`.
    pub open spec fn hand_of(&self, seat: Seat) -> Hand {
        match seat {
            Seat::Declarer => self.declarer_hand,
            Seat::AfterDeclarer => self.after_declarer_hand,
            Seat::Dummy => self.dummy_hand,
            Seat::BeforeDeclarer => self.before_declarer_hand,
        }
    }

    /// The hand that the seat to play sees beside its own.
    pub open spec fn seen_hand(&self) -> Hand {
        match self.turn {
            Seat::Dummy => self.declarer_hand,
            _ => self.dummy_hand,
        }
    }

    /// The cards that the seat to play does not see: those held by the
    /// two other seats.
    pub open spec fn unseen_cards(&self) -> Hand {
        self.declarer_hand.spec_union(self.after_declarer_hand).spec_union(
            self.before_declarer_hand,
        ).spec_union(self.dummy_hand).spec_minus(self.hand_of(self.turn)).spec_minus(
            self.seen_hand(),
        )
    }

    /// The cards played that make room: all but the twos.
    pub open spec fn room(&self) -> u64 {
        self.hand_of_cards_played.bitset & !TWOS_BITS
    }

    /// The number of cards played to the running trick.
    pub open spec fn in_trick(&self) -> int {
        self.cards_played.len as int % 4
    }

    /// Whether no seat holds a card.
    pub open spec fn played_out(&self) -> bool {
        &&& self.before_declarer_hand.bitset == 0
        &&& self.declarer_hand.bitset == 0
        &&& self.after_declarer_hand.bitset == 0
        &&& self.dummy_hand.bitset == 0
    }

    /// The hands and the cards played are hands of cards with no card in
    /// common.
    pub open spec fn apart(&self) -> bool {
        &&& self.hand_of_cards_played.wf()
        &&& self.declarer_hand.wf()
        &&& self.after_declarer_hand.wf()
        &&& self.dummy_hand.wf()
        &&& self.before_declarer_hand.wf()
        &&& self.declarer_hand.disjoint(self.hand_of_cards_played)
        &&& self.after_declarer_hand.disjoint(self.hand_of_cards_played)
        &&& self.dummy_hand.disjoint(self.hand_of_cards_played)
        &&& self.before_declarer_hand.disjoint(self.hand_of_cards_played)
        &&& self.declarer_hand.disjoint(self.after_declarer_hand)
        &&& self.declarer_hand.disjoint(self.dummy_hand)
        &&& self.declarer_hand.disjoint(self.before_declarer_hand)
        &&& self.after_declarer_hand.disjoint(self.dummy_hand)
        &&& self.after_declarer_hand.disjoint(self.before_declarer_hand)
        &&& self.dummy_hand.disjoint(self.before_declarer_hand)
    }

    /// Whether every card of the pack is held by a seat or was played.
    pub open spec fn whole(&self) -> bool {
        forall|n: u8|
            #![trigger hand::bit_is_set(self.hand_of_cards_played.bitset, n)]
            n < 52 ==> hand::bit_is_set(self.hand_of_cards_played.bitset, n) || hand::bit_is_set(
                self.declarer_hand.bitset,
                n,
            ) || hand::bit_is_set(self.after_declarer_hand.bitset, n) || hand::bit_is_set(
                self.dummy_hand.bitset,
                n,
            ) || hand::bit_is_set(self.before_declarer_hand.bitset, n)
    }

    /// Every seat holds as many cards as the seat to play, less one where
    /// it has played to the running trick.
    pub open spec fn evenly_held(&self) -> bool {
        forall|seat: Seat|
            (#[trigger] self.hand_of(seat)).spec_len() + owed(self.turn, seat, self.in_trick())
                == self.hand_of(self.turn).spec_len()
    }

    /// The card of the deal that the seat to play plays with the ranked
    /// card `m`.
    pub open spec fn card_meant(&self, m: Card) -> Card {
        Card { n: ranking::bottom(m.n as int, self.room()) as u8 }
    }

    /// The state once `card` has left the hand of the seat to play, before
    /// the turn passes.
    pub open spec fn with_card_played(&self, card: Card) -> BridgeGamestate {
        let hand = self.hand_of(self.turn).spec_without(card);
        BridgeGamestate {
            cards_played: self.cards_played.spec_push(card),
            hand_of_cards_played: self.hand_of_cards_played.spec_with(card),
            declarer_hand: if self.turn == Seat::Declarer {
                hand
            } else {
                self.declarer_hand
            },
            after_declarer_hand: if self.turn == Seat::AfterDeclarer {
                hand
            } else {
                self.after_declarer_hand
            },
            dummy_hand: if self.turn == Seat::Dummy {
                hand
            } else {
                self.dummy_hand
            },
            before_declarer_hand: if self.turn == Seat::BeforeDeclarer {
                hand
            } else {
                self.before_declarer_hand
            },
            ..*self
        }
    }

    /// The seat that takes the trick of the last four cards played, the
    /// seat after `last` having led it.
    pub open spec fn taker(&self, last: Seat) -> Seat {
        let leader = Seat::at(last.spec_number() + 1);
        let cards = self.cards_played.cards@.subrange(
            self.cards_played.len - 4,
            self.cards_played.len as int,
        );
        holder(self.contract.trump, cards, leader, 3).0
    }
}

impl OracleGamestate<VisibleInfoForBridgePlayer> for BridgeGamestate {
    /// The hand of the cards played holds the cards played, each played
    /// once; it and the four hands have no card in common; the hands are
    /// as large as the running trick leaves them; and the declaring side
    /// has no more tricks than were played.
    open spec fn valid(&self) -> bool {
        &&& self.contract.wf()
        &&& self.cards_played.wf()
        &&& self.hand_of_cards_played == hand_of_cards(self.cards_played@)
        &&& self.cards_played.len == self.hand_of_cards_played.spec_len()
        &&& self.declarer_tricks * 4 <= self.cards_played.len
        &&& self.apart()
        &&& self.evenly_held()
    }

    open spec fn spec_info(&self) -> VisibleInfoForBridgePlayer {
        if self.played_out() {
            VisibleInfoForBridgePlayer::Terminal {
                contract: self.contract,
                declarer_tricks: self.declarer_tricks,
            }
        } else {
            VisibleInfoForBridgePlayer::InPlay(
                InfoForTurnPlayer {
                    player: self.turn,
                    declarer_tricks: self.declarer_tricks,
                    my_hand: self.hand_of(self.turn).spec_reduce(self.hand_of_cards_played),
                    other_visible_hand: self.seen_hand().spec_reduce(self.hand_of_cards_played),
                    cards_in_other_hands: self.unseen_cards().spec_reduce(
                        self.hand_of_cards_played,
                    ),
                    current_trick: trick_from(
                        self.cards_played.cards@,
                        self.cards_played.len - self.in_trick(),
                        self.in_trick() as nat,
                    ),
                },
            )
        }
    }

    /// The card meant leaves the hand of the seat to play. While the
    /// trick runs, the next seat is to play; with the fourth card the
    /// seat that takes the trick is, and a trick taken by the declarer or
    /// the dummy is counted.
    open spec fn spec_advance(&self, m: Card) -> BridgeGamestate {
        let played = self.with_card_played(self.card_meant(m));
        if played.cards_played.len % 4 == 0 {
            let taker = played.taker(self.turn);
            BridgeGamestate {
                turn: taker,
                declarer_tricks: if taker == Seat::Declarer || taker == Seat::Dummy {
                    (self.declarer_tricks + 1) as u8
                } else {
                    self.declarer_tricks
                },
                ..played
            }
        } else {
            BridgeGamestate { turn: Seat::at(self.turn.spec_number() + 1), ..played }
        }
    }

    /// The number of cards not played yet.
    open spec fn remaining(&self) -> nat {
        (52 - self.cards_played.len) as nat
    }

    fn info_for_turn_player(&self) -> (info: VisibleInfoForBridgePlayer) {
        if self.before_declarer_hand.is_empty() && self.declarer_hand.is_empty()
            && self.after_declarer_hand.is_empty() && self.dummy_hand.is_empty() {
            return VisibleInfoForBridgePlayer::Terminal {
                contract: self.contract,
                declarer_tricks: self.declarer_tricks,
            };
        }
        let mut mia_cards = self.declarer_hand.bitor(self.after_declarer_hand).bitor(
            self.before_declarer_hand,
        ).bitor(self.dummy_hand);
        let (player_hand, other_hand) = match self.turn {
            Seat::Declarer => (self.declarer_hand, self.dummy_hand),
            Seat::AfterDeclarer => (self.after_declarer_hand, self.dummy_hand),
            Seat::Dummy => (self.dummy_hand, self.declarer_hand),
            Seat::BeforeDeclarer => (self.before_declarer_hand, self.dummy_hand),
        };
        mia_cards = mia_cards.minus(player_hand).minus(other_hand);

        let current_trick = running_trick(&self.cards_played);
        let my_hand = player_hand.reduce(self.hand_of_cards_played);
        proof {
            self.lemma_mover_holds_a_card();
            lemma_ranked_card_held(
                my_hand.bitset,
                player_hand.bitset,
                self.room(),
            );
        }
        VisibleInfoForBridgePlayer::InPlay(
            InfoForTurnPlayer {
                player: self.turn,
                declarer_tricks: self.declarer_tricks,
                my_hand,
                other_visible_hand: other_hand.reduce(self.hand_of_cards_played),
                cards_in_other_hands: mia_cards.reduce(self.hand_of_cards_played),
                current_trick,
            },
        )
    }

    fn players_playing(&self) -> (n: PlayerNumber) {
        4
    }

    fn turn(&self) -> (t: PlayerNumber) {
        proof {
            self.lemma_mover_holds_a_card();
        }
        if self.before_declarer_hand.is_empty() && self.declarer_hand.is_empty()
            && self.after_declarer_hand.is_empty() && self.dummy_hand.is_empty() {
            return 0;
        }
        match self.turn {
            Seat::Declarer => 0,
            Seat::AfterDeclarer => 1,
            Seat::Dummy => 2,
            Seat::BeforeDeclarer => 3,
        }
    }

    fn advance(&self, m: &Card) -> (next: BridgeGamestate) {
        proof {
            self.lemma_card_meant(*m);
            self.lemma_card_played(self.card_meant(*m));
        }
        let one_card = [*m];
        let single = Hand::new(one_card.as_slice());
        proof {
            assert(one_card@[0] == *m);
            hand::lemma_single_card_hand(single, *m);
        }
        let unreduced = single.unreduce(self.hand_of_cards_played);
        proof {
            let c = ranking::bottom(m.n as int, self.room()) as u8;
            assert(unreduced.bitset == 1u64 << (c as u64));
            hand::lemma_single_bit(c as u64, c as u64);
            assert(unreduced.bitset != 0) by {
                assert(0u64 & 0u64 == 0) by (bit_vector);
            }
        }
        let unreduced_card = unreduced.first();
        proof {
            let c = ranking::bottom(m.n as int, self.room()) as u8;
            hand::lemma_single_bit(c as u64, unreduced_card.n as u64);
            assert(unreduced_card == self.card_meant(*m));
        }
        let mut cards_played = self.cards_played;
        cards_played.push(unreduced_card);

        let mut declarer_hand = self.declarer_hand;
        let mut after_declarer_hand = self.after_declarer_hand;
        let mut dummy_hand = self.dummy_hand;
        let mut before_declarer_hand = self.before_declarer_hand;
        match self.turn {
            Seat::Declarer => declarer_hand.sub_assign(unreduced_card),
            Seat::AfterDeclarer => after_declarer_hand.sub_assign(unreduced_card),
            Seat::Dummy => dummy_hand.sub_assign(unreduced_card),
            Seat::BeforeDeclarer => before_declarer_hand.sub_assign(unreduced_card),
        }
        let mut hand_of_cards_played = self.hand_of_cards_played;
        hand_of_cards_played.add_assign(unreduced_card);

        let mut result = BridgeGamestate {
            contract: self.contract,
            declarer_tricks: self.declarer_tricks,
            turn: self.turn.next(),
            cards_played,
            hand_of_cards_played,
            declarer_hand,
            after_declarer_hand,
            dummy_hand,
            before_declarer_hand,
        };
        proof {
            let played = self.with_card_played(unreduced_card);
            assert(result == BridgeGamestate { turn: result.turn, ..played });
        }
        if result.cards_played.len() % 4 == 0 {
            let winning_player = trick_taker(&result.cards_played, self.contract.trump, result.turn);
            if winning_player == Seat::Declarer || winning_player == Seat::Dummy {
                result.declarer_tricks += 1;
            }
            result.turn = winning_player;
        }
        proof {
            self.lemma_turn_passes(unreduced_card, result);
        }
        result
    }
}

/// The running trick: the cards played since the last trick was
/// completed.
pub fn running_trick(cards_played: &PlayedCards) -> (trick: Trick)
    requires
        cards_played.wf(),
    ensures
        trick.wf(),
        trick == trick_from(
            cards_played.cards@,
            cards_played.len - cards_played.len % 4,
            (cards_played.len % 4) as nat,
        ),
{
    let trick_size = cards_played.len() % 4;
    let starting_idx = cards_played.len() - trick_size;
    let mut current_trick = Trick::new();
    let mut i: usize = 0;
    while i < trick_size
        invariant
            i <= trick_size <= 3,
            starting_idx + trick_size == cards_played.len <= 52,
            cards_played.wf(),
            current_trick.wf(),
            current_trick.len == i,
            current_trick == trick_from(cards_played.cards@, starting_idx as int, i as nat),
        decreases trick_size - i,
    {
        let card = cards_played.get(starting_idx + i);
        proof {
            assert(cards_played.cards@[starting_idx + i].wf());
        }
        current_trick.push(card);
        i += 1;
    }
    current_trick
}

/// The seat that takes the trick of the last four cards played, led by
/// `leader`.
fn trick_taker(cards_played: &PlayedCards, trump: Option<Suit>, leader: Seat) -> (seat: Seat)
    requires
        cards_played.wf(),
        cards_played.len >= 4,
    ensures
        seat == holder(
            trump,
            cards_played.cards@.subrange(cards_played.len - 4, cards_played.len as int),
            leader,
            3,
        ).0,
{
    let start = cards_played.len() - 4;
    let ghost cards = cards_played.cards@.subrange(start as int, cards_played.len as int);
    let mut winning_card = cards_played.get(start);
    let mut winning_player = leader;
    proof {
        assert(cards_played.cards@[start as int].wf());
    }

    let mut player = winning_player;
    let mut i: usize = 1;
    while i <= 3
        invariant
            1 <= i <= 4,
            start + 4 == cards_played.len <= 52,
            cards_played.wf(),
            cards == cards_played.cards@.subrange(start as int, cards_played.len as int),
            player == Seat::at(leader.spec_number() + i - 1),
            (winning_player, winning_card) == holder(trump, cards, leader, i - 1),
            winning_card.wf(),
        decreases 4 - i,
    {
        player = player.next();
        let card = cards_played.get(start + i);
        proof {
            assert(card == cards[i as int]);
            assert(cards_played.cards@[start + i].wf());
        }
        if card.suit() == winning_card.suit() {
            if card.rank().n() > winning_card.rank().n() {
                winning_card = card;
                winning_player = player;
            }
        } else {
            let trump_played = match trump {
                Some(t) => t == card.suit(),
                None => false,
            };
            if trump_played {
                winning_card = card;
                winning_player = player;
            }
        }
        i += 1;
    }
    winning_player
}

impl BridgeGamestate {
    /// Once a card has left the hand of the seat to play and the turn has
    /// passed, to the next seat while the trick runs and to any seat
    /// with its fourth card, every seat holds what the running trick
    /// leaves it.
    pub proof fn lemma_turn_passes(&self, card: Card, next: BridgeGamestate)
        requires
            self.valid(),
            card.wf(),
            hand::bit_is_set(self.hand_of(self.turn).bitset, card.n),
            next == (BridgeGamestate {
                turn: next.turn,
                declarer_tricks: next.declarer_tricks,
                ..self.with_card_played(card)
            }),
            next.cards_played.len % 4 != 0 ==> next.turn == Seat::at(self.turn.spec_number() + 1),
        ensures
            next.evenly_held(),
    {
        let played = self.with_card_played(card);
        self.lemma_card_played(card);
        assert forall|seat: Seat|
            (#[trigger] next.hand_of(seat)).spec_len() + owed(next.turn, seat, next.in_trick())
                == next.hand_of(next.turn).spec_len() by {
            let mover = next.turn;
            assert(next.hand_of(seat) == played.hand_of(seat));
            assert(next.hand_of(mover) == played.hand_of(mover));
            assert(self.hand_of(seat).spec_len() + owed(self.turn, seat, self.in_trick())
                == self.hand_of(self.turn).spec_len());
            assert(self.hand_of(mover).spec_len() + owed(self.turn, mover, self.in_trick())
                == self.hand_of(self.turn).spec_len());
            if seat != self.turn {
                assert(played.hand_of(seat) == self.hand_of(seat));
            }
            if mover != self.turn {
                assert(played.hand_of(mover) == self.hand_of(mover));
            }
        }
    }

    /// A legal move is a ranked card, and the card meant by it is a card
    /// of the hand of the seat to play: the one that ranks as the move.
    pub proof fn lemma_card_meant(&self, m: Card)
        requires
            self.valid(),
            self.spec_info().terminal_utility() is None,
            self.spec_info().legal_moves().contains(m),
        ensures
            m.wf(),
            0 <= ranking::bottom(m.n as int, self.room()) < 52,
            self.card_meant(m).wf(),
            hand::bit_is_set(self.hand_of(self.turn).bitset, self.card_meant(m).n),
            ranking::top(self.card_meant(m).n as int, self.room()) == m.n,
    {
        let held = self.hand_of(self.turn);
        let ranked = held.spec_reduce(self.hand_of_cards_played);
        hand::lemma_ranked_hand(held, self.hand_of_cards_played);
        let info = self.spec_info();
        let s = info->InPlay_0;
        assert(s.my_hand == ranked);
        crate::bridge::game::lemma_cards_of_hand(ranked.bitset, Suit::Clubs);
        match s.current_trick.spec_first() {
            Some(lead_card) => {
                crate::bridge::game::lemma_cards_of_hand(ranked.bitset, lead_card.spec_suit());
            },
            None => {},
        }
        let moves = s.spec_moves();
        let i = choose|i: int| 0 <= i < moves.len() && moves[i] == m;
        assert(moves[i] == m);
        assert(hand::bit_is_set(ranked.bitset, m.n));
        let c = choose|c: u8|
            hand::bit_is_set(held.bitset, c) && #[trigger] ranking::top(c as int, self.room())
                == m.n;
        hand::lemma_without_twos(held.bitset, self.hand_of_cards_played.bitset);
        assert(!ranking::picked(self.room(), c as int)) by {
            if c < 64 {
                hand::lemma_cards_of_disjoint(held.bitset, self.room(), c);
            }
        }
        ranking::lemma_bottom_of_top(c as int, self.room());
        if c >= 52 {
            hand::lemma_no_high_bits(held.bitset, c as u64);
        }
    }

    /// Once a card of the hand of the seat to play has left it, the cards
    /// played and the hands still have no card in common, and the cards
    /// played are counted once each.
    pub proof fn lemma_card_played(&self, card: Card)
        requires
            self.valid(),
            card.wf(),
            hand::bit_is_set(self.hand_of(self.turn).bitset, card.n),
        ensures
            self.cards_played.len < 52,
            self.with_card_played(card).apart(),
            self.with_card_played(card).cards_played.len == self.with_card_played(
                card,
            ).hand_of_cards_played.spec_len(),
            self.with_card_played(card).hand_of_cards_played == hand_of_cards(
                self.with_card_played(card).cards_played@,
            ),
            self.with_card_played(card).hand_of(self.turn).spec_len() + 1 == self.hand_of(
                self.turn,
            ).spec_len(),
            forall|seat: Seat|
                seat != self.turn ==> #[trigger] self.with_card_played(card).hand_of(seat)
                    == self.hand_of(seat),
    {
        let n = card.n as u64;
        let played = self.hand_of_cards_played.bitset;
        let d = self.declarer_hand.bitset;
        let a = self.after_declarer_hand.bitset;
        let u = self.dummy_hand.bitset;
        let b = self.before_declarer_hand.bitset;
        hand::lemma_disjoint_symmetric(a, d);
        hand::lemma_disjoint_symmetric(u, d);
        hand::lemma_disjoint_symmetric(b, d);
        hand::lemma_disjoint_symmetric(u, a);
        hand::lemma_disjoint_symmetric(b, a);
        hand::lemma_disjoint_symmetric(b, u);
        hand::lemma_disjoint_symmetric(played, d);
        hand::lemma_disjoint_symmetric(played, a);
        hand::lemma_disjoint_symmetric(played, u);
        hand::lemma_disjoint_symmetric(played, b);
        match self.turn {
            Seat::Declarer => {
                hand::lemma_move_card(d, played, a, n);
                hand::lemma_move_card(d, played, u, n);
                hand::lemma_move_card(d, played, b, n);
            },
            Seat::AfterDeclarer => {
                hand::lemma_move_card(a, played, d, n);
                hand::lemma_move_card(a, played, u, n);
                hand::lemma_move_card(a, played, b, n);
            },
            Seat::Dummy => {
                hand::lemma_move_card(u, played, d, n);
                hand::lemma_move_card(u, played, a, n);
                hand::lemma_move_card(u, played, b, n);
            },
            Seat::BeforeDeclarer => {
                hand::lemma_move_card(b, played, d, n);
                hand::lemma_move_card(b, played, a, n);
                hand::lemma_move_card(b, played, u, n);
            },
        }
        hand::lemma_one_card_more(self.hand_of_cards_played, card);
        hand::lemma_one_card_fewer(self.hand_of(self.turn), card);
        hand::lemma_count_below(self.hand_of_cards_played.spec_with(card).bitset, 52);
        let more = self.cards_played.spec_push(card);
        assert(more@ =~= self.cards_played@.push(card)) by {
            broadcast use vstd::array::group_array_axioms;

        }
        assert(more@.drop_last() =~= self.cards_played@);
        hand::lemma_count_below(self.hand_of_cards_played.spec_with(card).bitset, 52);
    }

    /// A card played stays in the pack: after a move every card is held
    /// or was played, as before it.
    pub proof fn lemma_advance_keeps_whole(&self, m: Card)
        requires
            self.valid(),
            self.whole(),
            self.spec_info().terminal_utility() is None,
            self.spec_info().legal_moves().contains(m),
        ensures
            self.spec_advance(m).whole(),
    {
        let card = self.card_meant(m);
        let next = self.spec_advance(m);
        self.lemma_card_meant(m);
        let held = self.hand_of(self.turn);
        assert forall|n: u8|
            #![trigger hand::bit_is_set(next.hand_of_cards_played.bitset, n)]
            n < 52 implies hand::bit_is_set(next.hand_of_cards_played.bitset, n)
                || hand::bit_is_set(next.declarer_hand.bitset, n) || hand::bit_is_set(
                next.after_declarer_hand.bitset,
                n,
            ) || hand::bit_is_set(next.dummy_hand.bitset, n) || hand::bit_is_set(
                next.before_declarer_hand.bitset,
                n,
            ) by {
            assert(hand::bit_is_set(self.hand_of_cards_played.bitset, n) || hand::bit_is_set(
                self.declarer_hand.bitset,
                n,
            ) || hand::bit_is_set(self.after_declarer_hand.bitset, n) || hand::bit_is_set(
                self.dummy_hand.bitset,
                n,
            ) || hand::bit_is_set(self.before_declarer_hand.bitset, n));
            hand::lemma_or_bits(
                self.hand_of_cards_played.bitset,
                1u64 << (card.n as u64),
                n as u64,
            );
            hand::lemma_and_not_bits(held.bitset, 1u64 << (card.n as u64), n as u64);
            hand::lemma_single_bit(card.n as u64, n as u64);
        }
    }

    /// While a seat holds a card, the seat to play holds one.
    pub proof fn lemma_mover_holds_a_card(&self)
        requires
            self.valid(),
        ensures
            !self.played_out() ==> self.hand_of(self.turn).bitset != 0,
            self.played_out() ==> self.in_trick() == 0 && self.declarer_tricks <= 13,
    {
        hand::lemma_empty_counts_nothing(self.declarer_hand);
        hand::lemma_empty_counts_nothing(self.after_declarer_hand);
        hand::lemma_empty_counts_nothing(self.dummy_hand);
        hand::lemma_empty_counts_nothing(self.before_declarer_hand);
        assert(self.hand_of(Seat::Declarer) == self.declarer_hand);
        assert(self.hand_of(Seat::AfterDeclarer) == self.after_declarer_hand);
        assert(self.hand_of(Seat::Dummy) == self.dummy_hand);
        assert(self.hand_of(Seat::BeforeDeclarer) == self.before_declarer_hand);
    }
}

/// A hand that holds a card holds a card once it is ranked.
pub proof fn lemma_ranked_card_held(res: u64, held: u64, played: u64)
    requires
        ranking::is_ranked(res, held, played),
        held != 0,
    ensures
        res != 0,
{
    hand::lemma_some_bit(held);
    hand::lemma_bit_named(held);
    let c = choose|c: u8| hand::bit_is_set(held, c);
    ranking::lemma_top_run(c as int, played);
    let n = ranking::top(c as int, played) as u8;
    assert(hand::bit_is_set(res, n));
    assert(0u64 & (1u64 << (n as u64)) == 0) by (bit_vector);
}

} // verus!
