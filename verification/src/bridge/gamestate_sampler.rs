//! Dealing out, at random, the cards that the seat to play cannot see, to
//! the two seats that hold them.

use vstd::prelude::*;
use crate::bridge::card::Card;
use crate::bridge::contract::Contract;
use crate::bridge::game::PlayedCards;
use crate::bridge::gamestate;
use crate::bridge::gamestate::BridgeGamestate;
use crate::bridge::hand;
use crate::bridge::hand::Hand;
use crate::bridge::player_info::{InfoForTurnPlayer, VisibleInfoForBridgePlayer};
use crate::bridge::sampler;
use crate::bridge::seat::Seat;
use crate::cfr::game_model::{GamestateSampler, OracleGamestate, Probability, PROBABILITY_ONE};

verus! {

/// The hand that holds the cards played.
pub fn hand_played(cards: &PlayedCards) -> (hand: Hand)
    requires
        cards.wf(),
    ensures
        hand == gamestate::hand_of_cards(cards@),
{
    let mut hand = Hand::empty();
    let mut i: usize = 0;
    proof {
        assert(cards@.subrange(0, 0).len() == 0);
    }
    while i < cards.len()
        invariant
            i <= cards.len <= 52,
            cards.wf(),
            hand == gamestate::hand_of_cards(cards@.subrange(0, i as int)),
        decreases cards.len - i,
    {
        proof {
            assert(cards.cards@[i as int].wf());
            assert(cards@.subrange(0, i + 1).drop_last() =~= cards@.subrange(0, i as int));
            assert(cards@.subrange(0, i + 1).last() == cards.cards@[i as int]);
        }
        hand.add_assign(cards.get(i));
        i += 1;
    }
    proof {
        assert(cards@.subrange(0, cards.len as int) =~= cards@);
    }
    hand
}

/// Deals `cards_to_pick_from` out to two hands in turn, `first` first,
/// each card drawn at random from those left.
pub fn fill_hands(cards_to_pick_from: Vec<Card>, first: &mut Hand, second: &mut Hand)
    requires
        sampler::pool_wf(cards_to_pick_from@),
        sampler::pool_apart(cards_to_pick_from@, *old(first)),
        sampler::pool_apart(cards_to_pick_from@, *old(second)),
        old(first).wf(),
        old(second).wf(),
        old(first).disjoint(*old(second)),
    ensures
        final(first).wf(),
        final(second).wf(),
        final(first).disjoint(*final(second)),
        final(first).spec_len() == old(first).spec_len() + (cards_to_pick_from@.len() + 1) / 2,
        final(second).spec_len() == old(second).spec_len() + cards_to_pick_from@.len() / 2,
        forall|n: u8|
            #![trigger hand::bit_is_set(final(first).bitset, n)]
            #![trigger hand::bit_is_set(final(second).bitset, n)]
            hand::bit_is_set(final(first).bitset, n) || hand::bit_is_set(final(second).bitset, n)
                <==> hand::bit_is_set(old(first).bitset, n) || hand::bit_is_set(
                old(second).bitset,
                n,
            ) || sampler::in_pool(cards_to_pick_from@, n),
{
    let mut cards = cards_to_pick_from;
    let mut to_first = true;
    let ghost mut taken: nat = 0;
    while cards.len() > 0
        invariant
            sampler::pool_wf(cards@),
            sampler::pool_apart(cards@, *first),
            sampler::pool_apart(cards@, *second),
            first.wf(),
            second.wf(),
            first.disjoint(*second),
            cards@.len() + taken == cards_to_pick_from@.len(),
            to_first == (taken % 2 == 0),
            first.spec_len() == old(first).spec_len() + (taken + 1) / 2,
            second.spec_len() == old(second).spec_len() + taken / 2,
            forall|n: u8| #[trigger]
                sampler::in_pool(cards@, n) ==> sampler::in_pool(cards_to_pick_from@, n),
            forall|n: u8|
                #![trigger hand::bit_is_set(first.bitset, n)]
                #![trigger hand::bit_is_set(second.bitset, n)]
                hand::bit_is_set(first.bitset, n) || hand::bit_is_set(second.bitset, n)
                    || sampler::in_pool(cards@, n) <==> hand::bit_is_set(old(first).bitset, n)
                    || hand::bit_is_set(old(second).bitset, n) || sampler::in_pool(
                    cards_to_pick_from@,
                    n,
                ),
        decreases cards@.len(),
    {
        let ghost pool = cards@;
        let ghost one = *first;
        let ghost two = *second;
        if to_first {
            sampler::fill_hand(&mut cards, first, 1);
            proof {
                hand::lemma_disjoint_symmetric(one.bitset, two.bitset);
                sampler::lemma_fill_keeps_apart(one, *first, two, pool, cards@);
            }
        } else {
            sampler::fill_hand(&mut cards, second, 1);
            proof {
                hand::lemma_disjoint_symmetric(one.bitset, two.bitset);
                sampler::lemma_fill_keeps_apart(two, *second, one, pool, cards@);
            }
        }
        to_first = !to_first;
        proof {
            taken = taken + 1;
        }
    }
    proof {
        assert forall|n: u8| !sampler::in_pool(cards@, n) by {}
    }
}

/// The seat whose hand the seat `turn` sees beside its own.
pub open spec fn seen_seat(turn: Seat) -> Seat {
    if turn == Seat::Dummy {
        Seat::Declarer
    } else {
        Seat::Dummy
    }
}

/// Of the two seats whose hands the seat `turn` does not see, the one
/// that plays sooner after it.
pub open spec fn sooner_unseen(turn: Seat) -> Seat {
    match turn {
        Seat::Declarer => Seat::AfterDeclarer,
        Seat::AfterDeclarer => Seat::BeforeDeclarer,
        Seat::Dummy => Seat::BeforeDeclarer,
        Seat::BeforeDeclarer => Seat::Declarer,
    }
}

/// Of the two seats whose hands the seat `turn` does not see, the one
/// that plays later after it.
pub open spec fn later_unseen(turn: Seat) -> Seat {
    match turn {
        Seat::Declarer => Seat::BeforeDeclarer,
        Seat::AfterDeclarer => Seat::Declarer,
        Seat::Dummy => Seat::AfterDeclarer,
        Seat::BeforeDeclarer => Seat::AfterDeclarer,
    }
}

/// Whether `v` is what the seat to play sees of a deal of fifty-two cards
/// of which `cards` were played, each once: the hands shown, put back to
/// the cards they stand for, and the cards played have no card in common
/// and are the whole pack; they rank as `v` shows them; the running trick
/// is made of the last cards played; the seat to play holds a card, and
/// the other hands are as large as the running trick leaves them.
pub open spec fn sampleable(v: InfoForTurnPlayer, contract: Contract, cards: PlayedCards) -> bool {
    let played = gamestate::hand_of_cards(cards@);
    let mine = v.my_hand.spec_unreduce(played);
    let seen = v.other_visible_hand.spec_unreduce(played);
    let unseen = v.cards_in_other_hands.spec_unreduce(played);
    let k = cards.len as int % 4;
    &&& contract.wf()
    &&& cards.wf()
    &&& played.wf()
    &&& played.spec_len() == cards.len
    &&& v.declarer_tricks * 4 <= cards.len
    &&& v.current_trick == gamestate::trick_from(cards.cards@, cards.len - k, k as nat)
    &&& mine.wf()
    &&& seen.wf()
    &&& unseen.wf()
    &&& mine.bitset != 0
    &&& mine.disjoint(played)
    &&& seen.disjoint(played)
    &&& unseen.disjoint(played)
    &&& mine.disjoint(seen)
    &&& mine.disjoint(unseen)
    &&& seen.disjoint(unseen)
    &&& mine.spec_reduce(played) == v.my_hand
    &&& seen.spec_reduce(played) == v.other_visible_hand
    &&& unseen.spec_reduce(played) == v.cards_in_other_hands
    &&& seen.spec_len() + gamestate::owed(v.player, seen_seat(v.player), k) == mine.spec_len()
    &&& unseen.spec_len() + gamestate::owed(v.player, sooner_unseen(v.player), k)
        + gamestate::owed(v.player, later_unseen(v.player), k) == 2 * mine.spec_len()
    &&& hand::count_below(v.my_hand.bitset, 64) + hand::count_below(
        v.other_visible_hand.bitset,
        64,
    ) + hand::count_below(v.cards_in_other_hands.bitset, 64) + hand::count_below(
        played.bitset,
        64,
    ) == 52
    &&& mine.spec_union(seen).spec_union(unseen).spec_union(played) == Hand::spec_full()
}

/// One where `seat` has played to the running trick of `k` cards to
/// which `turn` is to play next; else nothing.
fn card_owed(turn: Seat, seat: Seat, k: usize) -> (n: u32)
    requires
        k < 4,
    ensures
        n == gamestate::owed(turn, seat, k as int),
{
    let back = (turn.number() + 4 - seat.number()) % 4;
    if 1 <= back && back <= k {
        1
    } else {
        0
    }
}

/// Whether the cards not seen at `v` can be dealt out.
pub fn can_sample(v: &InfoForTurnPlayer, contract: &Contract, cards: &PlayedCards) -> (ok: bool)
    ensures
        ok == sampleable(*v, *contract, *cards),
{
    if contract.n < 1 || contract.n > 7 || cards.len > 52 {
        return false;
    }
    let mut i: usize = 0;
    while i < 52
        invariant
            i <= 52,
            forall|j: int| 0 <= j < i ==> (#[trigger] cards.cards@[j]).wf(),
        decreases 52 - i,
    {
        if cards.get(i).n >= 52 {
            proof {
                assert(!cards.cards@[i as int].wf());
            }
            return false;
        }
        i += 1;
    }
    let played = hand_played(cards);
    if played.bitset >= 0x10_0000_0000_0000u64 {
        return false;
    }
    let mine = v.my_hand.unreduce(played);
    let seen = v.other_visible_hand.unreduce(played);
    let unseen = v.cards_in_other_hands.unreduce(played);
    if mine.bitset >= 0x10_0000_0000_0000u64 || seen.bitset >= 0x10_0000_0000_0000u64
        || unseen.bitset >= 0x10_0000_0000_0000u64 {
        return false;
    }
    proof {
        hand::lemma_count_cards(played.bitset, 64);
        hand::lemma_count_cards(mine.bitset, 64);
        hand::lemma_count_cards(seen.bitset, 64);
        hand::lemma_count_cards(unseen.bitset, 64);
        hand::lemma_count_below(played.bitset, 64);
        hand::lemma_count_below(mine.bitset, 64);
        hand::lemma_count_below(seen.bitset, 64);
        hand::lemma_count_below(unseen.bitset, 64);
        hand::lemma_count_below(v.my_hand.bitset, 64);
        hand::lemma_count_below(v.other_visible_hand.bitset, 64);
        hand::lemma_count_below(v.cards_in_other_hands.bitset, 64);
    }
    let k = cards.len() % 4;
    let turn = v.player;
    let seen_seat = match turn {
        Seat::Dummy => Seat::Declarer,
        _ => Seat::Dummy,
    };
    let (sooner, later) = match turn {
        Seat::Declarer => (Seat::AfterDeclarer, Seat::BeforeDeclarer),
        Seat::AfterDeclarer => (Seat::BeforeDeclarer, Seat::Declarer),
        Seat::Dummy => (Seat::BeforeDeclarer, Seat::AfterDeclarer),
        Seat::BeforeDeclarer => (Seat::Declarer, Seat::AfterDeclarer),
    };
    let all = mine.bitor(seen).bitor(unseen).bitor(played);
    played.len() as usize == cards.len() && (v.declarer_tricks as usize) * 4 <= cards.len()
        && v.current_trick.same(&gamestate::running_trick(cards)) && mine.bitset != 0 && mine.bitset
        & played.bitset == 0 && seen.bitset & played.bitset == 0 && unseen.bitset & played.bitset
        == 0 && mine.bitset & seen.bitset == 0 && mine.bitset & unseen.bitset == 0 && seen.bitset
        & unseen.bitset == 0 && mine.reduce(played).bitset == v.my_hand.bitset && seen.reduce(
        played,
    ).bitset == v.other_visible_hand.bitset && unseen.reduce(played).bitset
        == v.cards_in_other_hands.bitset && seen.len() + card_owed(turn, seen_seat, k)
        == mine.len() && unseen.len() + card_owed(turn, sooner, k) + card_owed(turn, later, k) == 2
        * mine.len() && v.my_hand.len() + v.other_visible_hand.len()
        + v.cards_in_other_hands.len() + played.len() == 52 && all.bitset == Hand::full().bitset
}

/// The deal in which the seat to play and the seat it sees hold what `v`
/// shows, and the two other seats hold `sooner` and `later`.
pub open spec fn dealt(
    v: InfoForTurnPlayer,
    contract: Contract,
    cards: PlayedCards,
    sooner: Hand,
    later: Hand,
) -> BridgeGamestate {
    let played = gamestate::hand_of_cards(cards@);
    let mine = v.my_hand.spec_unreduce(played);
    let seen = v.other_visible_hand.spec_unreduce(played);
    let (declarer, after_declarer, dummy, before_declarer) = match v.player {
        Seat::Declarer => (mine, sooner, seen, later),
        Seat::AfterDeclarer => (later, mine, seen, sooner),
        Seat::Dummy => (seen, later, mine, sooner),
        Seat::BeforeDeclarer => (sooner, later, seen, mine),
    };
    BridgeGamestate {
        contract,
        declarer_tricks: v.declarer_tricks,
        turn: v.player,
        cards_played: cards,
        hand_of_cards_played: played,
        before_declarer_hand: before_declarer,
        declarer_hand: declarer,
        after_declarer_hand: after_declarer,
        dummy_hand: dummy,
    }
}

/// Hands that hold no card in common have no bit in common, whichever is
/// named first.
pub proof fn lemma_apart(a: u64, b: u64)
    requires
        forall|n: u8| !(hand::bit_is_set(a, n) && hand::bit_is_set(b, n)),
    ensures
        a & b == 0,
        b & a == 0,
{
    hand::lemma_disjoint_by_cards(a, b);
    hand::lemma_disjoint_symmetric(a, b);
}

/// Any way of handing the cards not seen to the two seats that hold
/// them, the seat that plays sooner getting the odd card, is a deal of
/// which the seat to play sees `v`.
pub proof fn lemma_dealt(
    v: InfoForTurnPlayer,
    contract: Contract,
    cards: PlayedCards,
    sooner: Hand,
    later: Hand,
)
    requires
        sampleable(v, contract, cards),
        sooner.wf(),
        later.wf(),
        sooner.disjoint(later),
        sooner.spec_len() == (v.cards_in_other_hands.spec_unreduce(
            gamestate::hand_of_cards(cards@),
        ).spec_len() + 1) / 2,
        later.spec_len() == v.cards_in_other_hands.spec_unreduce(
            gamestate::hand_of_cards(cards@),
        ).spec_len() / 2,
        forall|n: u8|
            #![trigger hand::bit_is_set(sooner.bitset, n)]
            #![trigger hand::bit_is_set(later.bitset, n)]
            hand::bit_is_set(sooner.bitset, n) || hand::bit_is_set(later.bitset, n)
                <==> hand::bit_is_set(
                v.cards_in_other_hands.spec_unreduce(gamestate::hand_of_cards(cards@)).bitset,
                n,
            ),
    ensures
        dealt(v, contract, cards, sooner, later).valid(),
        dealt(v, contract, cards, sooner, later).whole(),
        dealt(v, contract, cards, sooner, later).spec_info() == VisibleInfoForBridgePlayer::InPlay(
            v,
        ),
{
    let played = gamestate::hand_of_cards(cards@);
    let mine = v.my_hand.spec_unreduce(played);
    let seen = v.other_visible_hand.spec_unreduce(played);
    let unseen = v.cards_in_other_hands.spec_unreduce(played);
    let state = dealt(v, contract, cards, sooner, later);
    assert forall|n: u8|
        !hand::bit_is_set(sooner.bitset, n) || (!hand::bit_is_set(mine.bitset, n)
            && !hand::bit_is_set(seen.bitset, n) && !hand::bit_is_set(played.bitset, n)) by {
        hand::lemma_disjoint_symmetric(mine.bitset, unseen.bitset);
        hand::lemma_disjoint_symmetric(seen.bitset, unseen.bitset);
        hand::lemma_cards_of_disjoint(unseen.bitset, mine.bitset, n);
        hand::lemma_cards_of_disjoint(unseen.bitset, seen.bitset, n);
        hand::lemma_cards_of_disjoint(unseen.bitset, played.bitset, n);
    }
    assert forall|n: u8|
        !hand::bit_is_set(later.bitset, n) || (!hand::bit_is_set(mine.bitset, n)
            && !hand::bit_is_set(seen.bitset, n) && !hand::bit_is_set(played.bitset, n)) by {
        hand::lemma_disjoint_symmetric(mine.bitset, unseen.bitset);
        hand::lemma_disjoint_symmetric(seen.bitset, unseen.bitset);
        hand::lemma_cards_of_disjoint(unseen.bitset, mine.bitset, n);
        hand::lemma_cards_of_disjoint(unseen.bitset, seen.bitset, n);
        hand::lemma_cards_of_disjoint(unseen.bitset, played.bitset, n);
    }
    lemma_apart(sooner.bitset, mine.bitset);
    lemma_apart(sooner.bitset, seen.bitset);
    lemma_apart(sooner.bitset, played.bitset);
    lemma_apart(later.bitset, mine.bitset);
    lemma_apart(later.bitset, seen.bitset);
    lemma_apart(later.bitset, played.bitset);
    hand::lemma_disjoint_symmetric(sooner.bitset, later.bitset);
    hand::lemma_disjoint_symmetric(mine.bitset, seen.bitset);
    hand::lemma_disjoint_symmetric(mine.bitset, played.bitset);
    hand::lemma_disjoint_symmetric(seen.bitset, played.bitset);
    assert(state.apart());
    assert(state.hand_of(v.player) == mine);
    assert(state.hand_of(seen_seat(v.player)) == seen);
    assert(state.hand_of(sooner_unseen(v.player)) == sooner);
    assert(state.hand_of(later_unseen(v.player)) == later);
    assert(state.evenly_held()) by {
        assert forall|seat: Seat|
            (#[trigger] state.hand_of(seat)).spec_len() + gamestate::owed(
                state.turn,
                seat,
                state.in_trick(),
            ) == state.hand_of(state.turn).spec_len() by {
            assert(seat == v.player || seat == seen_seat(v.player) || seat == sooner_unseen(
                v.player,
            ) || seat == later_unseen(v.player));
        }
    }
    assert(state.seen_hand() == seen);
    // the cards of the two other seats are the cards not seen
    let all = state.declarer_hand.spec_union(state.after_declarer_hand).spec_union(
        state.before_declarer_hand,
    ).spec_union(state.dummy_hand);
    assert forall|n: u8| n < 64 implies hand::bit_is_set(state.unseen_cards().bitset, n)
        == hand::bit_is_set(unseen.bitset, n) by {
        let d = state.declarer_hand.bitset;
        let a = state.after_declarer_hand.bitset;
        let b = state.before_declarer_hand.bitset;
        let u = state.dummy_hand.bitset;
        hand::lemma_or_bits(d, a, n as u64);
        hand::lemma_or_bits(d | a, b, n as u64);
        hand::lemma_or_bits((d | a) | b, u, n as u64);
        hand::lemma_and_not_bits(all.bitset, mine.bitset, n as u64);
        hand::lemma_and_not_bits(all.bitset & !mine.bitset, seen.bitset, n as u64);
        hand::lemma_cards_of_disjoint(mine.bitset, unseen.bitset, n);
        hand::lemma_cards_of_disjoint(seen.bitset, unseen.bitset, n);
        assert(all.bitset == ((d | a) | b) | u);
        assert(hand::bit_is_set(all.bitset, n) == (hand::bit_is_set(d, n) || hand::bit_is_set(a, n)
            || hand::bit_is_set(b, n) || hand::bit_is_set(u, n)));
        assert(hand::bit_is_set(all.bitset, n) == (hand::bit_is_set(mine.bitset, n)
            || hand::bit_is_set(seen.bitset, n) || hand::bit_is_set(sooner.bitset, n)
            || hand::bit_is_set(later.bitset, n)));
        assert(state.unseen_cards().bitset == (all.bitset & !mine.bitset) & !seen.bitset);
        assert(hand::bit_is_set((all.bitset & !mine.bitset) & !seen.bitset, n) == (
        hand::bit_is_set(all.bitset, n) && !hand::bit_is_set(mine.bitset, n) && !hand::bit_is_set(
            seen.bitset,
            n,
        )));
    }
    hand::lemma_same_bits(state.unseen_cards().bitset, unseen.bitset);
    // every card is held or was played
    let pack = ((mine.bitset | seen.bitset) | unseen.bitset) | played.bitset;
    assert(pack == Hand::spec_full().bitset);
    assert forall|n: u8|
        #![trigger hand::bit_is_set(state.hand_of_cards_played.bitset, n)]
        n < 52 implies hand::bit_is_set(state.hand_of_cards_played.bitset, n) || hand::bit_is_set(
            state.declarer_hand.bitset,
            n,
        ) || hand::bit_is_set(state.after_declarer_hand.bitset, n) || hand::bit_is_set(
            state.dummy_hand.bitset,
            n,
        ) || hand::bit_is_set(state.before_declarer_hand.bitset, n) by {
        hand::lemma_or_bits(mine.bitset, seen.bitset, n as u64);
        hand::lemma_or_bits(mine.bitset | seen.bitset, unseen.bitset, n as u64);
        hand::lemma_or_bits((mine.bitset | seen.bitset) | unseen.bitset, played.bitset, n as u64);
        hand::lemma_all_cards(n);
    }
}

/// The cards that the seat to play does not see are those of the two
/// seats whose hands it does not see: a hand of cards that has no card
/// in common with the hands seen or the cards played.
pub proof fn lemma_unseen_cards(state: BridgeGamestate)
    requires
        state.valid(),
    ensures
        state.unseen_cards().bitset == state.hand_of(sooner_unseen(state.turn)).bitset
            | state.hand_of(later_unseen(state.turn)).bitset,
        state.hand_of(sooner_unseen(state.turn)).disjoint(
            state.hand_of(later_unseen(state.turn)),
        ),
        state.unseen_cards().wf(),
        state.unseen_cards().disjoint(state.hand_of_cards_played),
        state.hand_of(state.turn).disjoint(state.unseen_cards()),
        state.seen_hand().disjoint(state.unseen_cards()),
        state.hand_of(state.turn).disjoint(state.seen_hand()),
        state.hand_of(state.turn).disjoint(state.hand_of_cards_played),
        state.seen_hand().disjoint(state.hand_of_cards_played),
        state.hand_of(state.turn).wf(),
        state.seen_hand().wf(),
        state.hand_of(seen_seat(state.turn)) == state.seen_hand(),
{
    let played = state.hand_of_cards_played.bitset;
    let held = state.hand_of(state.turn).bitset;
    let seen = state.seen_hand().bitset;
    let unseen = state.unseen_cards().bitset;
    let sooner = state.hand_of(sooner_unseen(state.turn)).bitset;
    let later = state.hand_of(later_unseen(state.turn)).bitset;
    let d = state.declarer_hand.bitset;
    let a = state.after_declarer_hand.bitset;
    let b = state.before_declarer_hand.bitset;
    let u = state.dummy_hand.bitset;
    let all = ((d | a) | b) | u;
    hand::lemma_disjoint_symmetric(d, a);
    hand::lemma_disjoint_symmetric(d, u);
    hand::lemma_disjoint_symmetric(d, b);
    hand::lemma_disjoint_symmetric(a, u);
    hand::lemma_disjoint_symmetric(a, b);
    hand::lemma_disjoint_symmetric(u, b);
    assert(state.unseen_cards().bitset == (all & !held) & !seen);
    assert forall|n: u8| n < 64 implies hand::bit_is_set(unseen, n) == hand::bit_is_set(
        sooner | later,
        n,
    ) by {
        hand::lemma_or_bits(d, a, n as u64);
        hand::lemma_or_bits(d | a, b, n as u64);
        hand::lemma_or_bits((d | a) | b, u, n as u64);
        hand::lemma_and_not_bits(all, held, n as u64);
        hand::lemma_and_not_bits(all & !held, seen, n as u64);
        hand::lemma_or_bits(sooner, later, n as u64);
        hand::lemma_cards_of_disjoint(held, sooner, n);
        hand::lemma_cards_of_disjoint(held, later, n);
        hand::lemma_cards_of_disjoint(seen, sooner, n);
        hand::lemma_cards_of_disjoint(seen, later, n);
        assert(hand::bit_is_set(all, n) == (hand::bit_is_set(held, n) || hand::bit_is_set(seen, n)
            || hand::bit_is_set(sooner, n) || hand::bit_is_set(later, n)));
    }
    hand::lemma_same_bits(unseen, sooner | later);
    hand::lemma_or_bits(sooner, later, 0);
    assert forall|n: u8|
        !(hand::bit_is_set(unseen, n) && (hand::bit_is_set(played, n) || hand::bit_is_set(held, n)
            || hand::bit_is_set(seen, n))) by {
        if n < 64 {
            hand::lemma_or_bits(sooner, later, n as u64);
            hand::lemma_cards_of_disjoint(sooner, played, n);
            hand::lemma_cards_of_disjoint(later, played, n);
            hand::lemma_cards_of_disjoint(held, sooner, n);
            hand::lemma_cards_of_disjoint(held, later, n);
            hand::lemma_cards_of_disjoint(seen, sooner, n);
            hand::lemma_cards_of_disjoint(seen, later, n);
        }
    }
    lemma_apart(unseen, played);
    lemma_apart(unseen, held);
    lemma_apart(unseen, seen);
}

/// What the seat to play sees of a deal of the whole pack can be dealt
/// out.
pub proof fn lemma_seen_can_be_dealt(state: BridgeGamestate)
    requires
        state.valid(),
        state.whole(),
        !state.played_out(),
    ensures
        state.spec_info() is InPlay,
        sampleable(state.spec_info()->InPlay_0, state.contract, state.cards_played),
{
    let played = state.hand_of_cards_played;
    let held = state.hand_of(state.turn);
    let seen = state.seen_hand();
    let unseen = state.unseen_cards();
    let sooner = state.hand_of(sooner_unseen(state.turn));
    let later = state.hand_of(later_unseen(state.turn));
    state.lemma_mover_holds_a_card();
    lemma_unseen_cards(state);
    // ranked and put back, the hands are what they were
    hand::lemma_ranked_hand(held, played);
    hand::lemma_ranked_hand(seen, played);
    hand::lemma_ranked_hand(unseen, played);
    // the two seats not seen hold the cards not seen
    hand::lemma_count_of_union(sooner.bitset, later.bitset, 52);
    assert(state.hand_of(sooner_unseen(state.turn)).spec_len() + gamestate::owed(
        state.turn,
        sooner_unseen(state.turn),
        state.in_trick(),
    ) == held.spec_len());
    assert(state.hand_of(later_unseen(state.turn)).spec_len() + gamestate::owed(
        state.turn,
        later_unseen(state.turn),
        state.in_trick(),
    ) == held.spec_len());
    assert(state.hand_of(seen_seat(state.turn)).spec_len() + gamestate::owed(
        state.turn,
        seen_seat(state.turn),
        state.in_trick(),
    ) == held.spec_len());
    // the hands and the cards played are the whole pack
    lemma_whole_pack(state);
    hand::lemma_count_cards(played.bitset, 64);
}

/// In a deal of the whole pack the hands that the seat to play sees, the
/// cards it does not see and the cards played are all the cards, and
/// fifty-two together.
pub proof fn lemma_whole_pack(state: BridgeGamestate)
    requires
        state.valid(),
        state.whole(),
    ensures
        state.hand_of(state.turn).spec_union(state.seen_hand()).spec_union(
            state.unseen_cards(),
        ).spec_union(state.hand_of_cards_played) == Hand::spec_full(),
        state.hand_of(state.turn).spec_len() + state.seen_hand().spec_len()
            + state.unseen_cards().spec_len() + state.hand_of_cards_played.spec_len() == 52,
{
    let played = state.hand_of_cards_played.bitset;
    let held = state.hand_of(state.turn).bitset;
    let seen = state.seen_hand().bitset;
    let unseen = state.unseen_cards().bitset;
    let sooner = state.hand_of(sooner_unseen(state.turn)).bitset;
    let later = state.hand_of(later_unseen(state.turn)).bitset;
    lemma_unseen_cards(state);
    let pack = ((held | seen) | unseen) | played;
    hand::lemma_or_bits(held, seen, 0);
    hand::lemma_or_bits(held | seen, unseen, 0);
    hand::lemma_or_bits((held | seen) | unseen, played, 0);
    assert forall|n: u8| n < 64 implies hand::bit_is_set(pack, n) == (hand::bit_is_set(held, n)
        || hand::bit_is_set(seen, n) || hand::bit_is_set(unseen, n) || hand::bit_is_set(played, n))
        && hand::bit_is_set(held | seen, n) == (hand::bit_is_set(held, n) || hand::bit_is_set(
        seen,
        n,
    )) && hand::bit_is_set((held | seen) | unseen, n) == (hand::bit_is_set(held, n)
        || hand::bit_is_set(seen, n) || hand::bit_is_set(unseen, n)) && hand::bit_is_set(unseen, n)
        == (hand::bit_is_set(sooner, n) || hand::bit_is_set(later, n)) by {
        hand::lemma_or_bits(held, seen, n as u64);
        hand::lemma_or_bits(held | seen, unseen, n as u64);
        hand::lemma_or_bits((held | seen) | unseen, played, n as u64);
        hand::lemma_or_bits(sooner, later, n as u64);
    }
    assert forall|n: u8| n < 52 implies #[trigger] hand::bit_is_set(pack, n) by {
        assert(hand::bit_is_set(state.hand_of_cards_played.bitset, n) || hand::bit_is_set(
            state.declarer_hand.bitset,
            n,
        ) || hand::bit_is_set(state.after_declarer_hand.bitset, n) || hand::bit_is_set(
            state.dummy_hand.bitset,
            n,
        ) || hand::bit_is_set(state.before_declarer_hand.bitset, n));
    }
    hand::lemma_every_card_set(pack);
    hand::lemma_count_of_all(pack, 52);
    assert forall|n: u8|
        !(hand::bit_is_set(held | seen, n) && hand::bit_is_set(unseen, n)) && !(hand::bit_is_set(
            (held | seen) | unseen,
            n,
        ) && hand::bit_is_set(played, n)) by {
        if n < 64 {
            hand::lemma_cards_of_disjoint(held, unseen, n);
            hand::lemma_cards_of_disjoint(seen, unseen, n);
            hand::lemma_cards_of_disjoint(held, played, n);
            hand::lemma_cards_of_disjoint(seen, played, n);
            hand::lemma_cards_of_disjoint(unseen, played, n);
        }
    }
    lemma_apart(held | seen, unseen);
    lemma_apart((held | seen) | unseen, played);
    hand::lemma_count_of_union(held, seen, 52);
    hand::lemma_count_of_union(held | seen, unseen, 52);
    hand::lemma_count_of_union((held | seen) | unseen, played, 52);
}

/// Deals out, at random, the cards that the seat to play cannot see.
pub struct GamestateSamplerForBridgePlayerInfo {
    pub v: InfoForTurnPlayer,
    pub played_cards_vec: PlayedCards,
    pub played_cards: Hand,
    pub contract: Contract,
}

impl GamestateSamplerForBridgePlayerInfo {
    /// What is shown can be dealt out, and the hand of the cards played
    /// holds the cards played.
    pub open spec fn wf(&self) -> bool {
        &&& sampleable(self.v, self.contract, self.played_cards_vec)
        &&& self.played_cards == gamestate::hand_of_cards(self.played_cards_vec@)
    }

    /// The number of deals there are: the ways to choose, among the cards
    /// not seen, those of the seat that plays sooner, which gets the odd
    /// card.
    pub open spec fn deals(&self) -> nat {
        let n = self.v.cards_in_other_hands.spec_unreduce(self.played_cards).spec_len();
        sampler::count_of(n, (n + 1) / 2)
    }

    /// The probability every deal is drawn with: one over the number of
    /// deals, in billionths.
    pub open spec fn spec_probability(&self) -> int {
        PROBABILITY_ONE as int / (self.deals() as int)
    }

    /// The sampler that deals out the cards not seen at `v`.
    pub fn new(v: InfoForTurnPlayer, contract: Contract, played_cards_vec: PlayedCards) -> (sampler:
        Self)
        requires
            sampleable(v, contract, played_cards_vec),
        ensures
            sampler.wf(),
            sampler.v == v,
            sampler.contract == contract,
            sampler.played_cards_vec == played_cards_vec,
    {
        let played_cards = hand_played(&played_cards_vec);
        Self { v, played_cards, played_cards_vec, contract }
    }
}

impl GamestateSampler<
    VisibleInfoForBridgePlayer,
    BridgeGamestate,
> for GamestateSamplerForBridgePlayerInfo {
    open spec fn valid(&self) -> bool {
        self.wf()
    }

    open spec fn info(&self) -> VisibleInfoForBridgePlayer {
        VisibleInfoForBridgePlayer::InPlay(self.v)
    }

    open spec fn reports(&self, probability: Probability) -> bool {
        probability == self.spec_probability()
    }

    /// Deals the cards not seen to the two seats that hold them, card by
    /// card in turn, the seat that plays sooner first: a deal of the whole
    /// pack, under the contract and with the cards played of the sampler,
    /// reported with one over the number of deals.
    fn sample(&mut self) -> (drawn: (BridgeGamestate, Probability))
        ensures
            *final(self) == *old(self),
            drawn.0.whole(),
            drawn.0.contract == old(self).contract,
            drawn.0.cards_played == old(self).played_cards_vec,
            drawn.1 == old(self).spec_probability(),
    {
        let my_hand = self.v.my_hand.unreduce(self.played_cards);
        let other_hand = self.v.other_visible_hand.unreduce(self.played_cards);
        let mut mystery_hand_one = Hand::default();
        let mut mystery_hand_two = Hand::default();

        let unseen = self.v.cards_in_other_hands.unreduce(self.played_cards);
        let pick_from = unseen.cards();
        proof {
            hand::lemma_count_cards(unseen.bitset, 64);
            hand::lemma_count_below(unseen.bitset, 52);
        }
        let n = unseen.len();
        let ways = sampler::count_combinations(n, (n + 1) / 2);
        proof {
            sampler::lemma_binomial_bounds(
                n as nat,
                sampler::count_by(n as nat, ((n + 1) / 2) as nat),
            );
        }
        let probability: Probability = PROBABILITY_ONE / ways;
        proof {
            hand::lemma_count_below(unseen.bitset, 52);
            hand::lemma_nothing_counted(52);
            hand::lemma_empty_disjoint(0);
            assert forall|n: u8| !hand::bit_is_set(0u64, n) by {
                hand::lemma_cards_of_disjoint(0, 0, n);
            }
            assert forall|n: u8| sampler::in_pool(pick_from@, n) <==> hand::bit_is_set(
                unseen.bitset,
                n,
            ) by {
                if hand::bit_is_set(unseen.bitset, n) {
                    if n >= 52 {
                        hand::lemma_no_high_bits(unseen.bitset, n as u64);
                    }
                    assert(pick_from@.contains(Card { n }));
                }
            }
        }
        fill_hands(pick_from, &mut mystery_hand_one, &mut mystery_hand_two);

        let (declarer, after_declarer, dummy, before_declarer) = match self.v.player {
            // The first of the two hands never holds fewer cards than the
            // second, so it goes to the seat that plays sooner.
            Seat::Declarer => (my_hand, mystery_hand_one, other_hand, mystery_hand_two),
            Seat::AfterDeclarer => (mystery_hand_two, my_hand, other_hand, mystery_hand_one),
            Seat::Dummy => (other_hand, mystery_hand_two, my_hand, mystery_hand_one),
            Seat::BeforeDeclarer => (mystery_hand_one, mystery_hand_two, other_hand, my_hand),
        };

        let gamestate = BridgeGamestate {
            contract: self.contract,
            declarer_tricks: self.v.declarer_tricks,
            turn: self.v.player,
            dummy_hand: dummy,
            declarer_hand: declarer,
            after_declarer_hand: after_declarer,
            before_declarer_hand: before_declarer,
            cards_played: self.played_cards_vec,
            hand_of_cards_played: self.played_cards,
        };
        proof {
            lemma_dealt(
                self.v,
                self.contract,
                self.played_cards_vec,
                mystery_hand_one,
                mystery_hand_two,
            );
            assert(gamestate == dealt(
                self.v,
                self.contract,
                self.played_cards_vec,
                mystery_hand_one,
                mystery_hand_two,
            ));
        }
        (gamestate, probability)
    }
}

} // verus!
