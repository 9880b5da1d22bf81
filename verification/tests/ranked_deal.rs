use cfr_solver::bridge::card::{Card, Rank, Suit};
use cfr_solver::bridge::contract::{Contract, Doubling};
use cfr_solver::bridge::game::PlayedCards;
use cfr_solver::bridge::gamestate::{running_trick, BridgeGamestate};
use cfr_solver::bridge::gamestate_sampler::{
    can_sample, fill_hands, hand_played, GamestateSamplerForBridgePlayerInfo,
};
use cfr_solver::bridge::hand::Hand;
use cfr_solver::bridge::player_info::{InfoForTurnPlayer, Trick, VisibleInfoForBridgePlayer};
use cfr_solver::bridge::seat::Seat;
use cfr_solver::cfr::game_model::{
    GamestateSampler, OracleGamestate, UtilityForAllPlayers, VisibleInfo, PROBABILITY_ONE,
};
use cfr_solver::cfr::strategy_generation::strategy_generator::StrategyGenerator;
use std::collections::HashSet;

fn c(suit: Suit, rank: Rank) -> Card {
    Card::new(suit, rank)
}

fn played(cards: &[Card]) -> PlayedCards {
    let mut all = PlayedCards::new();
    for card in cards {
        all.push(*card);
    }
    all
}

fn four_spades() -> Contract {
    Contract {
        trump: Some(Suit::Spades),
        n: 4,
        doubling: Doubling::Undoubled,
        declarer_vulnerable: false,
        defender_vulnerable: false,
    }
}

/// The last two tricks of a deal in four spades, the declarer to lead.
fn two_tricks_left() -> BridgeGamestate {
    let declarer = Hand::new(&[c(Suit::Spades, Rank::Ace), c(Suit::Hearts, Rank::Two)]);
    let after = Hand::new(&[c(Suit::Spades, Rank::Queen), c(Suit::Hearts, Rank::Ace)]);
    let dummy = Hand::new(&[c(Suit::Spades, Rank::King), c(Suit::Hearts, Rank::Three)]);
    let before = Hand::new(&[c(Suit::Spades, Rank::Jack), c(Suit::Hearts, Rank::King)]);
    let gone = Hand::full().minus(declarer).minus(after).minus(dummy).minus(before);
    BridgeGamestate {
        contract: four_spades(),
        declarer_tricks: 8,
        turn: Seat::Declarer,
        cards_played: PlayedCards::from_hand(&gone),
        hand_of_cards_played: gone,
        before_declarer_hand: before,
        declarer_hand: declarer,
        after_declarer_hand: after,
        dummy_hand: dummy,
    }
}

fn in_play(info: VisibleInfoForBridgePlayer) -> InfoForTurnPlayer {
    match info {
        VisibleInfoForBridgePlayer::InPlay(v) => v,
        VisibleInfoForBridgePlayer::Terminal { .. } => panic!("play has ended"),
    }
}

fn moves_of(info: &VisibleInfoForBridgePlayer) -> (Vec<Card>, Option<UtilityForAllPlayers>) {
    let mut moves = Vec::new();
    let end = info.run_for_moves(&mut moves);
    (moves, end)
}

#[test]
fn the_seat_to_play_sees_the_cards_as_they_rank() {
    let state = two_tricks_left();
    let v = in_play(state.info_for_turn_player());
    assert_eq!(v.player, Seat::Declarer);
    assert_eq!(v.declarer_tricks, 8);
    // the ace is the highest spade anyway; the three of hearts lies above the two
    assert_eq!(
        v.my_hand,
        Hand::new(&[c(Suit::Spades, Rank::Ace), c(Suit::Hearts, Rank::Two)])
    );
    // the hearts from the four to the queen are gone: the three ranks as the queen
    assert_eq!(
        v.other_visible_hand,
        Hand::new(&[c(Suit::Spades, Rank::King), c(Suit::Hearts, Rank::Queen)])
    );
    assert_eq!(
        v.cards_in_other_hands,
        Hand::new(&[
            c(Suit::Spades, Rank::Queen),
            c(Suit::Spades, Rank::Jack),
            c(Suit::Hearts, Rank::Ace),
            c(Suit::Hearts, Rank::King),
        ])
    );
    assert_eq!(v.current_trick, Trick::new());
    assert_eq!(state.players_playing(), 4);
    assert_eq!(state.turn(), 0);
    let info = VisibleInfoForBridgePlayer::InPlay(v);
    assert_eq!(info.players_playing(), 4);
    assert_eq!(info.turn(), 0);
    let (moves, end) = moves_of(&info);
    assert_eq!(end, None);
    assert_eq!(moves, vec![c(Suit::Hearts, Rank::Two), c(Suit::Spades, Rank::Ace)]);
}

#[test]
fn a_ranked_card_played_is_the_card_it_stands_for() {
    let state = two_tricks_left();
    let state = state.advance(&c(Suit::Spades, Rank::Ace));
    assert_eq!(state.turn, Seat::AfterDeclarer);
    assert_eq!(state.declarer_hand, Hand::new(&[c(Suit::Hearts, Rank::Two)]));
    assert_eq!(state.cards_played.len(), 45);
    assert_eq!(state.cards_played.get(44), c(Suit::Spades, Rank::Ace));
    assert!(state.hand_of_cards_played.contains(c(Suit::Spades, Rank::Ace)));

    // the seat after the declarer has to follow with the queen
    let info = state.info_for_turn_player();
    let v = in_play(info);
    assert_eq!(v.current_trick.len, 1);
    assert_eq!(v.current_trick.first(), Some(c(Suit::Spades, Rank::Ace)));
    let (moves, _) = moves_of(&info);
    assert_eq!(moves, vec![c(Suit::Spades, Rank::Queen)]);
    let state = state.advance(&moves[0]);

    // with the ace gone the king of the dummy ranks as the ace
    assert_eq!(state.turn, Seat::Dummy);
    let info = state.info_for_turn_player();
    let (moves, _) = moves_of(&info);
    assert_eq!(moves, vec![c(Suit::Spades, Rank::Ace)]);
    let state = state.advance(&moves[0]);
    assert_eq!(state.dummy_hand, Hand::new(&[c(Suit::Hearts, Rank::Three)]));
    assert_eq!(state.cards_played.get(46), c(Suit::Spades, Rank::King));

    // and so does the jack once the queen and the king are gone too
    assert_eq!(state.turn, Seat::BeforeDeclarer);
    let info = state.info_for_turn_player();
    let (moves, _) = moves_of(&info);
    assert_eq!(moves, vec![c(Suit::Spades, Rank::Ace)]);
    let state = state.advance(&moves[0]);
    assert_eq!(state.before_declarer_hand, Hand::new(&[c(Suit::Hearts, Rank::King)]));
    assert_eq!(state.cards_played.get(47), c(Suit::Spades, Rank::Jack));

    // the declarer led the ace and takes the trick
    assert_eq!(state.turn, Seat::Declarer);
    assert_eq!(state.declarer_tricks, 9);
    assert_eq!(state.cards_played.len(), 48);
    assert_eq!(running_trick(&state.cards_played), Trick::new());
}

#[test]
fn the_last_trick_ends_the_deal_with_the_score_of_the_contract() {
    let mut state = two_tricks_left();
    for _ in 0..4 {
        let (moves, _) = moves_of(&state.info_for_turn_player());
        state = state.advance(&moves[moves.len() - 1]);
    }
    assert_eq!(state.declarer_tricks, 9);
    // two of hearts, ace, three, king: the seat after the declarer takes it
    for expected in [Seat::AfterDeclarer, Seat::Dummy, Seat::BeforeDeclarer, Seat::AfterDeclarer] {
        let (moves, end) = moves_of(&state.info_for_turn_player());
        assert_eq!(end, None);
        assert_eq!(moves.len(), 1);
        state = state.advance(&moves[0]);
        assert_eq!(state.turn, expected);
    }
    assert_eq!(state.declarer_tricks, 9);
    assert_eq!(state.cards_played.len(), 52);
    assert_eq!(state.hand_of_cards_played, Hand::full());
    let info = state.info_for_turn_player();
    assert_eq!(
        info,
        VisibleInfoForBridgePlayer::Terminal { contract: four_spades(), declarer_tricks: 9 }
    );
    assert_eq!(info.turn(), 0);
    assert_eq!(state.turn(), 0);
    let (moves, end) = moves_of(&info);
    assert_eq!(moves, vec![]);
    // four spades with nine tricks is one down, not vulnerable
    let points = -50 * (PROBABILITY_ONE as i64);
    assert_eq!(end, Some(UtilityForAllPlayers { util: [points, -points, points, -points] }));
}

#[test]
fn a_trump_takes_the_trick_from_a_higher_plain_card() {
    let declarer = Hand::new(&[c(Suit::Hearts, Rank::Ace)]);
    let after = Hand::new(&[c(Suit::Spades, Rank::Two)]);
    let dummy = Hand::new(&[c(Suit::Hearts, Rank::King)]);
    let before = Hand::new(&[c(Suit::Spades, Rank::Three)]);
    let gone = Hand::full().minus(declarer).minus(after).minus(dummy).minus(before);
    let mut state = BridgeGamestate {
        contract: four_spades(),
        declarer_tricks: 10,
        turn: Seat::Declarer,
        cards_played: PlayedCards::from_hand(&gone),
        hand_of_cards_played: gone,
        before_declarer_hand: before,
        declarer_hand: declarer,
        after_declarer_hand: after,
        dummy_hand: dummy,
    };
    for _ in 0..4 {
        let (moves, _) = moves_of(&state.info_for_turn_player());
        assert_eq!(moves.len(), 1);
        state = state.advance(&moves[0]);
    }
    // the three of spades is the higher of the two trumps
    assert_eq!(state.turn, Seat::BeforeDeclarer);
    assert_eq!(state.declarer_tricks, 10);
    assert_eq!(state.cards_played.get(48), c(Suit::Hearts, Rank::Ace));
    assert_eq!(state.cards_played.get(49), c(Suit::Spades, Rank::Two));
    assert_eq!(state.cards_played.get(50), c(Suit::Hearts, Rank::King));
    assert_eq!(state.cards_played.get(51), c(Suit::Spades, Rank::Three));

    // without a trump suit the ace of hearts holds the trick
    let mut state = BridgeGamestate {
        contract: Contract { trump: None, ..four_spades() },
        declarer_tricks: 10,
        turn: Seat::Declarer,
        cards_played: PlayedCards::from_hand(&gone),
        hand_of_cards_played: gone,
        before_declarer_hand: before,
        declarer_hand: declarer,
        after_declarer_hand: after,
        dummy_hand: dummy,
    };
    for _ in 0..4 {
        let (moves, _) = moves_of(&state.info_for_turn_player());
        state = state.advance(&moves[0]);
    }
    assert_eq!(state.turn, Seat::Declarer);
    assert_eq!(state.declarer_tricks, 11);
}

#[test]
fn the_hand_of_the_cards_played_holds_each_of_them() {
    let cards = played(&[
        c(Suit::Clubs, Rank::Two),
        c(Suit::Spades, Rank::Ace),
        c(Suit::Hearts, Rank::Ten),
    ]);
    assert_eq!(
        hand_played(&cards),
        Hand::new(&[
            c(Suit::Hearts, Rank::Ten),
            c(Suit::Clubs, Rank::Two),
            c(Suit::Spades, Rank::Ace),
        ])
    );
    assert_eq!(hand_played(&PlayedCards::new()), Hand::empty());
    let trick = running_trick(&cards);
    assert_eq!(trick.len, 3);
    assert_eq!(trick.cards[0], c(Suit::Clubs, Rank::Two));
    assert_eq!(trick.cards[1], c(Suit::Spades, Rank::Ace));
    assert_eq!(trick.cards[2], c(Suit::Hearts, Rank::Ten));
    assert!(trick.same(&trick));
    assert!(!trick.same(&Trick::new()));
}

#[test]
fn cards_are_dealt_to_two_hands_in_turn() {
    let pool = Hand::new(&[
        c(Suit::Clubs, Rank::Two),
        c(Suit::Clubs, Rank::Three),
        c(Suit::Clubs, Rank::Four),
        c(Suit::Clubs, Rank::Five),
        c(Suit::Clubs, Rank::Six),
    ]);
    let mut first = Hand::new(&[c(Suit::Spades, Rank::Ace)]);
    let mut second = Hand::empty();
    fill_hands(pool.cards(), &mut first, &mut second);
    assert_eq!(first.len(), 4);
    assert_eq!(second.len(), 2);
    assert!(first.contains(c(Suit::Spades, Rank::Ace)));
    assert!(first.bitand(second).is_empty());
    assert_eq!(first.bitor(second), pool.with_card(c(Suit::Spades, Rank::Ace)));
}

#[test]
fn what_a_seat_sees_of_a_deal_can_be_dealt_out() {
    let state = two_tricks_left();
    let v = in_play(state.info_for_turn_player());
    assert!(can_sample(&v, &state.contract, &state.cards_played));

    // a card played that is missing leaves the pack incomplete
    let mut fewer = state.cards_played;
    fewer.len -= 1;
    assert!(!can_sample(&v, &state.contract, &fewer));
    // a trick that was not played
    let mut other = v;
    other.current_trick.push(c(Suit::Spades, Rank::Ace));
    assert!(!can_sample(&other, &state.contract, &state.cards_played));
    // a hand too many
    let mut other = v;
    other.cards_in_other_hands = other.cards_in_other_hands.bitor(v.my_hand);
    assert!(!can_sample(&other, &state.contract, &state.cards_played));
    // a level that no contract has
    let bad = Contract { n: 8, ..four_spades() };
    assert!(!can_sample(&v, &bad, &state.cards_played));

    // in the middle of a trick too
    let state = state.advance(&c(Suit::Spades, Rank::Ace));
    let v = in_play(state.info_for_turn_player());
    assert!(can_sample(&v, &state.contract, &state.cards_played));
}

#[test]
fn every_deal_drawn_looks_the_same_to_the_seat_to_play() {
    let state = two_tricks_left();
    let v = in_play(state.info_for_turn_player());
    assert!(can_sample(&v, &state.contract, &state.cards_played));
    let mut sampler =
        GamestateSamplerForBridgePlayerInfo::new(v, state.contract, state.cards_played);
    assert_eq!(sampler.played_cards, state.hand_of_cards_played);
    let hidden = state.after_declarer_hand.bitor(state.before_declarer_hand);
    let mut seen = HashSet::new();
    for _ in 0..600 {
        let (drawn, probability) = sampler.sample();
        // four cards not seen go two and two: six deals, each as likely
        assert_eq!(probability, PROBABILITY_ONE / 6);
        assert_eq!(drawn.info_for_turn_player(), VisibleInfoForBridgePlayer::InPlay(v));
        assert_eq!(drawn.declarer_hand, state.declarer_hand);
        assert_eq!(drawn.dummy_hand, state.dummy_hand);
        assert_eq!(drawn.cards_played, state.cards_played);
        assert_eq!(drawn.hand_of_cards_played, state.hand_of_cards_played);
        assert_eq!(drawn.after_declarer_hand.len(), 2);
        assert_eq!(drawn.before_declarer_hand.len(), 2);
        assert!(drawn.after_declarer_hand.bitand(drawn.before_declarer_hand).is_empty());
        assert_eq!(drawn.after_declarer_hand.bitor(drawn.before_declarer_hand), hidden);
        seen.insert(drawn.after_declarer_hand);
    }
    // four cards go two and two: six deals
    assert_eq!(seen.len(), 6);
}

#[test]
fn in_the_middle_of_a_trick_the_seat_that_has_played_gets_a_card_fewer() {
    let state = two_tricks_left().advance(&c(Suit::Spades, Rank::Ace));
    let v = in_play(state.info_for_turn_player());
    assert_eq!(v.player, Seat::AfterDeclarer);
    let mut sampler =
        GamestateSamplerForBridgePlayerInfo::new(v, state.contract, state.cards_played);
    let mut seen = HashSet::new();
    for _ in 0..300 {
        let (drawn, probability) = sampler.sample();
        assert_eq!(probability, PROBABILITY_ONE / 3);
        assert_eq!(drawn.info_for_turn_player(), VisibleInfoForBridgePlayer::InPlay(v));
        assert_eq!(drawn.after_declarer_hand, state.after_declarer_hand);
        assert_eq!(drawn.dummy_hand, state.dummy_hand);
        assert_eq!(drawn.before_declarer_hand.len(), 2);
        assert_eq!(drawn.declarer_hand.len(), 1);
        seen.insert(drawn.declarer_hand);
    }
    // three cards, one of them for the declarer
    assert_eq!(seen.len(), 3);
}

#[test]
fn the_last_two_tricks_are_solved_with_ranked_cards() {
    let state = two_tricks_left();
    let v = in_play(state.info_for_turn_player());
    let sampler = GamestateSamplerForBridgePlayerInfo::new(v, state.contract, state.cards_played);
    let mut generator: StrategyGenerator<VisibleInfoForBridgePlayer> = StrategyGenerator::new();
    let mut sampler = generator.refine_strategy(sampler, 128);
    let view = generator.strategy_for_info(VisibleInfoForBridgePlayer::InPlay(v));
    assert_eq!(view.move_count(), 2);
    let total: u64 = view.move_probabilities().iter().map(|(_, p)| *p).sum();
    assert!(total <= PROBABILITY_ONE && total > PROBABILITY_ONE - 2);

    let mut board = sampler.sample().0;
    let mut cards = 0;
    while let Some(m) = generator.strategy_for_info(board.info_for_turn_player()).pick_move() {
        let (moves, _) = moves_of(&board.info_for_turn_player());
        assert!(moves.contains(&m));
        board = board.advance(&m);
        cards += 1;
    }
    assert_eq!(cards, 8);
    assert_eq!(board.cards_played.len(), 52);
    // the declaring side has the ace and the king of trumps and no heart to win
    assert!(board.declarer_tricks == 9 || board.declarer_tricks == 10);
}

/// Deals the cards not seen at `v` and plays the deal out, every seat
/// playing any of its cards that may be played.
fn deal_and_play_out(v: InfoForTurnPlayer, contract: Contract, cards: PlayedCards) -> BridgeGamestate {
    assert!(can_sample(&v, &contract, &cards));
    let mut sampler = GamestateSamplerForBridgePlayerInfo::new(v, contract, cards);
    let generator: StrategyGenerator<VisibleInfoForBridgePlayer> = StrategyGenerator::new();
    let mut board = sampler.sample().0;
    assert_eq!(board.info_for_turn_player(), VisibleInfoForBridgePlayer::InPlay(v));
    let mut tricks = board.declarer_tricks;
    while let Some(m) = generator.strategy_for_info(board.info_for_turn_player()).pick_move() {
        let before = board;
        let (moves, _) = moves_of(&before.info_for_turn_player());
        assert!(moves.contains(&m));
        // what the seat to play sees can be dealt out again
        assert!(can_sample(
            &in_play(before.info_for_turn_player()),
            &before.contract,
            &before.cards_played
        ));
        board = before.advance(&m);
        assert_eq!(board.cards_played.len(), before.cards_played.len() + 1);
        assert_eq!(board.hand_of_cards_played.len(), before.hand_of_cards_played.len() + 1);
        let card = board.cards_played.get(before.cards_played.len());
        // the card played ranks as the move, and was held by the seat that played
        assert_eq!(Hand::new(&[card]).reduce(before.hand_of_cards_played), Hand::new(&[m]));
        let held = match before.turn {
            Seat::Declarer => (before.declarer_hand, board.declarer_hand),
            Seat::AfterDeclarer => (before.after_declarer_hand, board.after_declarer_hand),
            Seat::Dummy => (before.dummy_hand, board.dummy_hand),
            Seat::BeforeDeclarer => (before.before_declarer_hand, board.before_declarer_hand),
        };
        assert!(held.0.contains(card));
        assert_eq!(held.1, held.0.without_card(card));
        assert!(board.declarer_tricks == tricks || board.declarer_tricks == tricks + 1);
        tricks = board.declarer_tricks;
    }
    assert_eq!(board.cards_played.len(), 52);
    assert_eq!(board.hand_of_cards_played, Hand::full());
    board
}

/// Deals the cards not seen at `v`, plays the deal on, by any cards that
/// may be played, until two tricks are left, solves what is left in
/// `iterations` iterations and plays it out by the strategy found. A
/// traversal walks every line of play, and the lines of a longer deal are
/// more than memory holds.
fn solve_the_last_two_tricks(
    v: InfoForTurnPlayer,
    contract: Contract,
    cards: PlayedCards,
    iterations: u32,
) -> BridgeGamestate {
    assert!(can_sample(&v, &contract, &cards));
    let mut sampler = GamestateSamplerForBridgePlayerInfo::new(v, contract, cards);
    let mut board = sampler.sample().0;
    while board.cards_played.len() < 44 {
        let (moves, _) = moves_of(&board.info_for_turn_player());
        board = board.advance(&moves[fastrand::usize(..moves.len())]);
    }
    let v = in_play(board.info_for_turn_player());
    assert!(can_sample(&v, &contract, &board.cards_played));
    let sampler = GamestateSamplerForBridgePlayerInfo::new(v, contract, board.cards_played);
    let mut strategy_generator: StrategyGenerator<VisibleInfoForBridgePlayer> =
        StrategyGenerator::new();
    let mut sampler = strategy_generator.refine_strategy(sampler, iterations);

    let mut board = sampler.sample().0;
    println!("{:?}", board);
    println!(
        "{:?}",
        strategy_generator.strategy_for_info(board.info_for_turn_player()).move_probabilities(),
    );
    println!();

    while let Some(m) = strategy_generator.strategy_for_info(board.info_for_turn_player()).pick_move()
    {
        board = board.advance(&m);
        println!("board {:?}", board);
        println!();
        println!(
            "{:?}",
            strategy_generator.strategy_for_info(board.info_for_turn_player()).move_probabilities(),
        );
    }
    assert_eq!(board.cards_played.len(), 52);
    board
}

#[test]
fn bridge_master_one_modified() {
    let contract = Contract {
        trump: Some(Suit::Spades),
        n: 6,
        doubling: Doubling::Undoubled,
        defender_vulnerable: false,
        declarer_vulnerable: false,
    };
    let played_cards = played(&[
        Card::new(Suit::Hearts, Rank::King),
        Card::new(Suit::Hearts, Rank::Three),
        Card::new(Suit::Hearts, Rank::Six),
        Card::new(Suit::Hearts, Rank::Ace),
        Card::new(Suit::Diamonds, Rank::King),
        Card::new(Suit::Diamonds, Rank::Six),
        Card::new(Suit::Diamonds, Rank::Seven),
        Card::new(Suit::Diamonds, Rank::Eight),
        Card::new(Suit::Diamonds, Rank::Ace),
        Card::new(Suit::Diamonds, Rank::Five),
        Card::new(Suit::Diamonds, Rank::Jack),
        Card::new(Suit::Diamonds, Rank::Ten),
        Card::new(Suit::Spades, Rank::King),
        Card::new(Suit::Spades, Rank::Eight),
        Card::new(Suit::Spades, Rank::Two),
        Card::new(Suit::Spades, Rank::Three),
        Card::new(Suit::Spades, Rank::Seven),
        Card::new(Suit::Spades, Rank::Ace),
        Card::new(Suit::Spades, Rank::Four),
        Card::new(Suit::Spades, Rank::Five),
    ]);
    let my_hand_unreduced = Hand::new(&[
        Card::new(Suit::Spades, Rank::Queen),
        Card::new(Suit::Spades, Rank::Jack),
        Card::new(Suit::Spades, Rank::Ten),
        Card::new(Suit::Hearts, Rank::Two),
        Card::new(Suit::Clubs, Rank::Ace),
        Card::new(Suit::Diamonds, Rank::Four),
        Card::new(Suit::Diamonds, Rank::Three),
        Card::new(Suit::Diamonds, Rank::Two),
    ]);
    let other_visible_hand_unreduced = Hand::new(&[
        Card::new(Suit::Spades, Rank::Nine),
        Card::new(Suit::Hearts, Rank::Five),
        Card::new(Suit::Hearts, Rank::Four),
        Card::new(Suit::Clubs, Rank::King),
        Card::new(Suit::Clubs, Rank::Five),
        Card::new(Suit::Clubs, Rank::Four),
        Card::new(Suit::Clubs, Rank::Three),
        Card::new(Suit::Clubs, Rank::Two),
    ]);
    let played_cards_hand = hand_played(&played_cards);
    let info_for_turn_player = InfoForTurnPlayer {
        player: Seat::Declarer,
        declarer_tricks: 5,
        my_hand: my_hand_unreduced.reduce(played_cards_hand),
        other_visible_hand: other_visible_hand_unreduced.reduce(played_cards_hand),
        cards_in_other_hands: Hand::full()
            .minus(played_cards_hand)
            .minus(my_hand_unreduced)
            .minus(other_visible_hand_unreduced)
            .reduce(played_cards_hand),
        current_trick: Trick::new(),
    };
    solve_the_last_two_tricks(info_for_turn_player, contract, played_cards, 128);
}

#[test]
fn bridge_master_expert_a1() {
    let contract = Contract {
        trump: Some(Suit::Spades),
        n: 6,
        doubling: Doubling::Undoubled,
        defender_vulnerable: false,
        declarer_vulnerable: false,
    };
    let played_cards = played(&[Card::new(Suit::Clubs, Rank::King)]);
    let my_hand_unreduced = Hand::new(&[
        Card::new(Suit::Spades, Rank::King),
        Card::new(Suit::Spades, Rank::Four),
        Card::new(Suit::Spades, Rank::Three),
        Card::new(Suit::Spades, Rank::Two),
        Card::new(Suit::Hearts, Rank::Ace),
        Card::new(Suit::Hearts, Rank::Four),
        Card::new(Suit::Hearts, Rank::Three),
        Card::new(Suit::Hearts, Rank::Two),
        Card::new(Suit::Clubs, Rank::Three),
        Card::new(Suit::Clubs, Rank::Two),
        Card::new(Suit::Diamonds, Rank::King),
        Card::new(Suit::Diamonds, Rank::Four),
        Card::new(Suit::Diamonds, Rank::Three),
    ]);
    let other_visible_hand_unreduced = Hand::new(&[
        Card::new(Suit::Spades, Rank::Ace),
        Card::new(Suit::Spades, Rank::Queen),
        Card::new(Suit::Spades, Rank::Eight),
        Card::new(Suit::Spades, Rank::Seven),
        Card::new(Suit::Spades, Rank::Six),
        Card::new(Suit::Spades, Rank::Five),
        Card::new(Suit::Hearts, Rank::King),
        Card::new(Suit::Hearts, Rank::Nine),
        Card::new(Suit::Hearts, Rank::Eight),
        Card::new(Suit::Hearts, Rank::Seven),
        Card::new(Suit::Clubs, Rank::Ace),
        Card::new(Suit::Diamonds, Rank::Ace),
        Card::new(Suit::Diamonds, Rank::Two),
    ]);
    let played_cards_hand = hand_played(&played_cards);
    let mut current_trick = Trick::new();
    current_trick.push(Card::new(Suit::Clubs, Rank::King));
    let info_for_turn_player = InfoForTurnPlayer {
        player: Seat::Dummy,
        declarer_tricks: 0,
        my_hand: my_hand_unreduced.reduce(played_cards_hand),
        other_visible_hand: other_visible_hand_unreduced.reduce(played_cards_hand),
        cards_in_other_hands: Hand::full()
            .minus(played_cards_hand)
            .minus(my_hand_unreduced)
            .minus(other_visible_hand_unreduced)
            .reduce(played_cards_hand),
        current_trick,
    };
    solve_the_last_two_tricks(info_for_turn_player, contract, played_cards, 128);
}

#[test]
fn a_deal_of_eight_cards_a_hand_is_dealt_and_played_out() {
    let contract = Contract {
        trump: Some(Suit::Spades),
        n: 6,
        doubling: Doubling::Undoubled,
        defender_vulnerable: false,
        declarer_vulnerable: false,
    };
    let played_cards = played(&[
        Card::new(Suit::Hearts, Rank::King),
        Card::new(Suit::Hearts, Rank::Three),
        Card::new(Suit::Hearts, Rank::Six),
        Card::new(Suit::Hearts, Rank::Ace),
        Card::new(Suit::Diamonds, Rank::King),
        Card::new(Suit::Diamonds, Rank::Six),
        Card::new(Suit::Diamonds, Rank::Seven),
        Card::new(Suit::Diamonds, Rank::Eight),
        Card::new(Suit::Diamonds, Rank::Ace),
        Card::new(Suit::Diamonds, Rank::Five),
        Card::new(Suit::Diamonds, Rank::Jack),
        Card::new(Suit::Diamonds, Rank::Ten),
        Card::new(Suit::Spades, Rank::King),
        Card::new(Suit::Spades, Rank::Eight),
        Card::new(Suit::Spades, Rank::Two),
        Card::new(Suit::Spades, Rank::Three),
        Card::new(Suit::Spades, Rank::Seven),
        Card::new(Suit::Spades, Rank::Ace),
        Card::new(Suit::Spades, Rank::Four),
        Card::new(Suit::Spades, Rank::Five),
    ]);
    let my_hand_unreduced = Hand::new(&[
        Card::new(Suit::Spades, Rank::Queen),
        Card::new(Suit::Spades, Rank::Jack),
        Card::new(Suit::Spades, Rank::Ten),
        Card::new(Suit::Hearts, Rank::Two),
        Card::new(Suit::Clubs, Rank::Ace),
        Card::new(Suit::Diamonds, Rank::Four),
        Card::new(Suit::Diamonds, Rank::Three),
        Card::new(Suit::Diamonds, Rank::Two),
    ]);
    let other_visible_hand_unreduced = Hand::new(&[
        Card::new(Suit::Spades, Rank::Nine),
        Card::new(Suit::Hearts, Rank::Five),
        Card::new(Suit::Hearts, Rank::Four),
        Card::new(Suit::Clubs, Rank::King),
        Card::new(Suit::Clubs, Rank::Five),
        Card::new(Suit::Clubs, Rank::Four),
        Card::new(Suit::Clubs, Rank::Three),
        Card::new(Suit::Clubs, Rank::Two),
    ]);
    let played_cards_hand = hand_played(&played_cards);
    let info_for_turn_player = InfoForTurnPlayer {
        player: Seat::Declarer,
        declarer_tricks: 5,
        my_hand: my_hand_unreduced.reduce(played_cards_hand),
        other_visible_hand: other_visible_hand_unreduced.reduce(played_cards_hand),
        cards_in_other_hands: Hand::full()
            .minus(played_cards_hand)
            .minus(my_hand_unreduced)
            .minus(other_visible_hand_unreduced)
            .reduce(played_cards_hand),
        current_trick: Trick::new(),
    };
    // the queen goes up through the king and the ace, which were played;
    // the jack and the ten have no played card right above them
    assert!(info_for_turn_player.my_hand.contains(Card::new(Suit::Spades, Rank::Ace)));
    assert!(!info_for_turn_player.my_hand.contains(Card::new(Suit::Spades, Rank::King)));
    assert!(!info_for_turn_player.my_hand.contains(Card::new(Suit::Spades, Rank::Queen)));
    assert!(info_for_turn_player.my_hand.contains(Card::new(Suit::Spades, Rank::Jack)));
    assert!(info_for_turn_player.my_hand.contains(Card::new(Suit::Spades, Rank::Ten)));
    assert_eq!(info_for_turn_player.my_hand.unreduce(played_cards_hand), my_hand_unreduced);
    let board = deal_and_play_out(info_for_turn_player, contract, played_cards);
    assert!(board.declarer_tricks >= 5 && board.declarer_tricks <= 13);
    let (_, end) = moves_of(&board.info_for_turn_player());
    let points = contract.declarer_points(board.declarer_tricks as i32) as i64;
    let value = points * (PROBABILITY_ONE as i64);
    assert_eq!(end, Some(UtilityForAllPlayers { util: [value, -value, value, -value] }));
}

#[test]
fn a_whole_deal_is_dealt_and_played_out_after_the_lead() {
    let contract = Contract {
        trump: Some(Suit::Spades),
        n: 6,
        doubling: Doubling::Undoubled,
        defender_vulnerable: false,
        declarer_vulnerable: false,
    };
    let played_cards = played(&[Card::new(Suit::Clubs, Rank::King)]);
    let my_hand_unreduced = Hand::new(&[
        Card::new(Suit::Spades, Rank::King),
        Card::new(Suit::Spades, Rank::Four),
        Card::new(Suit::Spades, Rank::Three),
        Card::new(Suit::Spades, Rank::Two),
        Card::new(Suit::Hearts, Rank::Ace),
        Card::new(Suit::Hearts, Rank::Four),
        Card::new(Suit::Hearts, Rank::Three),
        Card::new(Suit::Hearts, Rank::Two),
        Card::new(Suit::Clubs, Rank::Three),
        Card::new(Suit::Clubs, Rank::Two),
        Card::new(Suit::Diamonds, Rank::King),
        Card::new(Suit::Diamonds, Rank::Four),
        Card::new(Suit::Diamonds, Rank::Three),
    ]);
    let other_visible_hand_unreduced = Hand::new(&[
        Card::new(Suit::Spades, Rank::Ace),
        Card::new(Suit::Spades, Rank::Queen),
        Card::new(Suit::Spades, Rank::Eight),
        Card::new(Suit::Spades, Rank::Seven),
        Card::new(Suit::Spades, Rank::Six),
        Card::new(Suit::Spades, Rank::Five),
        Card::new(Suit::Hearts, Rank::King),
        Card::new(Suit::Hearts, Rank::Nine),
        Card::new(Suit::Hearts, Rank::Eight),
        Card::new(Suit::Hearts, Rank::Seven),
        Card::new(Suit::Clubs, Rank::Ace),
        Card::new(Suit::Diamonds, Rank::Ace),
        Card::new(Suit::Diamonds, Rank::Two),
    ]);
    let played_cards_hand = hand_played(&played_cards);
    let mut current_trick = Trick::new();
    current_trick.push(Card::new(Suit::Clubs, Rank::King));
    let info_for_turn_player = InfoForTurnPlayer {
        player: Seat::Dummy,
        declarer_tricks: 0,
        my_hand: my_hand_unreduced.reduce(played_cards_hand),
        other_visible_hand: other_visible_hand_unreduced.reduce(played_cards_hand),
        cards_in_other_hands: Hand::full()
            .minus(played_cards_hand)
            .minus(my_hand_unreduced)
            .minus(other_visible_hand_unreduced)
            .reduce(played_cards_hand),
        current_trick,
    };
    // the dummy has to follow to the king of clubs
    let (moves, _) = moves_of(&VisibleInfoForBridgePlayer::InPlay(info_for_turn_player));
    assert_eq!(
        moves,
        vec![Card::new(Suit::Clubs, Rank::Two), Card::new(Suit::Clubs, Rank::Three)]
    );
    let board = deal_and_play_out(info_for_turn_player, contract, played_cards);
    assert!(board.declarer_tricks <= 13);
}

#[test]
fn the_cards_not_seen_are_dealt_evenly() {
    let state = two_tricks_left();
    let v = in_play(state.info_for_turn_player());
    let mut sampler =
        GamestateSamplerForBridgePlayerInfo::new(v, state.contract, state.cards_played);
    let mut counts: std::collections::HashMap<Hand, u32> = std::collections::HashMap::new();
    for _ in 0..10_000 {
        let (drawn, _) = sampler.sample();
        *counts.entry(drawn.after_declarer_hand).or_insert(0) += 1;
    }
    // six deals, each expected 1667 times; the standard deviation is about 37
    assert_eq!(counts.len(), 6);
    for (_, n) in counts {
        assert!(n > 1667 - 220 && n < 1667 + 220, "a deal was drawn {n} times");
    }
}
