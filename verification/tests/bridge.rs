use cfr_solver::bridge::card::{all_cards, all_ranks, all_suits, Card, Rank, Suit};
use cfr_solver::bridge::contract::{Contract, Doubling};
use cfr_solver::bridge::game::{
    BridgeGame, BridgeInfoSet, DeclarerInfoSet, PlayedCards, UniversalInformation,
};
use cfr_solver::bridge::hand::Hand;
use cfr_solver::bridge::sampler::{
    count_combinations, count_combinations_of_picks, fill_hand, BridgeGamestateSampler,
};
use cfr_solver::bridge::seat::Seat;
use cfr_solver::cfr::game_model::{
    GamestateSampler, OracleGamestate, UtilityForAllPlayers, VisibleInfo, PROBABILITY_ONE,
};
use cfr_solver::cfr::strategy_generation::strategy_generator::{generate_strategy, StrategyGenerator};

fn card(text: &str) -> Card {
    let mut chars = text.chars();
    let rank = match chars.next().unwrap() {
        '2' => Rank::Two,
        '3' => Rank::Three,
        '4' => Rank::Four,
        '5' => Rank::Five,
        '6' => Rank::Six,
        '7' => Rank::Seven,
        '8' => Rank::Eight,
        '9' => Rank::Nine,
        'T' => Rank::Ten,
        'J' => Rank::Jack,
        'Q' => Rank::Queen,
        'K' => Rank::King,
        _ => Rank::Ace,
    };
    let suit = match chars.next().unwrap() {
        'C' => Suit::Clubs,
        'D' => Suit::Diamonds,
        'H' => Suit::Hearts,
        _ => Suit::Spades,
    };
    Card::new(suit, rank)
}

fn hand(texts: &[&str]) -> Hand {
    let cards: Vec<Card> = texts.iter().map(|t| card(t)).collect();
    Hand::new(&cards)
}

fn contract(trump: Option<Suit>, n: i32, doubling: Doubling, vulnerable: bool) -> Contract {
    Contract {
        trump,
        n,
        doubling,
        declarer_vulnerable: vulnerable,
        defender_vulnerable: false,
    }
}

#[test]
fn reduce_unreduce_rountrip() {
    let dealt = Hand::new(&[
        Card::new(Suit::Hearts, Rank::King),
        Card::new(Suit::Diamonds, Rank::Two),
        Card::new(Suit::Clubs, Rank::Three),
    ]);

    let reduce_by = Hand::new(&[
        Card::new(Suit::Hearts, Rank::Ace),
        Card::new(Suit::Diamonds, Rank::Three),
        Card::new(Suit::Diamonds, Rank::Four),
        Card::new(Suit::Diamonds, Rank::Five),
        Card::new(Suit::Clubs, Rank::Two),
    ]);

    let reduced = dealt.reduce(reduce_by);
    println!("{:?}", reduced.cards());

    let restored = dealt.unreduce(reduce_by);
    println!("{:?}", restored.cards());

    assert_eq!(dealt, restored);
}

#[test]
fn reduced_cards_go_up_through_the_played_cards_above_them() {
    let held = hand(&["KH", "2D", "3C"]);
    let played = hand(&["AH", "3D", "4D", "5D", "2C"]);
    let reduced = held.reduce(played);
    // the king goes up to the ace, the two of diamonds to the five; the
    // three of clubs has nothing played above it
    assert_eq!(reduced, hand(&["AH", "5D", "3C"]));
    assert_eq!(reduced.unreduce(played), held);
    // a played two makes no room below it: the ace of clubs stays
    assert_eq!(hand(&["AC"]).reduce(hand(&["2D"])), hand(&["AC"]));
    assert_eq!(hand(&["AC"]).unreduce(hand(&["2D"])), hand(&["AC"]));
    // nothing played: nothing moves
    assert_eq!(held.reduce(Hand::empty()), held);
    assert_eq!(held.unreduce(Hand::empty()), held);
    // a card that cannot go down stays: the place below is taken
    assert_eq!(hand(&["2D", "3D"]).unreduce(hand(&["3D"])), hand(&["2D", "3D"]));
    assert_eq!(Hand::twos(), hand(&["2C", "2D", "2H", "2S"]));
    assert_eq!(Hand::aces(), hand(&["AC", "AD", "AH", "AS"]));
}

#[test]
fn cards_are_numbered_suit_by_suit() {
    assert_eq!(Card::new(Suit::Clubs, Rank::Two).n, 0);
    assert_eq!(Card::new(Suit::Clubs, Rank::Ace).n, 12);
    assert_eq!(Card::new(Suit::Diamonds, Rank::Two).n, 13);
    assert_eq!(Card::new(Suit::Spades, Rank::Ace).n, 51);
    assert_eq!(Suit::Hearts.n(), 2);
    assert_eq!(Rank::Jack.n(), 9);
    let cards = all_cards();
    assert_eq!(cards.len(), 52);
    for (i, c) in cards.iter().enumerate() {
        assert_eq!(c.n as usize, i);
        assert_eq!(Card::new(c.suit(), c.rank()), *c);
        assert_eq!(c.suit().n(), c.n / 13);
        assert_eq!(c.rank().n(), c.n % 13);
        assert_eq!(c.rank_free_suit(), c.suit());
    }
    assert_eq!(all_suits()[3], Suit::Spades);
    assert_eq!(all_ranks()[12], Rank::Ace);
    assert_eq!(card("TH").symbols(), ('T', 'H'));
    assert_eq!(card("2C").symbols(), ('2', 'C'));
    assert_eq!(card("AS").symbols(), ('A', 'S'));
    assert_eq!(card("QD").symbols(), ('Q', 'D'));
    assert_eq!(Rank::King.symbol(), 'K');
    assert_eq!(Suit::Diamonds.symbol(), 'D');
    assert_eq!(Card::default().n, 0);
}

#[test]
fn seats_go_round_the_table() {
    assert_eq!(Seat::Declarer.next(), Seat::AfterDeclarer);
    assert_eq!(Seat::AfterDeclarer.next(), Seat::Dummy);
    assert_eq!(Seat::Dummy.next(), Seat::BeforeDeclarer);
    assert_eq!(Seat::BeforeDeclarer.next(), Seat::Declarer);
    for seat in [Seat::Declarer, Seat::AfterDeclarer, Seat::Dummy, Seat::BeforeDeclarer] {
        assert_eq!(seat.next().prev(), seat);
        assert_eq!(seat.prev().next(), seat);
        assert_eq!(seat.next().next().next().next(), seat);
        assert_eq!(seat.next().number(), (seat.number() + 1) % 4);
        assert_eq!(seat.declaring_side(), seat.number() % 2 == 0);
    }
    assert_eq!(Seat::default(), Seat::Declarer);
}

#[test]
fn a_trump_beats_a_plain_card_and_rank_decides_within_a_suit() {
    let spades = contract(Some(Suit::Spades), 4, Doubling::Undoubled, false);
    assert!(spades.card_defeats_card(card("AH"), card("2S")));
    assert!(!spades.card_defeats_card(card("2S"), card("AH")));
    assert!(spades.card_defeats_card(card("2S"), card("3S")));
    assert!(!spades.card_defeats_card(card("3S"), card("2S")));
    assert!(spades.card_defeats_card(card("KH"), card("AH")));
    assert!(!spades.card_defeats_card(card("KH"), card("AD")));
    assert!(!spades.card_defeats_card(card("KH"), card("KH")));
    let no_trumps = contract(None, 3, Doubling::Undoubled, false);
    assert!(!no_trumps.card_defeats_card(card("2C"), card("AS")));
    assert!(no_trumps.card_defeats_card(card("2C"), card("3C")));
}

#[test]
fn what_contracts_score() {
    // three no trumps made exactly, not vulnerable: 100 + 300
    assert_eq!(contract(None, 3, Doubling::Undoubled, false).declarer_points(9), 400);
    // four spades with an overtrick, vulnerable: 120 + 30 + 500
    assert_eq!(
        contract(Some(Suit::Spades), 4, Doubling::Undoubled, true).declarer_points(11),
        650
    );
    // two clubs made: 40 + 50
    assert_eq!(
        contract(Some(Suit::Clubs), 2, Doubling::Undoubled, false).declarer_points(8),
        90
    );
    // two hearts doubled and made: 120 + 50 + 300
    assert_eq!(
        contract(Some(Suit::Hearts), 2, Doubling::Doubled, false).declarer_points(8),
        470
    );
    // one no trump redoubled with two overtricks, vulnerable: 160 + 800 + 100 + 500
    assert_eq!(contract(None, 1, Doubling::Redoubled, true).declarer_points(9), 1560);
    // six spades: 180 + 800; seven no trumps vulnerable: 220 + 2000
    assert_eq!(
        contract(Some(Suit::Spades), 6, Doubling::Undoubled, false).declarer_points(12),
        980
    );
    assert_eq!(contract(None, 7, Doubling::Undoubled, true).declarer_points(13), 2220);
    // one, two, three and four down
    let plain = contract(Some(Suit::Spades), 4, Doubling::Undoubled, false);
    assert_eq!(plain.declarer_points(9), -50);
    assert_eq!(plain.declarer_points(7), -150);
    let doubled = contract(Some(Suit::Spades), 4, Doubling::Doubled, false);
    assert_eq!(doubled.declarer_points(9), -100);
    assert_eq!(doubled.declarer_points(8), -300);
    assert_eq!(doubled.declarer_points(7), -500);
    assert_eq!(doubled.declarer_points(6), -800);
    let redoubled = contract(Some(Suit::Spades), 4, Doubling::Redoubled, false);
    assert_eq!(redoubled.declarer_points(9), -200);
    assert_eq!(redoubled.declarer_points(8), -600);
    assert_eq!(redoubled.declarer_points(7), -1000);
    assert_eq!(redoubled.declarer_points(5), -2200);
    assert_eq!(
        contract(Some(Suit::Spades), 4, Doubling::Doubled, true).declarer_points(7),
        -600
    );
    assert_eq!(
        contract(None, 7, Doubling::Redoubled, true).declarer_points(0),
        -5200
    );
    assert_eq!(
        contract(None, 7, Doubling::Redoubled, false).declarer_points(0),
        -7000
    );
    assert_eq!(plain.calculate_multiplier(), 1);
    assert_eq!(redoubled.calculate_multiplier(), 4);
    assert_eq!(redoubled.calculate_base_trick_score(4), 480);
    assert_eq!(plain.calculate_overtrick_points(0), 0);
    assert_eq!(plain.calculate_overtrick_points(-3), 0);
    assert_eq!(doubled.calculate_insult_bonus(), 50);
    assert_eq!(plain.calculate_contract_bonus(120), 300);
    assert_eq!(plain.calculate_contract_bonus(90), 50);
    assert_eq!(plain.calculate_undertrick_penalty(13), 650);
}

#[test]
fn hands_are_sets_of_cards() {
    let mut h = hand(&["KH", "2D", "3C"]);
    assert_eq!(h.len(), 3);
    assert!(!h.is_empty());
    assert!(Hand::empty().is_empty());
    assert!(Hand::default().is_empty());
    assert_eq!(Hand::empty().len(), 0);
    assert!(h.contains(card("2D")));
    assert!(!h.contains(card("3D")));
    assert_eq!(h.first(), card("3C"));
    assert_eq!(h.cards(), vec![card("3C"), card("2D"), card("KH")]);
    let mut run = vec![card("AS")];
    h.run_for_cards(&mut run);
    assert_eq!(run, vec![card("AS"), card("3C"), card("2D"), card("KH")]);
    h.add_assign(card("AD"));
    assert_eq!(h.cards_for_suit(Suit::Diamonds), vec![card("2D"), card("AD")]);
    assert_eq!(h.cards_for_suit(Suit::Spades), vec![]);
    h.sub_assign(card("KH"));
    assert_eq!(h, hand(&["2D", "3C", "AD"]));
    h.sub_assign(card("KH"));
    assert_eq!(h.len(), 3);
    assert_eq!(h.with_card(card("2S")).len(), 4);
    assert_eq!(h.with_card(card("2D")), h);
    assert_eq!(h.without_card(card("2D")), hand(&["3C", "AD"]));
    let other = hand(&["AD", "AS"]);
    assert_eq!(h.minus(other), hand(&["2D", "3C"]));
    assert_eq!(h.bitand(other), hand(&["AD"]));
    assert_eq!(h.bitor(other), hand(&["2D", "3C", "AD", "AS"]));
    let mut both = h;
    both.bitor_assign(other);
    assert_eq!(both.len(), 4);
    both.bitand_assign(other);
    assert_eq!(both, other);
    both.extend(&[card("2C"), card("3C")]);
    assert_eq!(both, hand(&["AD", "AS", "2C", "3C"]));
    assert_eq!(Hand::full().len(), 52);
    assert_eq!(Hand::full().bitset, (1u64 << 52) - 1);
    assert_eq!(Hand::full().first(), card("2C"));
}

#[test]
fn counting_deals() {
    assert_eq!(count_combinations(5, 2), 10);
    assert_eq!(count_combinations(5, 3), 10);
    assert_eq!(count_combinations(5, 0), 1);
    assert_eq!(count_combinations(5, 5), 1);
    assert_eq!(count_combinations(5, 6), 0);
    assert_eq!(count_combinations(0, 0), 1);
    assert_eq!(count_combinations(52, 13), 635_013_559_600);
    assert_eq!(count_combinations(52, 26), 495_918_532_948_104);
    assert_eq!(count_combinations_of_picks(4, 0, 2, 2), 6);
    assert_eq!(count_combinations_of_picks(26, 0, 13, 13), 10_400_600);
    assert_eq!(
        count_combinations_of_picks(39, 13, 13, 13),
        8_122_425_444u128 * 10_400_600
    );
}

fn universal(contract: Contract, dummy: Hand, played: Hand, declarer_tricks: u8) -> UniversalInformation {
    let tricks = (played.len() / 4) as u8;
    UniversalInformation {
        contract,
        declarer_tricks,
        defender_tricks: tricks - declarer_tricks,
        lead: None,
        dummy_hand: dummy,
        cards_played: played,
    }
}

/// The last two tricks of a deal in four spades: declarer and dummy see
/// their hands, the defenders hold the other four cards.
fn two_tricks_left() -> (BridgeInfoSet, Hand) {
    let declarer = hand(&["AS", "2H"]);
    let dummy = hand(&["KS", "3H"]);
    let hidden = hand(&["QS", "JS", "AH", "KH"]);
    let played = Hand::full().minus(declarer).minus(dummy).minus(hidden);
    let info = BridgeInfoSet::Declarer(DeclarerInfoSet {
        universal_information: universal(
            contract(Some(Suit::Spades), 4, Doubling::Undoubled, false),
            dummy,
            played,
            8,
        ),
        declarer_hand: declarer,
    });
    (info, hidden)
}

#[test]
fn the_sampler_deals_the_hidden_cards_evenly() {
    let (info, hidden) = two_tricks_left();
    let mut sampler = BridgeGamestateSampler::new(&info);
    // four hidden cards go two and two to the defenders: six deals
    assert_eq!(sampler.combos, 6);
    assert_eq!(sampler.missing_cards, hidden.cards());
    assert_eq!(sampler.before_declarer_missing, 2);
    assert_eq!(sampler.after_declarer_missing, 2);
    assert_eq!(sampler.declarer_missing, 0);
    let mut seen: Vec<(Hand, u32)> = Vec::new();
    for _ in 0..10_000 {
        let (state, probability) = sampler.sample();
        assert_eq!(probability, PROBABILITY_ONE / 6);
        assert_eq!(state.info_for_turn_player(), info);
        assert_eq!(state.before_hand.len(), 2);
        assert_eq!(state.after_hand.len(), 2);
        assert_eq!(state.before_hand.bitor(state.after_hand), hidden);
        assert_eq!(state.cards_played.len(), 44);
        assert_eq!(state.played_cards, 44);
        match seen.iter_mut().find(|(h, _)| *h == state.before_hand) {
            Some((_, n)) => *n += 1,
            None => seen.push((state.before_hand, 1)),
        }
    }
    // each of the six deals comes up about one time in six: 1667 times,
    // give or take 37; seven times that is out of reach of chance
    assert_eq!(seen.len(), 6);
    for (_, n) in &seen {
        assert!((1400..=1930).contains(n), "{:?}", seen);
    }
}

#[test]
fn filling_a_hand_takes_cards_from_the_pool() {
    let mut pool = vec![card("2C"), card("3C"), card("4C"), card("5C")];
    let mut h = hand(&["AS"]);
    fill_hand(&mut pool, &mut h, 3);
    assert_eq!(pool.len(), 1);
    assert_eq!(h.len(), 4);
    assert!(h.contains(card("AS")));
    assert!(!h.contains(pool[0]));
    assert_eq!(h.with_card(pool[0]), hand(&["AS", "2C", "3C", "4C", "5C"]));
    fill_hand(&mut pool, &mut h, 0);
    assert_eq!(pool.len(), 1);
    fill_hand(&mut pool, &mut h, 1);
    assert!(pool.is_empty());
    assert_eq!(h.len(), 5);
}

fn state_with(before: Hand, declarer: Hand, after: Hand, dummy: Hand, trump: Option<Suit>) -> BridgeGame {
    let played = Hand::full().minus(before).minus(declarer).minus(after).minus(dummy);
    let cards_played = PlayedCards::from_hand(&played);
    BridgeGame {
        contract: contract(trump, 4, Doubling::Undoubled, false),
        declarer_tricks: (played.len() / 4) as u8,
        defender_tricks: 0,
        played_cards: cards_played.len(),
        turn_player: Seat::Declarer,
        cards_played,
        hand_of_cards_played: played,
        before_hand: before,
        declarer_hand: declarer,
        after_hand: after,
        dummy_hand: dummy,
    }
}

#[test]
fn a_card_played_leaves_the_hand_and_the_turn_passes() {
    let start = state_with(
        hand(&["AH", "KH"]),
        hand(&["AS", "2H"]),
        hand(&["QS", "JS"]),
        hand(&["KS", "3H"]),
        Some(Suit::Spades),
    );
    assert_eq!(start.cards_played.len(), 44);
    assert_eq!(start.lead(), None);
    assert_eq!(OracleGamestate::turn(&start), 0);
    assert_eq!(OracleGamestate::players_playing(&start), 4);
    assert_eq!(start.moves(), vec![card("2H"), card("AS")]);
    let one = start.advance(&card("2H"));
    assert_eq!(one.turn_player, Seat::AfterDeclarer);
    assert_eq!(one.declarer_hand, hand(&["AS"]));
    assert_eq!(one.played_cards, 45);
    assert_eq!(one.cards_played.get(44), card("2H"));
    assert!(one.hand_of_cards_played.contains(card("2H")));
    assert_eq!(one.declarer_tricks, 11);
    // the seat after the declarer sees its own hand and the dummy's
    match one.info_for_turn_player() {
        BridgeInfoSet::AfterDeclarer(i) => {
            assert_eq!(i.after_hand, hand(&["QS", "JS"]));
            assert_eq!(i.universal_information.dummy_hand, hand(&["KS", "3H"]));
            assert_eq!(i.universal_information.cards_played, one.hand_of_cards_played);
            assert_eq!(i.universal_information.lead, one.lead());
        }
        other => panic!("{:?}", other),
    }
    assert!(one.lead().is_some());
    assert_eq!(one.generate_universal_information().declarer_tricks, 11);
    let two = one.advance(&card("JS"));
    let three = two.advance(&card("3H"));
    assert_eq!(three.turn_player, Seat::BeforeDeclarer);
    let four = three.advance(&card("KH"));
    // the trick is complete: four more cards are out, one side has a trick more
    assert_eq!(four.cards_played.len(), 48);
    assert_eq!(four.declarer_tricks + four.defender_tricks, 12);
    assert_eq!(four.lead(), None);
    assert_eq!(four.declarer_info().declarer_hand, hand(&["AS"]));
    assert_eq!(four.dummy_info().declarer_hand, hand(&["AS"]));
    assert_eq!(four.before_info().before_hand, hand(&["AH"]));
    assert_eq!(four.after_info().after_hand, hand(&["QS"]));
    // the seat that took the trick is to play
    let taker = four.turn_player;
    let taken_by_declarers = four.declarer_tricks == 12;
    assert_eq!(taker.declaring_side(), taken_by_declarers);
}

#[test]
fn the_trick_goes_to_the_seat_noted_with_the_winning_card() {
    let mut state = state_with(
        hand(&["AH", "KH"]),
        hand(&["AS", "2H"]),
        hand(&["QS", "JS"]),
        hand(&["KS", "3H"]),
        None,
    );
    for c in ["2H", "QS", "3H", "AH"] {
        state.turn_player_hand_mut().sub_assign(card(c));
        state.cards_played.push(card(c));
        state.hand_of_cards_played.add_assign(card(c));
        state.played_cards += 1;
        if c != "AH" {
            state.turn_player = state.turn_player.next();
        }
    }
    assert_eq!(state.turn_player, Seat::BeforeDeclarer);
    // the last card, the ace of hearts, beats the two that was led; it is
    // noted with the seat one after the seat noted with the lead
    state.handle_end_of_trick();
    assert_eq!(state.turn_player, Seat::AfterDeclarer);
    assert_eq!(state.defender_tricks, 1);
    assert_eq!(state.declarer_tricks, 11);
}

#[test]
fn the_moves_follow_the_suit_led() {
    let (info, _) = two_tricks_left();
    assert_eq!(info.seat(), Seat::Declarer);
    assert_eq!(VisibleInfo::turn(&info), 0);
    assert_eq!(VisibleInfo::players_playing(&info), 4);
    assert_eq!(*info.turn_player_hand(), hand(&["AS", "2H"]));
    assert_eq!(info.moves(), vec![card("2H"), card("AS")]);
    let led = |suit_card: &str| match info {
        BridgeInfoSet::Declarer(i) => BridgeInfoSet::Declarer(DeclarerInfoSet {
            universal_information: UniversalInformation {
                lead: Some((Seat::Dummy, card(suit_card))),
                ..*info.universal_information()
            },
            ..i
        }),
        other => other,
    };
    assert_eq!(led("KS").moves(), vec![card("AS")]);
    assert_eq!(led("3H").moves(), vec![card("2H")]);
    // no card of the suit led: any card may be played
    assert_eq!(led("2C").moves(), vec![card("2H"), card("AS")]);
    assert!(<BridgeInfoSet as VisibleInfo>::same_move(&card("2H"), &card("2H")));
    assert!(!<BridgeInfoSet as VisibleInfo>::same_move(&card("2H"), &card("AS")));
}

#[test]
fn an_empty_hand_ends_the_deal_with_the_score_of_the_contract() {
    let done = BridgeInfoSet::Declarer(DeclarerInfoSet {
        universal_information: universal(
            contract(Some(Suit::Spades), 4, Doubling::Undoubled, false),
            Hand::empty(),
            Hand::full(),
            10,
        ),
        declarer_hand: Hand::empty(),
    });
    let mut moves = Vec::new();
    let payoffs = done.run_for_moves(&mut moves);
    assert!(moves.is_empty());
    let points: i64 = 420 * 1_000_000_000;
    assert_eq!(
        payoffs,
        Some(UtilityForAllPlayers {
            util: [points, -points, points, -points]
        })
    );
    assert_eq!(done.moves(), vec![]);
}

#[test]
fn the_last_two_tricks_are_solved() {
    let (info, _) = two_tricks_left();
    let mut generator: StrategyGenerator<BridgeInfoSet> = StrategyGenerator::new();
    let sampler = generator.refine_strategy(BridgeGamestateSampler::new(&info), 200);
    assert_eq!(sampler.combos, 6);
    let view = generator.strategy_for_info(info);
    assert_eq!(view.move_count(), 2);
    let total: u64 = view.move_probabilities().iter().map(|(_, p)| *p).sum();
    assert!(total <= PROBABILITY_ONE && total > PROBABILITY_ONE - 2);
    let strategy = generator.into_strategy();
    let mut sampler = sampler;
    let (mut state, _) = sampler.sample();
    let mut played = 0;
    while let Some(m) = strategy.pick_move(state.info_for_turn_player()) {
        assert!(state.moves().contains(&m));
        state = state.advance(&m);
        played += 1;
    }
    assert_eq!(played, 8);
    assert_eq!(state.cards_played.len(), 52);
    assert_eq!(state.declarer_tricks + state.defender_tricks, 13);
}

#[test]
fn bridge_master_one() {
    let infoset = BridgeInfoSet::Declarer(DeclarerInfoSet {
        universal_information: UniversalInformation {
            contract: Contract {
                trump: Some(Suit::Spades),
                n: 6,
                doubling: Doubling::Undoubled,
                defender_vulnerable: false,
                declarer_vulnerable: false,
            },
            defender_tricks: 0,
            declarer_tricks: 6,
            cards_played: Hand::new(&[
                Card::new(Suit::Hearts, Rank::King),
                Card::new(Suit::Hearts, Rank::Three),
                Card::new(Suit::Hearts, Rank::Six),
                Card::new(Suit::Hearts, Rank::Ace),
                Card::new(Suit::Diamonds, Rank::King),
                Card::new(Suit::Diamonds, Rank::Six),
                Card::new(Suit::Diamonds, Rank::Seven),
                Card::new(Suit::Diamonds, Rank::Eight),
                Card::new(Suit::Diamonds, Rank::Ace),
                Card::new(Suit::Diamonds, Rank::Five),
                Card::new(Suit::Diamonds, Rank::Jack),
                Card::new(Suit::Diamonds, Rank::Ten),
                Card::new(Suit::Spades, Rank::King),
                Card::new(Suit::Spades, Rank::Eight),
                Card::new(Suit::Spades, Rank::Two),
                Card::new(Suit::Spades, Rank::Three),
                Card::new(Suit::Spades, Rank::Seven),
                Card::new(Suit::Spades, Rank::Ace),
                Card::new(Suit::Spades, Rank::Four),
                Card::new(Suit::Spades, Rank::Five),
            ]),
            lead: None,
            dummy_hand: Hand::new(&[
                Card::new(Suit::Spades, Rank::Nine),
                Card::new(Suit::Hearts, Rank::Five),
                Card::new(Suit::Hearts, Rank::Four),
                Card::new(Suit::Clubs, Rank::King),
                Card::new(Suit::Clubs, Rank::Five),
                Card::new(Suit::Clubs, Rank::Four),
                Card::new(Suit::Clubs, Rank::Three),
                Card::new(Suit::Clubs, Rank::Two),
            ]),
        },
        declarer_hand: Hand::new(&[
            Card::new(Suit::Spades, Rank::Queen),
            Card::new(Suit::Spades, Rank::Jack),
            Card::new(Suit::Spades, Rank::Ten),
            Card::new(Suit::Hearts, Rank::Two),
            Card::new(Suit::Clubs, Rank::Ace),
            Card::new(Suit::Diamonds, Rank::Four),
            Card::new(Suit::Diamonds, Rank::Three),
            Card::new(Suit::Diamonds, Rank::Two),
        ]),
    });

    // A traversal walks every line of play, and the lines of eight tricks
    // are more than memory holds: the deal is played on, by any cards that
    // may be played, until two tricks are left, and solved from there.
    let mut board = BridgeGamestateSampler::new(&infoset).sample().0;
    while board.cards_played.len() < 44 {
        let moves = board.moves();
        board = board.advance(&moves[fastrand::usize(..moves.len())]);
    }
    let infoset = board.info_for_turn_player();

    let strategy = generate_strategy(BridgeGamestateSampler::new(&infoset), 1000);

    let mut board = BridgeGamestateSampler::new(&infoset).sample().0;
    println!("{:?}", strategy.get_move_probabilities(infoset).move_probabilities());
    println!("{:?}", board);
    println!(
        "{:?}",
        strategy.get_move_probabilities(board.info_for_turn_player()).move_probabilities()
    );
    println!();

    while let Some(m) = strategy.pick_move(board.info_for_turn_player()) {
        board = board.advance(&m);
        println!("board {:?}", board);
        println!("lead {:?}", board.lead());
        println!("turn player hand {:?}", board.info_for_turn_player().turn_player_hand().cards());
        println!("moves {:?}", board.info_for_turn_player().moves());
        println!();
    }
    assert_eq!(board.cards_played.len(), 52);
}
