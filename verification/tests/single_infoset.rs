use cfr_solver::cfr::game_model::{
    GamestateSampler, OracleGamestate, PlayerNumber, Probability, UtilityForAllPlayers,
    VisibleInfo, PROBABILITY_ONE,
};
use cfr_solver::cfr::strategy_generation::strategy_generator::{
    generate_strategy, StrategyGenerator,
};
use cfr_solver::cfr::strategy_generation::workspace_data::data_for_known_infosets::{
    DataForKnownInfosets, KnownInfosets,
};

const ONE: i64 = 1_000_000_000;

/// A game of one decision: the first player picks one of `moves` moves, and
/// play ends at once. Move 0 wins a unit from the second player, every
/// other move loses one to them.
#[derive(Clone, Copy, Debug, PartialEq, Eq, Hash)]
enum Pick {
    Start { moves: u8 },
    Done { picked: u8 },
}

impl VisibleInfo for Pick {
    type Move = u8;

    fn players_playing(&self) -> PlayerNumber {
        2
    }

    fn turn(&self) -> PlayerNumber {
        0
    }

    fn same_info(a: &Pick, b: &Pick) -> bool {
        a == b
    }

    fn same_move(a: &u8, b: &u8) -> bool {
        a == b
    }

    fn run_for_moves(&self, moves: &mut Vec<u8>) -> Option<UtilityForAllPlayers> {
        match self {
            Pick::Start { moves: n } => {
                for m in 0..*n {
                    moves.push(m);
                }
                None
            }
            Pick::Done { picked: 0 } => Some(UtilityForAllPlayers {
                util: [ONE, -ONE, 0, 0],
            }),
            Pick::Done { .. } => Some(UtilityForAllPlayers {
                util: [-ONE, ONE, 0, 0],
            }),
        }
    }
}

impl OracleGamestate<Pick> for Pick {
    fn info_for_turn_player(&self) -> Pick {
        *self
    }

    fn players_playing(&self) -> PlayerNumber {
        2
    }

    fn turn(&self) -> PlayerNumber {
        0
    }

    fn advance(&self, m: &u8) -> Pick {
        Pick::Done { picked: *m }
    }
}

struct PickSampler {
    start: Pick,
}

impl GamestateSampler<Pick, Pick> for PickSampler {
    fn sample(&mut self) -> (Pick, Probability) {
        (self.start, PROBABILITY_ONE)
    }
}

#[test]
fn one_legal_move_gets_probability_one_after_one_iteration() {
    let start = Pick::Start { moves: 1 };
    let strategy = generate_strategy(PickSampler { start }, 1);
    let view = strategy.get_move_probabilities(start);
    assert_eq!(view.move_count(), 1);
    assert_eq!(view.move_probabilities(), &vec![(0u8, PROBABILITY_ONE)]);
    assert_eq!(view.move_probability(&0), PROBABILITY_ONE);
    assert_eq!(strategy.pick_move(start), Some(0));
}

#[test]
fn the_winning_move_of_two_gets_probability_one() {
    let start = Pick::Start { moves: 2 };
    let mut generator: StrategyGenerator<Pick> = StrategyGenerator::new();
    generator.refine_strategy(PickSampler { start }, 100);
    let view = generator.strategy_for_info(start);
    let winning = view.move_probability(&0);
    let losing = view.move_probability(&1);
    assert!(winning >= PROBABILITY_ONE - PROBABILITY_ONE / 20);
    assert!(losing <= PROBABILITY_ONE / 20);
    assert!(winning + losing <= PROBABILITY_ONE);
    assert!(winning + losing > PROBABILITY_ONE - 2);
}

#[test]
fn pick_move_on_a_terminal_infoset_returns_no_move() {
    let start = Pick::Start { moves: 2 };
    let strategy = generate_strategy(PickSampler { start }, 3);
    for picked in 0..2u8 {
        for _ in 0..50 {
            assert_eq!(strategy.pick_move(Pick::Done { picked }), None);
        }
    }
    assert!(strategy.get_move_probabilities(Pick::Done { picked: 0 }).is_terminal);
}

#[test]
fn pick_move_where_play_goes_on_returns_a_legal_move() {
    let start = Pick::Start { moves: 5 };
    let strategy = generate_strategy(PickSampler { start }, 2);
    for _ in 0..200 {
        let m = strategy.pick_move(start);
        assert!(matches!(m, Some(0..=4)));
    }
    // an information set the solve never met: every move is as likely
    let unmet = Pick::Start { moves: 4 };
    let view = strategy.get_move_probabilities(unmet);
    assert_eq!(view.move_count(), 4);
    for m in 0..4u8 {
        assert_eq!(view.move_probability(&m), PROBABILITY_ONE / 4);
    }
    assert!(strategy.pick_move(unmet).is_some());
}

#[test]
fn the_winning_move_of_two_is_certain_from_the_first_iteration_on() {
    let start = Pick::Start { moves: 2 };
    for iterations in [1u32, 2, 3, 100] {
        let mut generator: StrategyGenerator<Pick> = StrategyGenerator::new();
        generator.refine_strategy(PickSampler { start }, iterations);
        let view = generator.strategy_for_info(start);
        assert_eq!(view.move_probabilities(), &vec![(0u8, PROBABILITY_ONE), (1u8, 0)]);
        assert_eq!(view.move_probability(&0), PROBABILITY_ONE);
        assert_eq!(view.move_probability(&1), 0);
        let strategy = generate_strategy(PickSampler { start }, iterations);
        assert_eq!(strategy.get_move_probabilities(start).move_probability(&0), PROBABILITY_ONE);
        assert_eq!(strategy.pick_move(start), Some(0));
    }
}

#[test]
fn a_solve_that_has_not_met_an_information_set_plays_every_move_alike() {
    let start = Pick::Start { moves: 2 };
    let mut generator: StrategyGenerator<Pick> = StrategyGenerator::new();
    let before = generator.strategy_for_info(start);
    assert_eq!(
        before.move_probabilities(),
        &vec![(0u8, PROBABILITY_ONE / 2), (1u8, PROBABILITY_ONE / 2)]
    );
    generator.refine_strategy(PickSampler { start }, 5);
    let unmet = Pick::Start { moves: 3 };
    let view = generator.strategy_for_info(unmet);
    assert_eq!(view.move_count(), 3);
    for m in 0..3u8 {
        assert_eq!(view.move_probability(&m), PROBABILITY_ONE / 3);
    }
}

#[test]
fn information_sets_are_found_again_at_the_index_they_were_given() {
    let mut known: KnownInfosets<Pick> = KnownInfosets::new();
    assert_eq!(known.find(&Pick::Start { moves: 2 }), None);
    let mut expected = Vec::new();
    for moves in 1..=40u8 {
        assert_eq!(known.find(&Pick::Start { moves }), None);
        assert_eq!(known.add(Pick::Start { moves }), expected.len());
        expected.push(Pick::Start { moves });
        assert_eq!(known.find(&Pick::Done { picked: moves }), None);
        assert_eq!(known.add(Pick::Done { picked: moves }), expected.len());
        expected.push(Pick::Done { picked: moves });
    }
    assert_eq!(known.infos, expected);
    for (i, info) in expected.iter().enumerate() {
        assert_eq!(known.find(info), Some(i));
    }
    assert_eq!(known.find(&Pick::Start { moves: 41 }), None);

    let mut table: DataForKnownInfosets<Pick> = DataForKnownInfosets::new();
    assert_eq!(table.lookup(&Pick::Start { moves: 2 }), None);
    assert_eq!(table.data_for_infoset(Pick::Start { moves: 2 }), 0);
    assert_eq!(table.data_for_infoset(Pick::Done { picked: 0 }), 1);
    assert_eq!(table.data_for_infoset(Pick::Start { moves: 2 }), 0);
    assert_eq!(table.lookup(&Pick::Done { picked: 0 }), Some(1));
    assert_eq!(table.arena.len(), 2);
    assert_eq!(table.get(0).moves().len(), 2);
    assert!(table.get(1).is_terminal());
}
