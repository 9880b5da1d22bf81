use cfr_solver::cfr::game_model::gamestate_sampler::RandomGamestateIterator;
use cfr_solver::cfr::game_model::utility::scale;
use cfr_solver::cfr::game_model::{UtilityForAllPlayers, PROBABILITY_ONE};
use cfr_solver::cfr::strategy_generation::config::{RegretWeighting, SolverConfig};
use cfr_solver::cfr::strategy_generation::strategy::pick_from;
use cfr_solver::cfr::strategy_generation::strategy_generator::StrategyGenerator;
use cfr_solver::cfr::strategy_generation::update_strategy::update_strategy;
use cfr_solver::cfr::strategy_generation::workspace_data::batch_item_data::DataPerBatchItem;
use cfr_solver::cfr::strategy_generation::workspace_data::data_for_infoset::DataForInfoSet;
use cfr_solver::cfr::strategy_generation::workspace_data::data_for_move::{
    DataForMove, MAX_REGRET, ZERO_PROBABILITY,
};
use cfr_solver::cfr::strategy_generation::workspace_data::move_data::MoveWithDataAllocation;
use cfr_solver::cfr::strategy_generation::workspace_data::timestamp::Timestamp;
use cfr_solver::cfr::strategy_generation::workspace_data::{
    StrategyGenerationProgress, ThreadLocalWorkStack,
};
use cfr_solver::tic_tac_toe::{Player, TicTacToeBoard, TicTacToeSampler, TicTacToeSquare};

const ONE: i64 = 1_000_000_000;

fn utility(a: i64, b: i64) -> UtilityForAllPlayers {
    UtilityForAllPlayers { util: [a, b, 0, 0] }
}

#[test]
fn empty_is_zeroed() {
    let empty = DataForMove::new();
    assert_eq!(empty.load_move_probability_unchecked(), 0);
    assert_eq!(empty.regret(), 0);
    assert_eq!(empty.move_selection_probability, 0);
    assert_eq!(empty.cumulative_move_regret, 0);
    assert_eq!(
        empty.utility_after_move().updated_iteration_per_work_item,
        [0, 0, 0, 0]
    );
    for slot in &empty.utility_after_move().data {
        assert_eq!(slot.util, [0, 0, 0, 0]);
    }
}

#[test]
fn a_written_slot_is_stale_one_iteration_later() {
    let mut slots: DataPerBatchItem<UtilityForAllPlayers> = DataPerBatchItem::const_default_utility();
    let written = Timestamp::new(7, 2);
    assert!(!slots.ready(written));
    assert!(slots.get(written).is_none());
    slots.set(utility(5, -5), written);
    assert!(slots.ready(written));
    assert_eq!(slots.get(written), Some(&utility(5, -5)));
    // no clearing in between
    assert!(!slots.ready(Timestamp::new(8, 2)));
    assert!(slots.get(Timestamp::new(8, 2)).is_none());
    assert!(!slots.ready(Timestamp::new(6, 2)));
    // the other batch places are untouched
    assert!(!slots.ready(Timestamp::new(7, 1)));
    assert!(!slots.ready(Timestamp::new(7, 3)));
    slots.set(utility(9, 9), Timestamp::new(8, 2));
    assert!(!slots.ready(written));
    assert_eq!(slots.get(Timestamp::new(8, 2)), Some(&utility(9, 9)));
}

#[test]
fn slots_made_from_a_closure_or_for_options() {
    let slots: DataPerBatchItem<u8> = DataPerBatchItem::new(|| 3u8);
    assert_eq!(slots.data, [3, 3, 3, 3]);
    assert_eq!(slots.updated_iteration_per_work_item, [0, 0, 0, 0]);
    assert!(!slots.ready(Timestamp::new(1, 0)));
    let options: DataPerBatchItem<Option<u8>> = DataPerBatchItem::const_default_option();
    assert_eq!(options.data, [None, None, None, None]);
}

#[test]
fn timestamps_hold_what_they_are_made_of() {
    let t = Timestamp::new(3, 1);
    assert_eq!(t.cfr_iteration, 3);
    assert_eq!(t.item_within_iteration, 1);
    assert_eq!(t, Timestamp { cfr_iteration: 3, item_within_iteration: 1 });
}

#[test]
fn payoffs_are_weighted_toward_zero() {
    assert_eq!(scale(ONE, PROBABILITY_ONE), ONE as i128);
    assert_eq!(scale(ONE, PROBABILITY_ONE / 3), 333_333_333);
    assert_eq!(scale(-ONE, PROBABILITY_ONE / 3), -333_333_333);
    assert_eq!(scale(7, PROBABILITY_ONE / 2), 3);
    assert_eq!(scale(-7, PROBABILITY_ONE / 2), -3);
    assert_eq!(scale(123, 0), 0);

    let mut u = utility(10, -10);
    u.accumulate(&utility(7, -7), PROBABILITY_ONE / 2);
    assert_eq!(u, utility(13, -13));
    u.reduce(PROBABILITY_ONE / 4);
    assert_eq!(u, utility(3, -3));
    assert_eq!(u.get(0), 3);
    assert_eq!(u.get(1), -3);
    assert_eq!(u.get(3), 0);
    assert_eq!(u.get(4), 0);
    assert_eq!(u.get(usize::MAX), 0);
    assert_eq!(UtilityForAllPlayers::const_default().util, [0; 4]);
    assert_eq!(UtilityForAllPlayers::default().util, [0; 4]);
}

#[test]
fn move_probability_is_an_even_share_until_written() {
    let mut d = DataForMove::new();
    assert_eq!(d.load_move_probability(4), PROBABILITY_ONE / 4);
    assert_eq!(d.load_move_probability(3), 333_333_333);
    d.write_move_probability(250);
    assert_eq!(d.load_move_probability(4), 250);
    assert_eq!(d.load_move_probability_unchecked(), 250);
    // a computed zero is kept apart from "never computed"
    d.write_move_probability(0);
    assert_eq!(d.load_move_probability_unchecked(), ZERO_PROBABILITY);
    assert_eq!(d.load_move_probability(4), 0);
    d.write_move_probability(PROBABILITY_ONE);
    assert_eq!(d.load_move_probability(1), PROBABILITY_ONE);
}

#[test]
fn regret_grows_by_the_gain_forgone_times_the_weight() {
    let t = Timestamp::new(5, 0);
    let mut d = DataForMove::new();
    assert!(!d.ready(t));
    d.utility_after_move.set(utility(700, -700), t);
    assert!(d.ready(t));
    // the move was worth 700 to player 0, the strategy 400
    d.accumulate_regret(t, 0, &utility(400, -400), 5);
    assert_eq!(d.regret(), 1500);
    // to player 1 the move was worth less than the strategy: nothing is added
    d.accumulate_regret(t, 1, &utility(400, -400), 5);
    assert_eq!(d.regret(), 1500);
    // a player out of range is worth zero either way
    d.accumulate_regret(t, 9, &utility(400, -400), 5);
    assert_eq!(d.regret(), 1500);
    d.accumulate_regret(t, 0, &utility(-300, 300), 1);
    assert_eq!(d.regret(), 2500);
    // regret stops at its bound
    d.cumulative_move_regret = MAX_REGRET - 10;
    d.accumulate_regret(t, 0, &utility(0, 0), 1);
    assert_eq!(d.regret(), MAX_REGRET);
    d.accumulate_regret(t, 0, &utility(0, 0), u32::MAX);
    assert_eq!(d.regret(), MAX_REGRET);
}

#[test]
fn a_completed_value_enters_the_running_average() {
    let board = TicTacToeBoard::default();
    let mut data: DataForInfoSet<TicTacToeBoard> = DataForInfoSet::new(&board);
    assert_eq!(data.turn(), 0);
    assert_eq!(data.move_count(), 9);
    assert_eq!(data.moves().len(), 9);
    assert!(!data.is_terminal());
    let t = Timestamp::new(1, 0);
    assert!(!data.is_ready(t));
    assert_eq!(data.get_iteration_utility_if_ready(t), None);
    data.ready_with_counterfactual(utility(900, 100), PROBABILITY_ONE, t);
    assert!(data.is_ready(t));
    assert_eq!(data.get_iteration_utility_if_ready(t), Some(utility(900, 100)));
    assert_eq!(data.get_cumulative_counterfactual(), utility(900, 100));
    assert_eq!(data.counterfactual_n, 1);
    // the second value counts half, weighted by the probability of its state
    let t2 = Timestamp::new(2, 0);
    data.ready_with_counterfactual(utility(500, -300), PROBABILITY_ONE / 2, t2);
    assert_eq!(data.get_iteration_utility_if_ready(t2), Some(utility(500, -300)));
    // (900 * 1 + 250) / 2 and (100 * 1 - 150) / 2, toward zero
    assert_eq!(data.get_cumulative_counterfactual(), utility(575, -25));
    assert_eq!(data.counterfactual_n, 2);
    assert!(!data.is_ready(t));
    // no final payoffs here: nothing happens
    assert!(!data.increment_terminal_counterfactual(PROBABILITY_ONE, Timestamp::new(3, 0)));
    assert_eq!(data.counterfactual_n, 2);
    // the first completion within an iteration asks for the strategy update
    assert!(data.check_for_writeback(t2));
    assert!(!data.check_for_writeback(Timestamp::new(2, 1)));
    assert!(data.check_for_writeback(Timestamp::new(3, 0)));
}

#[test]
fn final_payoffs_are_weighted_by_the_probability_of_the_state() {
    let won = TicTacToeBoard {
        squares: [
            TicTacToeSquare::X,
            TicTacToeSquare::X,
            TicTacToeSquare::X,
            TicTacToeSquare::O,
            TicTacToeSquare::O,
            TicTacToeSquare::Empty,
            TicTacToeSquare::Empty,
            TicTacToeSquare::Empty,
            TicTacToeSquare::Empty,
        ],
        turn: Player::O,
    };
    let mut data: DataForInfoSet<TicTacToeBoard> = DataForInfoSet::new(&won);
    assert!(data.is_terminal());
    assert_eq!(data.move_count(), 0);
    let t = Timestamp::new(4, 1);
    assert!(data.increment_terminal_counterfactual(PROBABILITY_ONE / 4, t));
    assert_eq!(data.get_iteration_utility_if_ready(t), Some(utility(ONE / 4, 0)));
    assert_eq!(data.get_cumulative_counterfactual(), utility(ONE / 4, 0));
}

#[test]
fn regret_matching_gives_each_move_its_share() {
    let board = TicTacToeBoard {
        squares: [
            TicTacToeSquare::X,
            TicTacToeSquare::X,
            TicTacToeSquare::X,
            TicTacToeSquare::O,
            TicTacToeSquare::O,
            TicTacToeSquare::Empty,
            TicTacToeSquare::Empty,
            TicTacToeSquare::Empty,
            TicTacToeSquare::Empty,
        ],
        turn: Player::O,
    };
    // three moves without regret: even shares
    let mut data: DataForInfoSet<TicTacToeBoard> = DataForInfoSet::new(&TicTacToeBoard {
        squares: [
            TicTacToeSquare::X,
            TicTacToeSquare::O,
            TicTacToeSquare::X,
            TicTacToeSquare::O,
            TicTacToeSquare::O,
            TicTacToeSquare::X,
            TicTacToeSquare::Empty,
            TicTacToeSquare::Empty,
            TicTacToeSquare::Empty,
        ],
        turn: Player::X,
    });
    assert_eq!(data.move_count(), 3);
    update_strategy(&mut data);
    for m in data.moves() {
        assert_eq!(m.d.load_move_probability_unchecked(), 333_333_333);
    }
    // regrets 1, 2 and 0: shares of a third, two thirds and nothing
    data.move_data[0].d.cumulative_move_regret = 1;
    data.move_data[1].d.cumulative_move_regret = 2;
    data.move_data[2].d.cumulative_move_regret = 0;
    update_strategy(&mut data);
    assert_eq!(data.moves()[0].d.load_move_probability(3), 333_333_333);
    assert_eq!(data.moves()[1].d.load_move_probability(3), 666_666_666);
    assert_eq!(data.moves()[2].d.load_move_probability(3), 0);
    assert_eq!(data.moves()[2].d.load_move_probability_unchecked(), ZERO_PROBABILITY);
    // the regrets themselves are as they were
    assert_eq!(data.moves()[1].d.regret(), 2);
    // the largest regrets there can be
    for i in 0..3 {
        data.move_data[i].d.cumulative_move_regret = MAX_REGRET;
    }
    update_strategy(&mut data);
    for m in data.moves() {
        assert_eq!(m.d.load_move_probability(3), 333_333_333);
    }
    // where play has ended there is nothing to match
    let mut ended: DataForInfoSet<TicTacToeBoard> = DataForInfoSet::new(&board);
    assert!(ended.is_terminal());
    update_strategy(&mut ended);
    assert_eq!(ended.move_count(), 0);
}

#[test]
fn picking_walks_the_accumulated_probability() {
    let moves = vec![('a', 200u64), ('b', 0), ('c', 300), ('d', 500)];
    assert_eq!(pick_from(&moves, 0), Some('a'));
    assert_eq!(pick_from(&moves, 199), Some('a'));
    assert_eq!(pick_from(&moves, 200), Some('c'));
    assert_eq!(pick_from(&moves, 499), Some('c'));
    assert_eq!(pick_from(&moves, 500), Some('d'));
    assert_eq!(pick_from(&moves, 999), Some('d'));
    assert_eq!(pick_from(&moves, 1000), None);
    assert_eq!(pick_from(&moves, u64::MAX), None);
    let none: Vec<(char, u64)> = Vec::new();
    assert_eq!(pick_from(&none, 0), None);
}

#[test]
fn the_weight_of_an_iteration() {
    let config = SolverConfig::new();
    assert_eq!(config.batch_size, 4);
    assert_eq!(config.weighting, RegretWeighting::Linear);
    assert_eq!(config.weight(Timestamp::new(17, 0)), 17);
    let uniform = SolverConfig {
        batch_size: 1,
        weighting: RegretWeighting::Uniform,
    };
    assert_eq!(uniform.weight(Timestamp::new(17, 0)), 1);
    assert_eq!(SolverConfig::default().batch_size, 4);
}

#[test]
fn one_state_a_batch_is_traversed_once_an_iteration() {
    let start = TicTacToeBoard::default();
    let mut generator: StrategyGenerator<TicTacToeBoard> = StrategyGenerator::with_config(SolverConfig {
        batch_size: 1,
        weighting: RegretWeighting::Uniform,
    });
    generator.refine_strategy(TicTacToeSampler { board: start }, 3);
    let store = &generator.strategy_generation_progress.data_for_known_infosets;
    let root = store.get(store.lookup(&start).unwrap());
    assert_eq!(root.counterfactual_n, 3);
    assert_eq!(
        root.counterfactual_for_current_iteration.updated_iteration_per_work_item,
        [3, 0, 0, 0]
    );
    assert_eq!(root.global_updated_iteration, 3);
    // after the update nothing is left in the queue
    assert_eq!(generator.strategy_generation_progress.pop_updated_infoset(), None);
}

#[test]
fn completed_entries_are_queued_once_an_iteration() {
    let mut progress: StrategyGenerationProgress<TicTacToeBoard> = StrategyGenerationProgress::new();
    let a = progress.get_data_for_infoset(TicTacToeBoard::default());
    let b = progress.get_data_for_infoset(TicTacToeBoard {
        turn: Player::O,
        ..TicTacToeBoard::default()
    });
    assert_eq!((a, b), (0, 1));
    assert_eq!(progress.get_data_for_infoset(TicTacToeBoard::default()), 0);
    progress.mark_as_completed(b, Timestamp::new(1, 0));
    progress.mark_as_completed(a, Timestamp::new(1, 0));
    progress.mark_as_completed(b, Timestamp::new(1, 1));
    assert_eq!(progress.pop_updated_infoset(), Some(1));
    assert_eq!(progress.pop_updated_infoset(), Some(0));
    assert_eq!(progress.pop_updated_infoset(), None);
    progress.mark_as_completed(b, Timestamp::new(2, 0));
    assert_eq!(progress.pop_updated_infoset(), Some(1));
    assert_eq!(progress.into_infoset_data().arena.len(), 2);
}

#[test]
fn the_work_stack_gives_back_the_last_pushed_first() {
    let mut stack: ThreadLocalWorkStack<char> = ThreadLocalWorkStack::new();
    assert_eq!(stack.len(), 0);
    assert_eq!(stack.pop(), None);
    stack.push(1, 'a');
    stack.push(2, 'b');
    assert_eq!(stack.len(), 2);
    assert_eq!(stack.pop(), Some((2, 'b')));
    assert_eq!(stack.pop(), Some((1, 'a')));
    assert_eq!(ThreadLocalWorkStack::<u8>::default().len(), 0);
}

#[test]
fn moves_are_collected_with_fresh_statistics() {
    let mut allocation: MoveWithDataAllocation<TicTacToeBoard> = MoveWithDataAllocation::new();
    let m = TicTacToeBoard::default().moves()[4];
    allocation.push(m);
    let v = allocation.into_vec();
    assert_eq!(v.len(), 1);
    assert_eq!(v[0].m, m);
    assert_eq!(v[0].d.regret(), 0);
    assert_eq!(v[0].d.load_move_probability_unchecked(), 0);
}

#[test]
fn the_iterator_stops_after_enough_states() {
    let board = TicTacToeBoard::default();
    let mut it = RandomGamestateIterator::new(TicTacToeSampler { board }, 2 * PROBABILITY_ONE, 10);
    // each state carries probability one: the third brings the mass over two
    for _ in 0..3 {
        assert_eq!(it.next::<TicTacToeBoard, TicTacToeBoard>(), Some((board, PROBABILITY_ONE)));
    }
    assert_eq!(it.next::<TicTacToeBoard, TicTacToeBoard>(), None);
    assert_eq!(it.cumulative_n, 3);
    let mut few = RandomGamestateIterator::new(TicTacToeSampler { board }, 1000 * PROBABILITY_ONE, 1);
    assert!(few.next::<TicTacToeBoard, TicTacToeBoard>().is_some());
    assert!(few.next::<TicTacToeBoard, TicTacToeBoard>().is_some());
    assert!(few.next::<TicTacToeBoard, TicTacToeBoard>().is_none());
}
