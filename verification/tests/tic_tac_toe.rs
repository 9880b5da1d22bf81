use cfr_solver::cfr::game_model::{
    GamestateSampler, OracleGamestate, UtilityForAllPlayers, VisibleInfo, PROBABILITY_ONE,
};
use cfr_solver::cfr::strategy_generation::strategy_generator::StrategyGenerator;
use cfr_solver::tic_tac_toe::{
    three_in_row, Player, TicTacToeBoard, TicTacToeMove, TicTacToeSampler, TicTacToeSquare,
};

const ONE: i64 = 1_000_000_000;

fn board(marks: &str, turn: Player) -> TicTacToeBoard {
    let mut squares = [TicTacToeSquare::Empty; 9];
    for (i, c) in marks.chars().enumerate() {
        squares[i] = match c {
            'X' => TicTacToeSquare::X,
            'O' => TicTacToeSquare::O,
            _ => TicTacToeSquare::Empty,
        };
    }
    TicTacToeBoard { squares, turn }
}

#[test]
fn play_a_game() {
    let mut strategy_generator: StrategyGenerator<TicTacToeBoard> = StrategyGenerator::new();
    strategy_generator.refine_strategy(
        TicTacToeSampler {
            board: TicTacToeBoard::default(),
        },
        1000,
    );

    let mut board = TicTacToeBoard::default();
    println!("{:?}", board);
    println!(
        "{:?}",
        strategy_generator
            .strategy_for_info(board)
            .move_probabilities(),
    );

    while let Some(m) = strategy_generator.strategy_for_info(board).pick_move() {
        board = board.advance(&m);
        println!("{:?}", board);
        println!(
            "{:?}",
            strategy_generator
                .strategy_for_info(board)
                .move_probabilities()
        );
    }
}

#[test]
fn the_value_of_the_empty_board_converges_to_a_draw() {
    let mut generator: StrategyGenerator<TicTacToeBoard> = StrategyGenerator::new();
    let start = TicTacToeBoard::default();
    generator.refine_strategy(TicTacToeSampler { board: start }, 1000);
    let store = &generator.strategy_generation_progress.data_for_known_infosets;
    // every position that can be reached is in the table
    assert_eq!(store.arena.len(), 5478);
    let root = store.get(store.lookup(&start).unwrap());
    assert_eq!(root.counterfactual_n, 4000);
    let average = root.get_cumulative_counterfactual();
    for player in 0..2 {
        let value = average.get(player);
        assert!((value - ONE / 2).abs() < ONE / 20, "average {:?}", average);
    }
    let last = root
        .get_iteration_utility_if_ready(
            cfr_solver::cfr::strategy_generation::workspace_data::timestamp::Timestamp::new(1000, 3),
        )
        .unwrap();
    for player in 0..2 {
        assert!((last.get(player) - ONE / 2).abs() < ONE / 100, "last {:?}", last);
    }
    // the probabilities of the first moves add up to one within a millionth
    let view = generator.strategy_for_info(start);
    let total: u64 = view.move_probabilities().iter().map(|(_, p)| *p).sum();
    assert!(total <= 1_000_000_000);
    assert!(total > 1_000_000_000 - 1_000);
}

#[test]
fn a_filled_line_wins() {
    assert_eq!(three_in_row()[6], [0, 4, 8]);
    assert_eq!(board("XXX OO   ", Player::O).winner(), Some(Player::X));
    assert_eq!(board("X O XO  O", Player::X).winner(), Some(Player::O));
    assert_eq!(board("X O X O X", Player::O).winner(), Some(Player::X));
    assert_eq!(board("XOXOOXXXO", Player::O).winner(), None);
    assert_eq!(TicTacToeBoard::default().winner(), None);
    // the first filled line in the order of the lines decides
    assert_eq!(board("XXXOOO   ", Player::X).winner(), Some(Player::X));
}

#[test]
fn moves_go_to_the_empty_squares() {
    let b = board("XO  X    ", Player::O);
    let moves = b.moves();
    let squares: Vec<usize> = moves.iter().map(|m| m.square).collect();
    assert_eq!(squares, vec![2, 3, 5, 6, 7, 8]);
    assert!(moves.iter().all(|m| m.state == TicTacToeSquare::O));
    assert_eq!(TicTacToeBoard::default().moves().len(), 9);
    // no moves once a line is filled
    assert_eq!(board("XXX OO   ", Player::O).moves(), vec![]);
}

#[test]
fn payoffs_at_the_end_of_play() {
    let mut moves = Vec::new();
    let won = board("XXX OO   ", Player::O).run_for_moves(&mut moves);
    assert_eq!(won, Some(UtilityForAllPlayers { util: [ONE, 0, 0, 0] }));
    let lost = board("X O XO  O", Player::X).run_for_moves(&mut moves);
    assert_eq!(lost, Some(UtilityForAllPlayers { util: [0, ONE, 0, 0] }));
    let drawn = board("XOXXOOOXX", Player::O).run_for_moves(&mut moves);
    assert_eq!(
        drawn,
        Some(UtilityForAllPlayers {
            util: [ONE / 2, ONE / 2, 0, 0]
        })
    );
    assert!(moves.is_empty());
    let open = board("XOX      ", Player::O).run_for_moves(&mut moves);
    assert_eq!(open, None);
    assert_eq!(moves.len(), 6);
}

#[test]
fn advance_marks_the_square_and_passes_the_turn() {
    let b = TicTacToeBoard::default();
    assert_eq!(VisibleInfo::turn(&b), 0);
    let next = b.advance(&TicTacToeMove {
        state: TicTacToeSquare::X,
        square: 4,
    });
    assert_eq!(next, board("    X    ", Player::O));
    assert_eq!(VisibleInfo::turn(&next), 1);
    assert_eq!(OracleGamestate::turn(&next), 1);
    assert_eq!(next.info_for_turn_player(), next);
    assert_eq!(OracleGamestate::players_playing(&next), 2);
}

#[test]
fn regret_never_shrinks_from_iteration_to_iteration() {
    let mut generator: StrategyGenerator<TicTacToeBoard> = StrategyGenerator::new();
    let start = board("XOXOX    ", Player::O);
    let mut before: Vec<Vec<u128>> = Vec::new();
    for _ in 0..20 {
        generator.refine_strategy(TicTacToeSampler { board: start }, 1);
        let store = &generator.strategy_generation_progress.data_for_known_infosets;
        let now: Vec<Vec<u128>> = store
            .arena
            .iter()
            .map(|e| e.moves().iter().map(|m| m.d.regret()).collect())
            .collect();
        for (i, old) in before.iter().enumerate() {
            for (j, r) in old.iter().enumerate() {
                assert!(now[i][j] >= *r);
            }
        }
        before = now;
    }
    assert!(before.iter().flatten().any(|r| *r > 0));
    assert_eq!(generator.iterations, 21);
}

#[test]
fn the_sampler_hands_out_its_board_with_probability_one() {
    let board = TicTacToeBoard::default();
    let mut sampler = TicTacToeSampler { board };
    for _ in 0..10 {
        let (drawn, probability) = sampler.sample();
        assert_eq!(drawn, board);
        assert_eq!(probability, PROBABILITY_ONE);
        assert_eq!(sampler.board, board);
    }
}
