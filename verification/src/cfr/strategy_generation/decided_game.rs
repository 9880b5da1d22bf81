//! The game of one decision: the player to move has two moves, one that
//! wins a unit and one that loses a unit, and play ends with either. A
//! solve of it plays the winning move for certain from its first
//! iteration on.

use vstd::prelude::*;
use crate::cfr::game_model::utility;
use crate::cfr::game_model::{
    OracleGamestate, Probability, UtilityForAllPlayers, VisibleInfo, PROBABILITY_ONE,
};
use crate::cfr::strategy_generation::cfr_algorithm_impl::iteration_relation;
use crate::cfr::strategy_generation::cfr_algorithm_impl::step_relation;
use crate::cfr::strategy_generation::cfr_algorithm_impl::traversal_invariant;
use crate::cfr::strategy_generation::config::SolverConfig;
use crate::cfr::strategy_generation::strategy_generator;
use crate::cfr::strategy_generation::update_strategy;
use crate::cfr::strategy_generation::workspace_data::data_for_infoset;
use crate::cfr::strategy_generation::workspace_data::data_for_infoset::InfoSetStatistics;
use crate::cfr::strategy_generation::workspace_data::data_for_known_infosets::DataForKnownInfosets;
use crate::cfr::strategy_generation::workspace_data::data_for_move;
use crate::cfr::strategy_generation::workspace_data::move_data;
use crate::cfr::strategy_generation::workspace_data::timestamp::Timestamp;

verus! {

/// Whether the game is the game of one decision: play goes on at `root`
/// alone, where the player with number zero has the moves `win` and
/// `lose`; after `win` play has ended with the payoffs `won`, a unit for
/// the mover, and after `lose` with the payoffs `lost`, a unit less than
/// nothing.
pub open spec fn one_decision<INFO: VisibleInfo, G: OracleGamestate<INFO>>(
    root: INFO,
    win: INFO::Move,
    lose: INFO::Move,
    won: UtilityForAllPlayers,
    lost: UtilityForAllPlayers,
) -> bool {
    &&& root.terminal_utility() is None
    &&& root.spec_turn() == 0
    &&& root.legal_moves() == seq![win, lose]
    &&& won@[0] == PROBABILITY_ONE
    &&& lost@[0] == -PROBABILITY_ONE
    &&& forall|g: G|
        #![trigger g.valid()]
        g.valid() && g.spec_info().terminal_utility() is None ==> g.spec_info() == root
    &&& forall|g: G|
        #![trigger g.valid()]
        g.valid() && g.spec_info() == root ==> {
            &&& g.spec_advance(win).spec_info().terminal_utility() == Some(won)
            &&& g.spec_advance(lose).spec_info().terminal_utility() == Some(lost)
        }
}

/// The statistics of the decision as long as no move has gained regret
/// that counted: two moves, no regret for the losing move, and even
/// shares.
pub open spec fn undecided<INFO: VisibleInfo>(entry: InfoSetStatistics<INFO>) -> bool {
    &&& entry.moves.len() == 2
    &&& entry.turn_player == 0
    &&& entry.terminal_utility is None
    &&& entry.moves[1].d.cumulative_move_regret == 0
    &&& entry.moves[0].d.spec_probability(2) == PROBABILITY_ONE / 2
    &&& entry.moves[1].d.spec_probability(2) == PROBABILITY_ONE / 2
}

/// The statistics of the decision once it is made: the winning move has
/// regret, the losing move has none, and the winning move is played for
/// certain.
pub open spec fn decided<INFO: VisibleInfo>(entry: InfoSetStatistics<INFO>) -> bool {
    &&& entry.moves.len() == 2
    &&& entry.turn_player == 0
    &&& entry.terminal_utility is None
    &&& entry.moves[1].d.cumulative_move_regret == 0
    &&& entry.moves[0].d.cumulative_move_regret > 0
    &&& entry.moves[0].d.spec_probability(2) == PROBABILITY_ONE
    &&& entry.moves[1].d.spec_probability(2) == 0
}

/// A unit weighted by a probability is the probability; what is weighted
/// by nothing is nothing; even shares of a gain and of the same loss
/// cancel.
pub proof fn lemma_weighted_units(p: int)
    requires
        0 <= p <= PROBABILITY_ONE,
    ensures
        utility::scaled(PROBABILITY_ONE as int, p) == p,
        utility::scaled(-PROBABILITY_ONE, p) == -p,
        utility::scaled(p, PROBABILITY_ONE as int) == p,
        utility::scaled(-p, 0) == 0,
        utility::scaled(p, PROBABILITY_ONE as int / 2) + utility::scaled(
            -p,
            PROBABILITY_ONE as int / 2,
        ) == 0,
{
    let one = PROBABILITY_ONE as int;
    assert(one * p / one == p) by (nonlinear_arith)
        requires
            one == 1_000_000_000,
    ;
    assert(p * one / one == p) by (nonlinear_arith)
        requires
            one == 1_000_000_000,
    ;
    assert(one * p >= 0 && p * one >= 0) by (nonlinear_arith)
        requires
            p >= 0,
            one == 1_000_000_000,
    ;
    assert((-one) * p == -(one * p)) by (nonlinear_arith);
    assert((-p) * 0 == 0) by (nonlinear_arith);
    let half = one / 2;
    assert(p * half >= 0) by (nonlinear_arith)
        requires
            p >= 0,
            half >= 0,
    ;
    assert((-p) * half == -(p * half)) by (nonlinear_arith);
}

/// What a traversal does to the statistics of the decision, where the
/// payoffs it keeps with the moves are the final payoffs weighted by the
/// probability of the state: the losing move gains no regret, the shares
/// stay, and once the value is completed with a state of some
/// probability the winning move has regret.
pub proof fn lemma_decision_step<INFO: VisibleInfo>(
    before: InfoSetStatistics<INFO>,
    after: InfoSetStatistics<INFO>,
    timestamp: Timestamp,
    gamestate_probability: Probability,
    weight: int,
)
    requires
        undecided(before) || decided(before),
        !before.spec_is_ready(timestamp),
        step_relation::entry_step(before, after, timestamp, gamestate_probability, weight),
        gamestate_probability <= PROBABILITY_ONE,
        weight >= 1,
        after.spec_is_ready(timestamp) ==> {
            &&& after.moves[0].d.cached(timestamp)@[0] == utility::scaled(
                PROBABILITY_ONE as int,
                gamestate_probability as int,
            )
            &&& after.moves[1].d.cached(timestamp)@[0] == utility::scaled(
                -PROBABILITY_ONE,
                gamestate_probability as int,
            )
        },
    ensures
        undecided(before) ==> undecided(after),
        decided(before) ==> decided(after),
        after.moves.len() == 2,
        after.moves[0].m == before.moves[0].m,
        after.moves[1].m == before.moves[1].m,
        after.spec_is_ready(timestamp) ==> after.global_updated_iteration
            == timestamp.cfr_iteration,
        !after.spec_is_ready(timestamp) ==> after.global_updated_iteration
            == before.global_updated_iteration,
        after.spec_is_ready(timestamp) && gamestate_probability > 0
            ==> after.moves[0].d.cumulative_move_regret > 0,
        before.moves[0].d.cumulative_move_regret > 0 ==> after.moves[0].d.cumulative_move_regret
            > 0,
{
    let p = gamestate_probability as int;
    lemma_weighted_units(p);
    if after.spec_is_ready(timestamp) {
        assert(step_relation::entry_completed(
            before,
            after,
            timestamp,
            gamestate_probability,
            weight,
        ));
        let value = after.value(timestamp);
        assert(step_relation::move_completed(
            before.moves[0],
            after.moves[0],
            timestamp,
            before.turn_player,
            value,
            weight,
        ));
        assert(step_relation::move_completed(
            before.moves[1],
            after.moves[1],
            timestamp,
            before.turn_player,
            value,
            weight,
        ));
        let for_win = after.moves[0].d.cached(timestamp)@[0] as int;
        let for_lose = after.moves[1].d.cached(timestamp)@[0] as int;
        let share_win = after.moves[0].d.spec_probability(2);
        let share_lose = after.moves[1].d.spec_probability(2);
        assert(value@[0] == data_for_infoset::strategy_value(after.moves, timestamp, 0, 2));
        assert(data_for_infoset::strategy_value(after.moves, timestamp, 0, 2)
            == data_for_infoset::strategy_value(after.moves, timestamp, 0, 1) + utility::scaled(
            for_lose,
            share_lose,
        ));
        assert(data_for_infoset::strategy_value(after.moves, timestamp, 0, 1)
            == data_for_infoset::strategy_value(after.moves, timestamp, 0, 0) + utility::scaled(
            for_win,
            share_win,
        ));
        assert(share_win == before.moves[0].d.spec_probability(2));
        assert(share_lose == before.moves[1].d.spec_probability(2));
        let worth = value@[0] as int;
        if undecided(before) {
            assert(worth == 0);
            assert(weight * p >= 0 && (p > 0 ==> p * weight > 0)) by (nonlinear_arith)
                requires
                    weight >= 1,
                    p >= 0,
            ;
        } else {
            assert(worth == p);
        }
        assert(data_for_move::positive_regret(for_lose, worth, weight) == 0);
        assert(data_for_move::positive_regret(for_win, worth, weight) >= 0);
        assert(undecided(before) && p > 0 ==> data_for_move::positive_regret(
            for_win,
            worth,
            weight,
        ) > 0);
    } else {
        assert(step_relation::entry_pending(before, after, timestamp));
        assert(step_relation::move_pending(before.moves[0], after.moves[0], timestamp));
        assert(step_relation::move_pending(before.moves[1], after.moves[1], timestamp));
    }
}

/// The entry of the decision in a table that knows it: undecided or
/// decided, and decided if `made` says so.
pub open spec fn leaning<INFO: VisibleInfo>(
    table: &DataForKnownInfosets<INFO>,
    root: INFO,
    made: bool,
) -> bool {
    table.index().contains_key(root) ==> {
        let entry = table.entry(table.index()[root] as int);
        if made {
            decided(entry)
        } else {
            undecided(entry) || decided(entry)
        }
    }
}

/// Whether the entry of the decision is known, has regret for the
/// winning move, and completed a value in iteration `iteration`.
pub open spec fn marked<INFO: VisibleInfo>(
    table: &DataForKnownInfosets<INFO>,
    root: INFO,
    iteration: int,
) -> bool {
    &&& table.index().contains_key(root)
    &&& table.entry(table.index()[root] as int).global_updated_iteration == iteration
    &&& table.entry(table.index()[root] as int).moves[0].d.cumulative_move_regret > 0
}

/// The payoffs kept, for `timestamp`, with move `mi` of the decision are
/// the final payoffs after the move, weighted by the probability of the
/// state traversed.
pub proof fn lemma_payoffs_kept<INFO: VisibleInfo, G: OracleGamestate<INFO>>(
    before: &DataForKnownInfosets<INFO>,
    after: &DataForKnownInfosets<INFO>,
    root: INFO,
    win: INFO::Move,
    lose: INFO::Move,
    won: UtilityForAllPlayers,
    lost: UtilityForAllPlayers,
    timestamp: Timestamp,
    gamestate_probability: Probability,
    weight: int,
    mi: int,
)
    requires
        one_decision::<INFO, G>(root, win, lose, won, lost),
        before.wf(),
        after.wf(),
        timestamp.wf(),
        traversal_invariant::fresh_from(
            before,
            timestamp.cfr_iteration as int,
            timestamp.item_within_iteration as int,
        ),
        traversal_invariant::traversed(before, after, timestamp, gamestate_probability, weight),
        traversal_invariant::caches_follow::<INFO, G>(after, timestamp),
        after.index().contains_key(root),
        0 <= mi < 2,
        after.entry(after.index()[root] as int).moves.len() == 2,
        after.entry(after.index()[root] as int).moves[mi].d.utility_after_move.spec_ready(
            timestamp,
        ),
    ensures
        after.entry(after.index()[root] as int).moves[mi].d.cached(timestamp)@[0]
            == utility::scaled(
            if mi == 0 {
                PROBABILITY_ONE as int
            } else {
                -PROBABILITY_ONE
            },
            gamestate_probability as int,
        ),
{
    let d = after.index()[root] as int;
    let entry = after.entry(d);
    assert(entry.describes(root));
    assert(move_data::moves_of(entry.moves)[mi] == entry.moves[mi].m);
    assert(root.legal_moves()[0] == win && root.legal_moves()[1] == lose);
    assert(traversal_invariant::cache_follows::<INFO, G>(after, timestamp, d, mi));
    let g = choose|g: G| #[trigger] traversal_invariant::explains(after, timestamp, d, mi, g);
    assert(after.entry(after.index()[g.spec_info()] as int).describes(g.spec_info()));
    assert(g.valid());
    assert(g.spec_info() == root);
    let child = g.spec_advance(entry.moves[mi].m).spec_info();
    let final_payoffs = if mi == 0 {
        won
    } else {
        lost
    };
    assert(child.terminal_utility() == Some(final_payoffs));
    let c = after.index()[child] as int;
    let ended = after.entry(c);
    assert(ended.describes(child));
    traversal_invariant::lemma_fresh_knows_nothing::<INFO, G>(before, timestamp);
    if c < before.len() {
        let was = before.entry(c);
        assert(step_relation::entry_step(was, ended, timestamp, gamestate_probability, weight));
        assert(!was.spec_is_ready(timestamp));
        assert(step_relation::entry_completed(
            was,
            ended,
            timestamp,
            gamestate_probability,
            weight,
        ));
    } else {
        assert(traversal_invariant::entry_grown(ended, timestamp, gamestate_probability, weight));
        let made = choose|made: InfoSetStatistics<INFO>|
            made.fresh() && made.wf() && #[trigger] step_relation::entry_step(
                made,
                ended,
                timestamp,
                gamestate_probability,
                weight,
            );
        assert(!made.spec_is_ready(timestamp));
        assert(step_relation::entry_completed(
            made,
            ended,
            timestamp,
            gamestate_probability,
            weight,
        ));
    }
    assert(ended.value(timestamp).is_reduction(final_payoffs, gamestate_probability));
    assert(ended.value(timestamp)@[0] == utility::scaled(
        final_payoffs@[0] as int,
        gamestate_probability as int,
    ));
}

/// What one traversal does to the entry of the decision.
pub proof fn lemma_traversal_leans<INFO: VisibleInfo, G: OracleGamestate<INFO>>(
    before: &DataForKnownInfosets<INFO>,
    after: &DataForKnownInfosets<INFO>,
    root: INFO,
    win: INFO::Move,
    lose: INFO::Move,
    won: UtilityForAllPlayers,
    lost: UtilityForAllPlayers,
    timestamp: Timestamp,
    gamestate_probability: Probability,
    weight: int,
    made: bool,
)
    requires
        one_decision::<INFO, G>(root, win, lose, won, lost),
        before.wf(),
        after.wf(),
        timestamp.wf(),
        0 < gamestate_probability <= PROBABILITY_ONE,
        weight >= 1,
        traversal_invariant::fresh_from(
            before,
            timestamp.cfr_iteration as int,
            timestamp.item_within_iteration as int,
        ),
        traversal_invariant::traversed(before, after, timestamp, gamestate_probability, weight),
        traversal_invariant::caches_follow::<INFO, G>(after, timestamp),
        after.index().contains_key(root),
        after.entry(after.index()[root] as int).spec_is_ready(timestamp),
        leaning(before, root, made),
    ensures
        leaning(after, root, made && before.index().contains_key(root)),
        marked(after, root, timestamp.cfr_iteration as int),
{
    let d = after.index()[root] as int;
    let now = after.entry(d);
    assert(now.describes(root));
    assert(move_data::moves_of(now.moves).len() == now.moves.len());
    traversal_invariant::lemma_fresh_knows_nothing::<INFO, G>(before, timestamp);
    let was = if d < before.len() {
        before.entry(d)
    } else {
        choose|made: InfoSetStatistics<INFO>|
            made.fresh() && made.wf() && #[trigger] step_relation::entry_step(
                made,
                now,
                timestamp,
                gamestate_probability,
                weight,
            )
    };
    if d < before.len() {
        assert(step_relation::entry_step(was, now, timestamp, gamestate_probability, weight));
        assert(before.index().contains_key(root));
    } else {
        assert(traversal_invariant::entry_grown(now, timestamp, gamestate_probability, weight));
        assert(was.moves[0].d.fresh() && was.moves[1].d.fresh());
        assert(undecided(was));
    }
    assert(!was.spec_is_ready(timestamp));
    assert(step_relation::entry_completed(was, now, timestamp, gamestate_probability, weight));
    assert(step_relation::move_completed(
        was.moves[0],
        now.moves[0],
        timestamp,
        was.turn_player,
        now.value(timestamp),
        weight,
    ));
    assert(step_relation::move_completed(
        was.moves[1],
        now.moves[1],
        timestamp,
        was.turn_player,
        now.value(timestamp),
        weight,
    ));
    lemma_payoffs_kept::<INFO, G>(
        before,
        after,
        root,
        win,
        lose,
        won,
        lost,
        timestamp,
        gamestate_probability,
        weight,
        0,
    );
    lemma_payoffs_kept::<INFO, G>(
        before,
        after,
        root,
        win,
        lose,
        won,
        lost,
        timestamp,
        gamestate_probability,
        weight,
        1,
    );
    lemma_decision_step(was, now, timestamp, gamestate_probability, weight);
}

/// What the first `k` traversals of a batch do to the entry of the
/// decision.
pub proof fn lemma_chain_leans<INFO: VisibleInfo, G: OracleGamestate<INFO>>(
    tables: Seq<DataForKnownInfosets<INFO>>,
    probabilities: Seq<Probability>,
    reported: Set<Probability>,
    root: INFO,
    win: INFO::Move,
    lose: INFO::Move,
    won: UtilityForAllPlayers,
    lost: UtilityForAllPlayers,
    before: &DataForKnownInfosets<INFO>,
    after: &DataForKnownInfosets<INFO>,
    iteration: int,
    config: SolverConfig,
    k: int,
    made: bool,
)
    requires
        one_decision::<INFO, G>(root, win, lose, won, lost),
        iteration_relation::batch_chain::<INFO, G>(
            tables,
            probabilities,
            reported,
            root,
            before,
            after,
            iteration,
            config,
        ),
        config.wf(),
        1 <= iteration <= u32::MAX,
        forall|p: Probability| reported.contains(p) ==> p > 0,
        leaning(before, root, made),
        0 <= k <= config.batch_size,
    ensures
        leaning(&tables[k], root, made && before.index().contains_key(root)),
        before.index().contains_key(root) ==> tables[k].index().contains_key(root),
        k >= 1 ==> marked(&tables[k], root, iteration),
    decreases k,
{
    if k > 0 {
        lemma_chain_leans::<INFO, G>(
            tables,
            probabilities,
            reported,
            root,
            win,
            lose,
            won,
            lost,
            before,
            after,
            iteration,
            config,
            k - 1,
            made,
        );
        let i = k - 1;
        let timestamp = iteration_relation::place(iteration, i);
        assert(probabilities[i] <= PROBABILITY_ONE);
        assert(reported.contains(probabilities[i]));
        lemma_traversal_leans::<INFO, G>(
            &tables[i],
            &tables[i + 1],
            root,
            win,
            lose,
            won,
            lost,
            timestamp,
            probabilities[i],
            config.spec_weight(timestamp) as int,
            made && before.index().contains_key(root),
        );
    }
}

/// After an iteration of a solve of the game of one decision, in which
/// no state is drawn with probability zero, the winning move is played
/// for certain.
pub proof fn lemma_iteration_decides<INFO: VisibleInfo, G: OracleGamestate<INFO>>(
    reported: Set<Probability>,
    before: &DataForKnownInfosets<INFO>,
    after: &DataForKnownInfosets<INFO>,
    root: INFO,
    win: INFO::Move,
    lose: INFO::Move,
    won: UtilityForAllPlayers,
    lost: UtilityForAllPlayers,
    iteration: int,
    config: SolverConfig,
)
    requires
        one_decision::<INFO, G>(root, win, lose, won, lost),
        strategy_generator::iteration_done::<INFO, G>(
            reported,
            before,
            after,
            root,
            iteration,
            config,
        ),
        config.wf(),
        1 <= iteration <= u32::MAX,
        forall|p: Probability| reported.contains(p) ==> p > 0,
        leaning(before, root, false),
    ensures
        after.index().contains_key(root),
        leaning(after, root, true),
{
    let mid = choose|mid: DataForKnownInfosets<INFO>| #[trigger]
        strategy_generator::iteration_by_way_of::<INFO, G>(
            reported,
            before,
            &mid,
            after,
            root,
            iteration,
            config,
        );
    let (tables, probabilities) = choose|
        tables: Seq<DataForKnownInfosets<INFO>>,
        probabilities: Seq<Probability>,
    | #[trigger]
        iteration_relation::batch_chain::<INFO, G>(
            tables,
            probabilities,
            reported,
            root,
            before,
            &mid,
            iteration,
            config,
        );
    lemma_chain_leans::<INFO, G>(
        tables,
        probabilities,
        reported,
        root,
        win,
        lose,
        won,
        lost,
        before,
        &mid,
        iteration,
        config,
        config.batch_size as int,
        false,
    );
    let d = mid.index()[root] as int;
    let traversed = mid.entry(d);
    let updated = after.entry(d);
    assert(mid.wf()) by {
        assert(probabilities[config.batch_size - 1] <= PROBABILITY_ONE);
    }
    assert(0 <= d < mid.len());
    assert(update_strategy::entry_matched(traversed, updated));
    update_strategy::lemma_sole_regret_is_certain(traversed, updated, 0);
    assert(updated.moves[0].m == traversed.moves[0].m);
    assert(updated.moves[1].m == traversed.moves[1].m);
}

/// After the iterations of a solve of the game of one decision, one at
/// least, in which no state is drawn with probability zero, the winning
/// move is played for certain.
pub proof fn lemma_refined_decides<INFO: VisibleInfo, G: OracleGamestate<INFO>>(
    reported: Set<Probability>,
    before: &DataForKnownInfosets<INFO>,
    after: &DataForKnownInfosets<INFO>,
    root: INFO,
    win: INFO::Move,
    lose: INFO::Move,
    won: UtilityForAllPlayers,
    lost: UtilityForAllPlayers,
    first: int,
    n: nat,
    config: SolverConfig,
)
    requires
        one_decision::<INFO, G>(root, win, lose, won, lost),
        strategy_generator::refined::<INFO, G>(reported, before, after, root, first, n, config),
        config.wf(),
        n >= 1,
        1 <= first,
        first + n - 1 <= u32::MAX,
        forall|p: Probability| reported.contains(p) ==> p > 0,
        leaning(before, root, false),
    ensures
        after.index().contains_key(root),
        decided(after.entry(after.index()[root] as int)),
    decreases n,
{
    let mid = choose|mid: DataForKnownInfosets<INFO>|
        #[trigger] strategy_generator::iteration_done::<INFO, G>(
            reported,
            before,
            &mid,
            root,
            first,
            config,
        ) && strategy_generator::refined::<INFO, G>(
            reported,
            &mid,
            after,
            root,
            first + 1,
            (n - 1) as nat,
            config,
        );
    lemma_iteration_decides::<INFO, G>(
        reported,
        before,
        &mid,
        root,
        win,
        lose,
        won,
        lost,
        first,
        config,
    );
    if n > 1 {
        lemma_refined_decides::<INFO, G>(
            reported,
            &mid,
            after,
            root,
            win,
            lose,
            won,
            lost,
            first + 1,
            (n - 1) as nat,
            config,
        );
    }
}

/// A solve of the game of one decision, of one iteration at least, in
/// which no state is drawn with probability zero, plays the winning move
/// for certain and the losing move never.
pub proof fn lemma_winning_move_is_certain<INFO: VisibleInfo, G: OracleGamestate<INFO>>(
    reported: Set<Probability>,
    after: &DataForKnownInfosets<INFO>,
    root: INFO,
    win: INFO::Move,
    lose: INFO::Move,
    won: UtilityForAllPlayers,
    lost: UtilityForAllPlayers,
    n: nat,
    config: SolverConfig,
)
    requires
        one_decision::<INFO, G>(root, win, lose, won, lost),
        strategy_generator::solved::<INFO, G>(reported, after, root, n, config),
        config.wf(),
        1 <= n <= u32::MAX,
        forall|p: Probability| reported.contains(p) ==> p > 0,
    ensures
        after.index().contains_key(root),
        after.entry(after.index()[root] as int).moves.len() == 2,
        after.entry(after.index()[root] as int).moves[0].d.spec_probability(2) == PROBABILITY_ONE,
        after.entry(after.index()[root] as int).moves[1].d.spec_probability(2) == 0,
{
    let start = choose|start: DataForKnownInfosets<INFO>|
        start.len() == 0 && start.index() == Map::<INFO, usize>::empty()
            && #[trigger] strategy_generator::refined::<INFO, G>(
            reported,
            &start,
            after,
            root,
            1,
            n,
            config,
        );
    lemma_refined_decides::<INFO, G>(
        reported,
        &start,
        after,
        root,
        win,
        lose,
        won,
        lost,
        1,
        n,
        config,
    );
}

} // verus!
