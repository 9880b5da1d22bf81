//! What one traversal may do to the statistics of an information set.
//!
//! Within the generation of one timestamp an entry is first pending, while
//! the payoffs after its moves come in one by one, and then completed, once
//! and for good.

use vstd::prelude::*;
use crate::cfr::game_model::utility;
use crate::cfr::game_model::{
    PlayerNumber, Probability, UtilityForAllPlayers, VisibleInfo, MAX_PLAYERS, PROBABILITY_ONE,
};
use crate::cfr::strategy_generation::workspace_data::batch_item_data::DataPerBatchItem;
use crate::cfr::strategy_generation::workspace_data::data_for_infoset;
use crate::cfr::strategy_generation::workspace_data::data_for_infoset::InfoSetStatistics;
use crate::cfr::strategy_generation::workspace_data::data_for_known_infosets::DataForKnownInfosets;
use crate::cfr::strategy_generation::workspace_data::data_for_move;
use crate::cfr::strategy_generation::workspace_data::move_data::MoveWithData;
use crate::cfr::strategy_generation::workspace_data::timestamp::Timestamp;

verus! {

/// The slots `after` are the slots `before`, but that a value of generation
/// `timestamp` may have been written where there was none.
pub open spec fn cache_step(
    before: DataPerBatchItem<UtilityForAllPlayers>,
    after: DataPerBatchItem<UtilityForAllPlayers>,
    timestamp: Timestamp,
) -> bool {
    ||| after == before
    ||| {
        &&& !before.spec_ready(timestamp)
        &&& after.is_written(
            before,
            after.data@[timestamp.item_within_iteration as int],
            timestamp,
        )
    }
}

/// A move of an entry that stays pending: nothing changes but that the
/// payoffs after it may have come in.
pub open spec fn move_pending<INFO: VisibleInfo>(
    before: MoveWithData<INFO>,
    after: MoveWithData<INFO>,
    timestamp: Timestamp,
) -> bool {
    &&& after.m == before.m
    &&& after.d.move_selection_probability == before.d.move_selection_probability
    &&& after.d.cumulative_move_regret == before.d.cumulative_move_regret
    &&& cache_step(before.d.utility_after_move, after.d.utility_after_move, timestamp)
}

/// A move of an entry that was completed with the value `value`: the payoffs
/// after it are in, and its regret has grown by what it would have gained
/// over `value`.
pub open spec fn move_completed<INFO: VisibleInfo>(
    before: MoveWithData<INFO>,
    after: MoveWithData<INFO>,
    timestamp: Timestamp,
    turn: PlayerNumber,
    value: UtilityForAllPlayers,
    weight: int,
) -> bool {
    &&& after.m == before.m
    &&& after.d.move_selection_probability == before.d.move_selection_probability
    &&& cache_step(before.d.utility_after_move, after.d.utility_after_move, timestamp)
    &&& after.d.utility_after_move.spec_ready(timestamp)
    &&& after.d.cumulative_move_regret == data_for_move::accumulated_regret(
        before.d.cumulative_move_regret as int,
        after.d.regret_gain(timestamp, turn, value, weight),
    )
}

/// The entry `after` is the entry `before`, still without a value for
/// `timestamp`; payoffs after some of its moves may have come in.
pub open spec fn entry_pending<INFO: VisibleInfo>(
    before: InfoSetStatistics<INFO>,
    after: InfoSetStatistics<INFO>,
    timestamp: Timestamp,
) -> bool {
    &&& after.turn_player == before.turn_player
    &&& after.terminal_utility == before.terminal_utility
    &&& after.counterfactual_n == before.counterfactual_n
    &&& after.cumulative_counterfactual == before.cumulative_counterfactual
    &&& after.counterfactual_for_current_iteration == before.counterfactual_for_current_iteration
    &&& after.global_updated_iteration == before.global_updated_iteration
    &&& after.moves.len() == before.moves.len()
    &&& forall|mi: int|
        0 <= mi < before.moves.len() ==> move_pending(
            before.moves[mi],
            #[trigger] after.moves[mi],
            timestamp,
        )
}

/// The weight with which a completed value enters the running average: the
/// final payoffs of a sampled state are weighted once, when they become its
/// value; any other value is weighted by the probability of the sampled
/// state.
pub open spec fn average_weight<INFO: VisibleInfo>(
    entry: InfoSetStatistics<INFO>,
    gamestate_probability: Probability,
) -> Probability {
    if entry.terminal_utility is Some {
        PROBABILITY_ONE
    } else {
        gamestate_probability
    }
}

/// The entry `after` is the entry `before` with its value for `timestamp`
/// completed.
///
/// Where play has ended, the value is the final payoffs weighted by the
/// probability of the sampled state. Otherwise the payoffs after every move
/// are in, the value is what the strategy is worth over them, and every move
/// has gained its regret. Either way the value has entered the running
/// average, and the entry is marked as completed in this iteration.
pub open spec fn entry_completed<INFO: VisibleInfo>(
    before: InfoSetStatistics<INFO>,
    after: InfoSetStatistics<INFO>,
    timestamp: Timestamp,
    gamestate_probability: Probability,
    weight: int,
) -> bool {
    let value = after.value(timestamp);
    &&& after.turn_player == before.turn_player
    &&& after.terminal_utility == before.terminal_utility
    &&& after.global_updated_iteration == timestamp.cfr_iteration
    &&& after.counterfactual_n == data_for_infoset::visits_after(before.counterfactual_n as int)
    &&& after.counterfactual_for_current_iteration.is_written(
        before.counterfactual_for_current_iteration,
        value,
        timestamp,
    )
    &&& forall|p: int|
        0 <= p < MAX_PLAYERS ==> #[trigger] after.cumulative_counterfactual@[p] == data_for_infoset::average_after(
            before.cumulative_counterfactual@[p] as int,
            before.counterfactual_n as int,
            utility::scaled(value@[p] as int, average_weight(before, gamestate_probability) as int),
        )
    &&& after.moves.len() == before.moves.len()
    &&& match before.terminal_utility {
        Some(u) => value.is_reduction(u, gamestate_probability),
        None => {
            &&& forall|mi: int|
                0 <= mi < before.moves.len() ==> move_completed(
                    before.moves[mi],
                    #[trigger] after.moves[mi],
                    timestamp,
                    before.turn_player,
                    value,
                    weight,
                )
            &&& forall|p: int|
                0 <= p < MAX_PLAYERS ==> #[trigger] value@[p] == data_for_infoset::strategy_value(
                    after.moves,
                    timestamp,
                    p,
                    after.moves.len() as int,
                )
        },
    }
}

/// What the traversal of one sampled state, drawn with probability
/// `gamestate_probability` and handled at `timestamp`, may have done to an
/// entry: nothing, if its value was known already; else it may have
/// completed it, or left it pending.
pub open spec fn entry_step<INFO: VisibleInfo>(
    before: InfoSetStatistics<INFO>,
    after: InfoSetStatistics<INFO>,
    timestamp: Timestamp,
    gamestate_probability: Probability,
    weight: int,
) -> bool {
    if before.spec_is_ready(timestamp) {
        after == before
    } else if after.spec_is_ready(timestamp) {
        entry_completed(before, after, timestamp, gamestate_probability, weight)
    } else {
        entry_pending(before, after, timestamp)
    }
}

/// What holds of slots across any part of a traversal at `timestamp`: only
/// the slot of the timestamp is written, with its generation, and a value
/// of that generation stays as it is.
pub open spec fn slots_monotone(
    before: DataPerBatchItem<UtilityForAllPlayers>,
    after: DataPerBatchItem<UtilityForAllPlayers>,
    timestamp: Timestamp,
) -> bool {
    let slot = timestamp.item_within_iteration as int;
    &&& forall|s: int|
        0 <= s < 4 && s != slot ==> #[trigger] after.updated_iteration_per_work_item@[s]
            == before.updated_iteration_per_work_item@[s]
    &&& {
        ||| after.updated_iteration_per_work_item@[slot]
            == before.updated_iteration_per_work_item@[slot]
        ||| after.updated_iteration_per_work_item@[slot] == timestamp.cfr_iteration
    }
    &&& before.spec_ready(timestamp) ==> after.spec_ready(timestamp) && after.data@[slot]
        == before.data@[slot]
}

/// What holds of a move across any part of a traversal: the move and its
/// probability stay, its regret does not shrink, and what was known of
/// the payoffs after it stays known.
pub open spec fn move_monotone<INFO: VisibleInfo>(
    before: MoveWithData<INFO>,
    after: MoveWithData<INFO>,
    timestamp: Timestamp,
) -> bool {
    &&& after.m == before.m
    &&& after.d.move_selection_probability == before.d.move_selection_probability
    &&& after.d.cumulative_move_regret >= before.d.cumulative_move_regret
    &&& slots_monotone(before.d.utility_after_move, after.d.utility_after_move, timestamp)
}

/// What holds of an entry across any part of a traversal: its shape stays,
/// and what was known for `timestamp` stays known.
pub open spec fn entry_monotone<INFO: VisibleInfo>(
    before: InfoSetStatistics<INFO>,
    after: InfoSetStatistics<INFO>,
    timestamp: Timestamp,
) -> bool {
    &&& after.turn_player == before.turn_player
    &&& after.terminal_utility == before.terminal_utility
    &&& after.moves.len() == before.moves.len()
    &&& slots_monotone(
        before.counterfactual_for_current_iteration,
        after.counterfactual_for_current_iteration,
        timestamp,
    )
    &&& forall|mi: int|
        0 <= mi < before.moves.len() ==> move_monotone(
            before.moves[mi],
            #[trigger] after.moves[mi],
            timestamp,
        )
}

/// Slots after a step are monotone.
pub proof fn lemma_cache_step_monotone(
    before: DataPerBatchItem<UtilityForAllPlayers>,
    after: DataPerBatchItem<UtilityForAllPlayers>,
    timestamp: Timestamp,
)
    requires
        timestamp.wf(),
        cache_step(before, after, timestamp),
    ensures
        slots_monotone(before, after, timestamp),
{
}

pub proof fn lemma_slots_monotone_transitive(
    a: DataPerBatchItem<UtilityForAllPlayers>,
    b: DataPerBatchItem<UtilityForAllPlayers>,
    c: DataPerBatchItem<UtilityForAllPlayers>,
    timestamp: Timestamp,
)
    requires
        timestamp.wf(),
        slots_monotone(a, b, timestamp),
        slots_monotone(b, c, timestamp),
    ensures
        slots_monotone(a, c, timestamp),
{
    let slot = timestamp.item_within_iteration as int;
    assert forall|s: int| 0 <= s < 4 && s != slot implies #[trigger] c.updated_iteration_per_work_item@[s]
        == a.updated_iteration_per_work_item@[s] by {
        assert(b.updated_iteration_per_work_item@[s] == a.updated_iteration_per_work_item@[s]);
    }
}

pub proof fn lemma_cache_step_transitive(
    a: DataPerBatchItem<UtilityForAllPlayers>,
    b: DataPerBatchItem<UtilityForAllPlayers>,
    c: DataPerBatchItem<UtilityForAllPlayers>,
    timestamp: Timestamp,
)
    requires
        timestamp.wf(),
        cache_step(a, b, timestamp),
        cache_step(b, c, timestamp),
    ensures
        cache_step(a, c, timestamp),
        a.spec_ready(timestamp) ==> c == a,
{
}

/// An entry without a value for `timestamp` is a pending step of itself.
pub proof fn lemma_entry_step_reflexive<INFO: VisibleInfo>(
    entry: InfoSetStatistics<INFO>,
    timestamp: Timestamp,
    gamestate_probability: Probability,
    weight: int,
)
    ensures
        entry_step(entry, entry, timestamp, gamestate_probability, weight),
        entry_pending(entry, entry, timestamp),
{
}

/// A step followed by a pending step is a step.
pub proof fn lemma_step_then_pending<INFO: VisibleInfo>(
    base: InfoSetStatistics<INFO>,
    middle: InfoSetStatistics<INFO>,
    after: InfoSetStatistics<INFO>,
    timestamp: Timestamp,
    gamestate_probability: Probability,
    weight: int,
)
    requires
        timestamp.wf(),
        entry_step(base, middle, timestamp, gamestate_probability, weight),
        !middle.spec_is_ready(timestamp),
        entry_pending(middle, after, timestamp),
    ensures
        entry_step(base, after, timestamp, gamestate_probability, weight),
        !after.spec_is_ready(timestamp),
{
    assert(!base.spec_is_ready(timestamp));
    assert(entry_pending(base, middle, timestamp));
    assert forall|mi: int| 0 <= mi < base.moves.len() implies move_pending(
        base.moves[mi],
        #[trigger] after.moves[mi],
        timestamp,
    ) by {
        assert(move_pending(base.moves[mi], middle.moves[mi], timestamp));
        assert(move_pending(middle.moves[mi], after.moves[mi], timestamp));
        lemma_cache_step_transitive(
            base.moves[mi].d.utility_after_move,
            middle.moves[mi].d.utility_after_move,
            after.moves[mi].d.utility_after_move,
            timestamp,
        );
    }
}

/// A step that left the entry pending, followed by its completion, is a
/// step.
pub proof fn lemma_step_then_completed<INFO: VisibleInfo>(
    base: InfoSetStatistics<INFO>,
    middle: InfoSetStatistics<INFO>,
    after: InfoSetStatistics<INFO>,
    timestamp: Timestamp,
    gamestate_probability: Probability,
    weight: int,
)
    requires
        timestamp.wf(),
        entry_step(base, middle, timestamp, gamestate_probability, weight),
        !middle.spec_is_ready(timestamp),
        after.spec_is_ready(timestamp),
        entry_completed(middle, after, timestamp, gamestate_probability, weight),
    ensures
        entry_step(base, after, timestamp, gamestate_probability, weight),
{
    assert(!base.spec_is_ready(timestamp));
    assert(entry_pending(base, middle, timestamp));
    if base.terminal_utility is None {
        assert forall|mi: int| 0 <= mi < base.moves.len() implies move_completed(
            base.moves[mi],
            #[trigger] after.moves[mi],
            timestamp,
            base.turn_player,
            after.value(timestamp),
            weight,
        ) by {
            assert(move_pending(base.moves[mi], middle.moves[mi], timestamp));
            assert(move_completed(
                middle.moves[mi],
                after.moves[mi],
                timestamp,
                middle.turn_player,
                after.value(timestamp),
                weight,
            ));
            lemma_cache_step_transitive(
                base.moves[mi].d.utility_after_move,
                middle.moves[mi].d.utility_after_move,
                after.moves[mi].d.utility_after_move,
                timestamp,
            );
        }
    }
}

/// Across a step, an entry keeps its shape and all that was known for the
/// timestamp, and no regret shrinks.
pub proof fn lemma_step_is_monotone<INFO: VisibleInfo>(
    before: InfoSetStatistics<INFO>,
    after: InfoSetStatistics<INFO>,
    timestamp: Timestamp,
    gamestate_probability: Probability,
    weight: int,
)
    requires
        timestamp.wf(),
        weight >= 0,
        entry_step(before, after, timestamp, gamestate_probability, weight),
        before.wf(),
    ensures
        entry_monotone(before, after, timestamp),
{
    if before.spec_is_ready(timestamp) {
        assert forall|mi: int| 0 <= mi < before.moves.len() implies move_monotone(
            before.moves[mi],
            #[trigger] after.moves[mi],
            timestamp,
        ) by {}
    } else if after.spec_is_ready(timestamp) {
        if before.terminal_utility is None {
            assert forall|mi: int| 0 <= mi < before.moves.len() implies move_monotone(
                before.moves[mi],
                #[trigger] after.moves[mi],
                timestamp,
            ) by {
                assert(move_completed(
                    before.moves[mi],
                    after.moves[mi],
                    timestamp,
                    before.turn_player,
                    after.value(timestamp),
                    weight,
                ));
                assert(before.moves[mi].d.wf());
                let gain = after.moves[mi].d.regret_gain(
                    timestamp,
                    before.turn_player,
                    after.value(timestamp),
                    weight,
                );
                assert(gain >= 0) by (nonlinear_arith)
                    requires
                        weight >= 0,
                        gain == data_for_move::positive_regret(
                            after.moves[mi].d.cached(timestamp).spec_get(before.turn_player as int),
                            after.value(timestamp).spec_get(before.turn_player as int),
                            weight,
                        ),
                ;
                lemma_cache_step_monotone(
                    before.moves[mi].d.utility_after_move,
                    after.moves[mi].d.utility_after_move,
                    timestamp,
                );
            }
        }
    } else {
        assert forall|mi: int| 0 <= mi < before.moves.len() implies move_monotone(
            before.moves[mi],
            #[trigger] after.moves[mi],
            timestamp,
        ) by {
            assert(move_pending(before.moves[mi], after.moves[mi], timestamp));
            lemma_cache_step_monotone(
                before.moves[mi].d.utility_after_move,
                after.moves[mi].d.utility_after_move,
                timestamp,
            );
        }
    }
}

} // verus!

verus! {

/// What the handling of the pending entry at index `d` may do to the table
/// before that entry is completed: entries of successors met for the first
/// time are added, and payoffs after moves of `d` come in. Nothing else
/// changes.
pub open spec fn scan_delta<INFO: VisibleInfo>(
    before: &DataForKnownInfosets<INFO>,
    after: &DataForKnownInfosets<INFO>,
    d: int,
    timestamp: Timestamp,
) -> bool {
    &&& after.extends(before)
    &&& forall|k: INFO| #[trigger]
        after.index().contains_key(k) && !before.index().contains_key(k) ==> after.index()[k]
            >= before.len()
    &&& forall|i: int| 0 <= i < before.len() && i != d ==> #[trigger] after.entry(i) == before.entry(i)
    &&& entry_pending(before.entry(d), after.entry(d), timestamp)
    &&& forall|i: int| before.len() <= i < after.len() ==> (#[trigger] after.entry(i)).fresh()
}

pub proof fn lemma_scan_delta_reflexive<INFO: VisibleInfo>(
    store: &DataForKnownInfosets<INFO>,
    d: int,
    timestamp: Timestamp,
)
    ensures
        scan_delta(store, store, d, timestamp),
{
}

pub proof fn lemma_scan_delta_transitive<INFO: VisibleInfo>(
    a: &DataForKnownInfosets<INFO>,
    b: &DataForKnownInfosets<INFO>,
    c: &DataForKnownInfosets<INFO>,
    d: int,
    timestamp: Timestamp,
)
    requires
        timestamp.wf(),
        0 <= d < a.len(),
        scan_delta(a, b, d, timestamp),
        scan_delta(b, c, d, timestamp),
    ensures
        scan_delta(a, c, d, timestamp),
{
    assert forall|i: int| 0 <= i < a.len() && i != d implies #[trigger] c.entry(i) == a.entry(i) by {
        assert(b.entry(i) == a.entry(i));
        assert(c.entry(i) == b.entry(i));
    }
    assert forall|i: int| a.len() <= i < c.len() implies (#[trigger] c.entry(i)).fresh() by {
        if i < b.len() {
            assert(b.entry(i).fresh());
            assert(c.entry(i) == b.entry(i));
        }
    }
    assert forall|k: INFO| #[trigger]
        c.index().contains_key(k) && !a.index().contains_key(k) implies c.index()[k]
        >= a.len() by {
        if b.index().contains_key(k) {
            assert(b.index()[k] >= a.len());
        }
    }
    let e0 = a.entry(d);
    let e1 = b.entry(d);
    let e2 = c.entry(d);
    assert forall|mi: int| 0 <= mi < e0.moves.len() implies move_pending(
        e0.moves[mi],
        #[trigger] e2.moves[mi],
        timestamp,
    ) by {
        assert(move_pending(e0.moves[mi], e1.moves[mi], timestamp));
        assert(move_pending(e1.moves[mi], e2.moves[mi], timestamp));
        lemma_cache_step_transitive(
            e0.moves[mi].d.utility_after_move,
            e1.moves[mi].d.utility_after_move,
            e2.moves[mi].d.utility_after_move,
            timestamp,
        );
    }
}

} // verus!
