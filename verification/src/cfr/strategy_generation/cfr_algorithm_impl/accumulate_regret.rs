//! The traversal of sampled states: a depth-first evaluation from a stack
//! of its own, sharing the table of information sets.

use vstd::prelude::*;
use crate::cfr::game_model::utility;
use crate::cfr::game_model::{
    GamestateSampler, OracleGamestate, Probability, RandomGamestateIterator, UtilityForAllPlayers,
    VisibleInfo, MAX_PLAYERS, MAX_UTILITY, PROBABILITY_ONE,
};
use crate::cfr::strategy_generation::config::SolverConfig;
use crate::cfr::strategy_generation::cfr_algorithm_impl::iteration_relation;
use crate::cfr::strategy_generation::cfr_algorithm_impl::step_relation;
use crate::cfr::strategy_generation::cfr_algorithm_impl::termination;
use crate::cfr::strategy_generation::cfr_algorithm_impl::traversal_invariant;
use crate::cfr::strategy_generation::workspace_data::data_for_infoset;
use crate::cfr::strategy_generation::workspace_data::data_for_infoset::InfoSetStatistics;
use crate::cfr::strategy_generation::workspace_data::data_for_known_infosets::DataForKnownInfosets;
use crate::cfr::strategy_generation::workspace_data::data_for_move::DataForMove;
use crate::cfr::strategy_generation::workspace_data::move_data;
use crate::cfr::strategy_generation::workspace_data::move_data::MoveWithData;
use crate::cfr::strategy_generation::workspace_data::timestamp::Timestamp;
use crate::cfr::strategy_generation::workspace_data::{
    StrategyGenerationProgress, ThreadLocalWorkStack,
};

verus! {

/// Every payoff of `utility`, in billionths, lies within `MAX_UTILITY`
/// times the probability mass `share`.
pub open spec fn within_share(utility: UtilityForAllPlayers, share: int) -> bool {
    forall|p: int|
        0 <= p < MAX_PLAYERS ==> -(MAX_UTILITY * share) <= (#[trigger] utility@[p])
            * PROBABILITY_ONE <= MAX_UTILITY * share
}

/// Whether the payoffs after move `mi` of the entry at `d`, reached in the
/// state `g`, can be told for `timestamp` without further traversal: they
/// are kept with the move already, or the successor's value is known.
pub open spec fn move_resolvable<INFO: VisibleInfo, G: OracleGamestate<INFO>>(
    store: &DataForKnownInfosets<INFO>,
    timestamp: Timestamp,
    d: int,
    mi: int,
    g: G,
) -> bool {
    let mv = store.entry(d).moves[mi];
    let child = g.spec_advance(mv.m).spec_info();
    ||| mv.d.utility_after_move.spec_ready(timestamp)
    ||| (store.index().contains_key(child) && store.entry(
        store.index()[child] as int,
    ).spec_is_ready(timestamp))
}

/// Where the payoffs after move `mi` of the entry at `d` have come in
/// between `before` and `after`, the state `g` accounts for them.
pub open spec fn newly_explained<INFO: VisibleInfo, G: OracleGamestate<INFO>>(
    before: &DataForKnownInfosets<INFO>,
    after: &DataForKnownInfosets<INFO>,
    timestamp: Timestamp,
    d: int,
    mi: int,
    g: G,
) -> bool {
    after.entry(d).moves[mi].d.utility_after_move.spec_ready(timestamp) && !before.entry(
        d,
    ).moves[mi].d.utility_after_move.spec_ready(timestamp) ==> traversal_invariant::explains(
        after,
        timestamp,
        d,
        mi,
        g,
    )
}

/// The probabilities of the first `k` moves add up to no more than those
/// of the first `n`.
pub proof fn lemma_probability_sum_monotone<INFO: VisibleInfo>(
    moves: Seq<MoveWithData<INFO>>,
    k: int,
    n: int,
)
    requires
        move_data::all_wf(moves),
        0 <= k <= n <= moves.len(),
    ensures
        0 <= data_for_infoset::probability_sum(moves, k) <= data_for_infoset::probability_sum(moves, n),
    decreases n,
{
    if n > 0 {
        assert(moves[n - 1].d.wf());
        assert(moves[n - 1].d.spec_probability(moves.len() as int) >= 0) by {
            let len = moves.len() as int;
            assert(PROBABILITY_ONE as int / len >= 0) by (nonlinear_arith)
                requires
                    len > 0,
            ;
        }
        if k < n {
            lemma_probability_sum_monotone(moves, k, n - 1);
        } else {
            lemma_probability_sum_monotone(moves, k - 1, n - 1);
        }
    }
}

/// The sum of the first `k` probabilities depends on those probabilities
/// alone.
pub proof fn lemma_probability_sum_same<INFO: VisibleInfo>(
    a: Seq<MoveWithData<INFO>>,
    b: Seq<MoveWithData<INFO>>,
    k: int,
)
    requires
        a.len() == b.len(),
        0 <= k <= a.len(),
        forall|mi: int|
            0 <= mi < k ==> (#[trigger] b[mi]).d.move_selection_probability
                == a[mi].d.move_selection_probability,
    ensures
        data_for_infoset::probability_sum(a, k) == data_for_infoset::probability_sum(b, k),
    decreases k,
{
    if k > 0 {
        lemma_probability_sum_same(a, b, k - 1);
        assert(b[k - 1].d.move_selection_probability == a[k - 1].d.move_selection_probability);
    }
}

/// What the strategy is worth over the first `k` moves depends on their
/// probabilities and the payoffs kept with them alone.
pub proof fn lemma_strategy_value_same<INFO: VisibleInfo>(
    a: Seq<MoveWithData<INFO>>,
    b: Seq<MoveWithData<INFO>>,
    timestamp: Timestamp,
    p: int,
    k: int,
)
    requires
        a.len() == b.len(),
        0 <= k <= a.len(),
        forall|mi: int|
            0 <= mi < k ==> {
                &&& (#[trigger] b[mi]).d.move_selection_probability
                    == a[mi].d.move_selection_probability
                &&& b[mi].d.cached(timestamp) == a[mi].d.cached(timestamp)
            },
    ensures
        data_for_infoset::strategy_value(a, timestamp, p, k) == data_for_infoset::strategy_value(b, timestamp, p, k),
    decreases k,
{
    if k > 0 {
        lemma_strategy_value_same(a, b, timestamp, p, k - 1);
        assert(b[k - 1].d.move_selection_probability == a[k - 1].d.move_selection_probability);
    }
}

/// Settles what follows one move of a pending entry.
///
/// Where the payoffs after move `mi` of the entry at `index` are kept for
/// `timestamp`, or the value of the successor is known, they are added to
/// `strategy_util`, weighted by the probability of the move, and kept with
/// the move. Otherwise the successor is pushed on `workstack` and
/// `complete` is cleared.
pub fn update_strategy_utility_for_move<INFO: VisibleInfo, G: OracleGamestate<INFO>>(
    progress: &mut StrategyGenerationProgress<INFO>,
    workstack: &mut ThreadLocalWorkStack<G>,
    timestamp: Timestamp,
    gamestate_before_move: &G,
    n_moves: usize,
    index: usize,
    mi: usize,
    strategy_util: &mut UtilityForAllPlayers,
    complete: &mut bool,
)
    requires
        old(progress).wf(),
        timestamp.wf(),
        index < old(progress).len(),
        old(progress).data_for_known_infosets.entry(index as int).terminal_utility is None,
        !old(progress).data_for_known_infosets.entry(index as int).spec_is_ready(timestamp),
        mi < old(progress).data_for_known_infosets.entry(index as int).moves.len(),
        n_moves == old(progress).data_for_known_infosets.entry(index as int).moves.len(),
        gamestate_before_move.valid(),
        old(progress).data_for_known_infosets.index().contains_key(
            gamestate_before_move.spec_info(),
        ),
        old(progress).data_for_known_infosets.index()[gamestate_before_move.spec_info()] == index,
        within_share(
            *old(strategy_util),
            data_for_infoset::probability_sum(
                old(progress).data_for_known_infosets.entry(index as int).moves,
                mi as int,
            ),
        ),
    ensures
        final(progress).wf(),
        final(progress).dirty() == old(progress).dirty(),
        step_relation::scan_delta(
            &old(progress).data_for_known_infosets,
            &final(progress).data_for_known_infosets,
            index as int,
            timestamp,
        ),
        forall|mj: int|
            0 <= mj < n_moves && mj != mi ==> #[trigger] final(progress).data_for_known_infosets.entry(index as int).moves[mj] == old(progress).data_for_known_infosets.entry(index as int).moves[mj],
        within_share(
            *final(strategy_util),
            data_for_infoset::probability_sum(
                final(progress).data_for_known_infosets.entry(index as int).moves,
                mi + 1,
            ),
        ),
        final(progress).data_for_known_infosets.entry(
            index as int,
        ).moves[mi as int].d.utility_after_move.spec_ready(timestamp) <==> move_resolvable(
            &old(progress).data_for_known_infosets,
            timestamp,
            index as int,
            mi as int,
            *gamestate_before_move,
        ),
        newly_explained(
            &old(progress).data_for_known_infosets,
            &final(progress).data_for_known_infosets,
            timestamp,
            index as int,
            mi as int,
            *gamestate_before_move,
        ),
        final(progress).data_for_known_infosets.entry(
            index as int,
        ).moves[mi as int].d.utility_after_move.spec_ready(timestamp) ==> {
            &&& final(workstack).stack@ == old(workstack).stack@
            &&& *final(complete) == *old(complete)
            &&& final(strategy_util).is_accumulation(
                *old(strategy_util),
                final(progress).data_for_known_infosets.entry(
                    index as int,
                ).moves[mi as int].d.cached(timestamp),
                final(progress).data_for_known_infosets.entry(
                    index as int,
                ).moves[mi as int].d.spec_probability(n_moves as int) as u64,
            )
        },
        !final(progress).data_for_known_infosets.entry(
            index as int,
        ).moves[mi as int].d.utility_after_move.spec_ready(timestamp) ==> {
            let child = gamestate_before_move.spec_advance(
                old(progress).data_for_known_infosets.entry(index as int).moves[mi as int].m,
            );
            &&& !*final(complete)
            &&& *final(strategy_util) == *old(strategy_util)
            &&& final(workstack).stack@.len() == old(workstack).stack@.len() + 1
            &&& final(workstack).stack@.drop_last() == old(workstack).stack@
            &&& final(workstack).stack@.last().1 == child
            &&& child.valid()
            &&& child.remaining() < gamestate_before_move.remaining()
            &&& final(progress).data_for_known_infosets.index().contains_key(child.spec_info())
            &&& final(progress).data_for_known_infosets.index()[child.spec_info()] == final(workstack).stack@.last().0
            &&& !final(progress).data_for_known_infosets.entry(
                final(workstack).stack@.last().0 as int,
            ).spec_is_ready(timestamp)
        },
{
    let ghost store0 = progress.data_for_known_infosets;
    let ghost e0 = store0.entry(index as int);
    let ghost su0 = *strategy_util;
    proof {
        assert(e0.wf());
        assert(e0.moves[mi as int].d.wf());
        assert(store0.entry(store0.index()[gamestate_before_move.spec_info()] as int).describes(
            gamestate_before_move.spec_info(),
        ));
        lemma_probability_sum_monotone(e0.moves, mi as int, mi + 1);
        lemma_probability_sum_monotone(e0.moves, mi + 1, e0.moves.len() as int);
    }
    let move_probability =
        progress.data_for_known_infosets.arena[index].move_data[mi].d.load_move_probability(n_moves);
    let cached = match progress.data_for_known_infosets.arena[index].move_data[mi].d.utility_after_move.get(
        timestamp,
    ) {
        Some(util) => Some(*util),
        None => None,
    };
    if let Some(util) = cached {
        proof {
            assert(util == e0.moves[mi as int].d.cached(timestamp));
            assert(util.bounded());
            lemma_accumulate_within_share(su0, util, move_probability, data_for_infoset::probability_sum(e0.moves, mi as int));
        }
        strategy_util.accumulate(&util, move_probability);
        proof {
            lemma_accumulated_within_share(
                su0,
                *strategy_util,
                util,
                move_probability,
                data_for_infoset::probability_sum(e0.moves, mi as int),
            );
        }
        return ;
    }
    let m = progress.data_for_known_infosets.arena[index].move_data[mi].m;
    proof {
        assert(move_data::moves_of(e0.moves)[mi as int]
            == m);
        assert(gamestate_before_move.spec_info().legal_moves()[mi as int] == m);
        assert(gamestate_before_move.spec_info().legal_moves().contains(m));
    }
    let (data_after_move, state_after_move) = DataForMove::get_post_move_infoset(
        progress,
        gamestate_before_move,
        &m,
    );
    let ghost store1 = progress.data_for_known_infosets;
    proof {
        assert forall|i: int| 0 <= i < store0.len() implies #[trigger] store1.entry(i)
            == store0.entry(i) by {
            assert(store1.arena@[i] == store0.arena@[i]);
        }
        assert(store1.entry(index as int) == e0);
    }
    let utility_after_move =
        progress.data_for_known_infosets.arena[data_after_move].get_iteration_utility_if_ready(
        timestamp,
    );
    match utility_after_move {
        Some(utility_after_move) => {
            proof {
                assert(store1.entry(data_after_move as int).wf());
                assert(utility_after_move.bounded());
                lemma_accumulate_within_share(
                    su0,
                    utility_after_move,
                    move_probability,
                    data_for_infoset::probability_sum(e0.moves, mi as int),
                );
            }
            strategy_util.accumulate(&utility_after_move, move_probability);
            progress.data_for_known_infosets.arena[index].move_data[mi].d.utility_after_move.set(
                utility_after_move,
                timestamp,
            );
            proof {
                let store2 = progress.data_for_known_infosets;
                let e2 = store2.entry(index as int);
                lemma_accumulated_within_share(
                    su0,
                    *strategy_util,
                    utility_after_move,
                    move_probability,
                    data_for_infoset::probability_sum(e0.moves, mi as int),
                );
                assert forall|mj: int| 0 <= mj < e0.moves.len() implies step_relation::move_pending(
                    e0.moves[mj],
                    #[trigger] e2.moves[mj],
                    timestamp,
                ) by {
                    if mj != mi {
                        assert(e2.moves[mj] == e0.moves[mj]);
                    }
                }
                lemma_probability_sum_same(e0.moves, e2.moves, mi + 1);
                lemma_store_wf_after_pending(&store1, &store2, index as int, timestamp);
                assert forall|i: int| 0 <= i < store0.len() && i
                    != index implies #[trigger] store2.entry(i) == store0.entry(i) by {
                    assert(store2.arena@[i] == store1.arena@[i]);
                    assert(store1.entry(i) == store0.entry(i));
                }
                assert forall|i: int| store0.len() <= i < store2.len() implies (
                #[trigger] store2.entry(i)).fresh() by {
                    assert(store2.arena@[i] == store1.arena@[i]);
                }
                let c = data_after_move as int;
                assert(c != index);
                assert(store2.arena@[c] == store1.arena@[c]);
                assert(store2.entry(c) == store1.entry(c));
                assert(e2.moves[mi as int].m == e0.moves[mi as int].m) by {
                    assert(step_relation::move_pending(
                        e0.moves[mi as int],
                        e2.moves[mi as int],
                        timestamp,
                    ));
                }
                assert(traversal_invariant::explains(
                    &store2,
                    timestamp,
                    index as int,
                    mi as int,
                    *gamestate_before_move,
                ));
            }
        },
        None => {
            *complete = false;
            workstack.push(data_after_move, state_after_move);
            proof {
                assert(workstack.stack@.drop_last() =~= old(workstack).stack@);
                lemma_probability_sum_monotone(e0.moves, mi as int, mi + 1);
            }
        },
    }
}

/// Adding a payoff within bounds, weighted by the probability of a move,
/// to a sum within the share of the moves before it does not overflow.
pub proof fn lemma_accumulate_within_share(
    sum: UtilityForAllPlayers,
    addend: UtilityForAllPlayers,
    probability: Probability,
    share: int,
)
    requires
        within_share(sum, share),
        addend.bounded(),
        0 <= share,
        share + probability <= PROBABILITY_ONE,
    ensures
        forall|i: int|
            0 <= i < MAX_PLAYERS ==> i64::MIN <= (#[trigger] sum@[i]) + utility::scaled(
                addend@[i] as int,
                probability as int,
            ) <= i64::MAX,
{
    assert forall|i: int| 0 <= i < MAX_PLAYERS implies i64::MIN <= (#[trigger] sum@[i]) + utility::scaled(
        addend@[i] as int,
        probability as int,
    ) <= i64::MAX by {
        utility::lemma_scaled_bound(addend@[i] as int, probability as int, MAX_UTILITY as int);
    }
}

/// A sum within the share of the moves before a move stays within the share
/// that includes the move once its weighted payoff is added.
pub proof fn lemma_accumulated_within_share(
    before: UtilityForAllPlayers,
    after: UtilityForAllPlayers,
    addend: UtilityForAllPlayers,
    probability: Probability,
    share: int,
)
    requires
        within_share(before, share),
        addend.bounded(),
        probability <= PROBABILITY_ONE,
        after.is_accumulation(before, addend, probability),
    ensures
        within_share(after, share + probability),
{
    assert forall|p: int| 0 <= p < MAX_PLAYERS implies -(MAX_UTILITY * (share + probability)) <= (
    #[trigger] after@[p]) * PROBABILITY_ONE <= MAX_UTILITY * (share + probability) by {
        utility::lemma_scaled_bound(addend@[p] as int, probability as int, MAX_UTILITY as int);
        assert(after@[p] == before@[p] + utility::scaled(addend@[p] as int, probability as int));
    }
}

/// A table stays well-formed when payoffs come in for moves of one pending
/// entry.
pub proof fn lemma_store_wf_after_pending<INFO: VisibleInfo>(
    before: &DataForKnownInfosets<INFO>,
    after: &DataForKnownInfosets<INFO>,
    d: int,
    timestamp: Timestamp,
)
    requires
        before.wf(),
        timestamp.wf(),
        0 <= d < before.len(),
        after.len() == before.len(),
        after.infoset_data == before.infoset_data,
        forall|i: int| 0 <= i < before.len() && i != d ==> #[trigger] after.entry(i) == before.entry(i),
        step_relation::entry_pending(before.entry(d), after.entry(d), timestamp),
        forall|mi: int|
            0 <= mi < after.entry(d).moves.len() ==> (#[trigger] after.entry(d).moves[mi]).d.cached(
                timestamp,
            ).bounded(),
    ensures
        after.wf(),
{
    let e0 = before.entry(d);
    let e1 = after.entry(d);
    assert(e0.wf());
    assert forall|mi: int| 0 <= mi < e1.moves.len() implies (#[trigger] e1.moves[mi]).d.wf() by {
        assert(step_relation::move_pending(e0.moves[mi], e1.moves[mi], timestamp));
        assert(e0.moves[mi].d.wf());
        assert forall|s: int| 0 <= s < 4 implies (
        #[trigger] e1.moves[mi].d.utility_after_move.data@[s]).bounded() by {
            if s != timestamp.item_within_iteration {
                assert(e0.moves[mi].d.utility_after_move.data@[s].bounded());
            }
        }
    }
    lemma_probability_sum_same(e0.moves, e1.moves, e0.moves.len() as int);
    assert(move_data::moves_of(e1.moves)
        =~= move_data::moves_of(e0.moves));
    assert(e1.wf());
    assert forall|i: int| 0 <= i < after.len() implies (#[trigger] after.entry(i)).wf() by {
        if i != d {
            assert(after.entry(i) == before.entry(i));
        }
    }
    assert forall|k: INFO| #[trigger] after.index().contains_key(k) implies {
        &&& k.valid()
        &&& after.index()[k] < after.len()
        &&& after.entry(after.index()[k] as int).describes(k)
    } by {
        let i = after.index()[k] as int;
        assert(before.entry(i).describes(k));
        if i != d {
            assert(after.entry(i) == before.entry(i));
        }
    }
}

/// A table stays well-formed when one entry is replaced by a well-formed
/// entry of the same shape.
pub proof fn lemma_store_wf_after_update<INFO: VisibleInfo>(
    before: &DataForKnownInfosets<INFO>,
    after: &DataForKnownInfosets<INFO>,
    d: int,
)
    requires
        before.wf(),
        0 <= d < before.len(),
        after.len() == before.len(),
        after.infoset_data == before.infoset_data,
        forall|i: int| 0 <= i < before.len() && i != d ==> #[trigger] after.entry(i) == before.entry(i),
        after.entry(d).wf(),
        after.entry(d).turn_player == before.entry(d).turn_player,
        after.entry(d).terminal_utility == before.entry(d).terminal_utility,
        move_data::moves_of(after.entry(d).moves)
            == move_data::moves_of(
            before.entry(d).moves,
        ),
    ensures
        after.wf(),
{
    assert forall|i: int| 0 <= i < after.len() implies (#[trigger] after.entry(i)).wf() by {
        if i != d {
            assert(after.entry(i) == before.entry(i));
        }
    }
    assert forall|k: INFO| #[trigger] after.index().contains_key(k) implies {
        &&& k.valid()
        &&& after.index()[k] < after.len()
        &&& after.entry(after.index()[k] as int).describes(k)
    } by {
        let i = after.index()[k] as int;
        assert(before.entry(i).describes(k));
        if i != d {
            assert(after.entry(i) == before.entry(i));
        }
    }
}

/// Settles what follows every move of the pending entry at `index`,
/// reached in the state `gamestate`.
///
/// Returns what the strategy is worth over the payoffs after all moves, and
/// whether those payoffs could all be told. The successors whose value is
/// still unknown are pushed on `workstack`, in the order of their moves.
pub fn resolve_moves<INFO: VisibleInfo, G: OracleGamestate<INFO>>(
    progress: &mut StrategyGenerationProgress<INFO>,
    workstack: &mut ThreadLocalWorkStack<G>,
    timestamp: Timestamp,
    gamestate: &G,
    index: usize,
) -> (result: (UtilityForAllPlayers, bool))
    requires
        old(progress).wf(),
        timestamp.wf(),
        index < old(progress).len(),
        old(progress).data_for_known_infosets.entry(index as int).terminal_utility is None,
        !old(progress).data_for_known_infosets.entry(index as int).spec_is_ready(timestamp),
        gamestate.valid(),
        old(progress).data_for_known_infosets.index().contains_key(gamestate.spec_info()),
        old(progress).data_for_known_infosets.index()[gamestate.spec_info()] == index,
    ensures
        final(progress).wf(),
        final(progress).dirty() == old(progress).dirty(),
        step_relation::scan_delta(
            &old(progress).data_for_known_infosets,
            &final(progress).data_for_known_infosets,
            index as int,
            timestamp,
        ),
        scan_result(
            &old(progress).data_for_known_infosets,
            &final(progress).data_for_known_infosets,
            old(workstack).stack@,
            final(workstack).stack@,
            timestamp,
            *gamestate,
            index as int,
            result.0,
            result.1,
        ),
{
    let ghost store0 = progress.data_for_known_infosets;
    let ghost stack0 = workstack.stack@;
    let ghost e0 = store0.entry(index as int);
    let n_moves = progress.data_for_known_infosets.arena[index].move_count();
    let mut strategy_util = UtilityForAllPlayers::default();
    let mut complete = true;
    let mut mi: usize = 0;
    proof {
        assert(e0.wf());
        assert(e0.describes(gamestate.spec_info()));
        step_relation::lemma_scan_delta_reflexive(&store0, index as int, timestamp);
        assert(workstack.stack@.subrange(0, stack0.len() as int) =~= stack0);
        assert(workstack.stack@.subrange(stack0.len() as int, stack0.len() as int)
            =~= Seq::<(usize, G)>::empty());
    }
    while mi < n_moves
        invariant
            mi <= n_moves,
            progress.wf(),
            timestamp.wf(),
            store0.wf(),
            index < store0.len(),
            gamestate.valid(),
            store0.index().contains_key(gamestate.spec_info()),
            store0.index()[gamestate.spec_info()] == index,
            e0 == store0.entry(index as int),
            e0.terminal_utility is None,
            !e0.spec_is_ready(timestamp),
            n_moves == e0.moves.len(),
            progress.dirty() == old(progress).dirty(),
            step_relation::scan_delta(&store0, &progress.data_for_known_infosets, index as int, timestamp),
            forall|mj: int|
                mi <= mj < n_moves ==> #[trigger] progress.data_for_known_infosets.entry(
                    index as int,
                ).moves[mj] == e0.moves[mj],
            within_share(
                strategy_util,
                data_for_infoset::probability_sum(progress.data_for_known_infosets.entry(index as int).moves, mi as int),
            ),
            scan_progress(
                &store0,
                &progress.data_for_known_infosets,
                stack0,
                workstack.stack@,
                timestamp,
                *gamestate,
                index as int,
                strategy_util,
                complete,
                mi as int,
            ),
        decreases n_moves - mi,
    {
        let ghost store_k = progress.data_for_known_infosets;
        let ghost stack_k = workstack.stack@;
        let ghost su_k = strategy_util;
        let ghost complete_k = complete;
        proof {
            assert(store_k.entry(index as int).moves[mi as int] == e0.moves[mi as int]);
        }
        update_strategy_utility_for_move(
            progress,
            workstack,
            timestamp,
            gamestate,
            n_moves,
            index,
            mi,
            &mut strategy_util,
            &mut complete,
        );
        proof {
            let store_n = progress.data_for_known_infosets;
            step_relation::lemma_scan_delta_transitive(&store0, &store_k, &store_n, index as int, timestamp);
            lemma_scan_progress_step(
                &store0,
                &store_k,
                &store_n,
                stack0,
                stack_k,
                workstack.stack@,
                timestamp,
                *gamestate,
                index as int,
                su_k,
                strategy_util,
                complete_k,
                complete,
                mi as int,
            );
            assert forall|mj: int| mi + 1 <= mj < n_moves implies #[trigger] store_n.entry(
                index as int,
            ).moves[mj] == e0.moves[mj] by {
                assert(store_n.entry(index as int).moves[mj] == store_k.entry(index as int).moves[mj]);
            }
        }
        mi += 1;
    }
    proof {
        let store_n = progress.data_for_known_infosets;
        let en = store_n.entry(index as int);
        assert(en.wf());
        if complete {
            assert forall|p: int| 0 <= p < MAX_PLAYERS implies -MAX_UTILITY <= #[trigger] strategy_util@[p]
                <= MAX_UTILITY by {
                assert(-(MAX_UTILITY * data_for_infoset::probability_sum(en.moves, n_moves as int)) <= strategy_util@[p]
                    * PROBABILITY_ONE <= MAX_UTILITY * data_for_infoset::probability_sum(en.moves, n_moves as int));
            }
        }
    }
    (strategy_util, complete)
}

/// What has been settled once the first `k` moves of the entry at `d` have
/// been handled: whether all of them could be told, what the strategy is
/// worth over them if so, and which successors were pushed.
pub open spec fn scan_progress<INFO: VisibleInfo, G: OracleGamestate<INFO>>(
    before: &DataForKnownInfosets<INFO>,
    after: &DataForKnownInfosets<INFO>,
    stack_before: Seq<(usize, G)>,
    stack_after: Seq<(usize, G)>,
    timestamp: Timestamp,
    g: G,
    d: int,
    strategy_util: UtilityForAllPlayers,
    complete: bool,
    k: int,
) -> bool {
    let pushed = stack_after.subrange(stack_before.len() as int, stack_after.len() as int);
    let moves = after.entry(d).moves;
    &&& stack_before.len() <= stack_after.len()
    &&& stack_after.subrange(0, stack_before.len() as int) == stack_before
    &&& complete <==> stack_after.len() == stack_before.len()
    &&& complete <==> forall|mi: int| 0 <= mi < k ==> move_resolvable(before, timestamp, d, mi, g)
    &&& complete ==> {
        &&& forall|mi: int|
            0 <= mi < k ==> (#[trigger] moves[mi]).d.utility_after_move.spec_ready(timestamp)
        &&& forall|p: int|
            0 <= p < MAX_PLAYERS ==> #[trigger] strategy_util@[p] == data_for_infoset::strategy_value(
                moves,
                timestamp,
                p,
                k,
            )
    }
    &&& forall|j: int|
        0 <= j < pushed.len() ==> {
            &&& (#[trigger] pushed[j]).1.valid()
            &&& after.index().contains_key(pushed[j].1.spec_info())
            &&& after.index()[pushed[j].1.spec_info()] == pushed[j].0
            &&& !after.entry(pushed[j].0 as int).spec_is_ready(timestamp)
        }
    &&& termination::pending_weight::<INFO, G>(
        pushed,
    ) <= 2 * termination::children_cost::<INFO, G>(g, k)
    &&& forall|mi: int|
        0 <= mi < k ==> traversal_invariant::move_covered(after, pushed, timestamp, d, mi, g)
    &&& forall|mi: int| 0 <= mi < k ==> #[trigger] newly_explained(before, after, timestamp, d, mi, g)
}

/// What `resolve_moves` has settled when it returns.
pub open spec fn scan_result<INFO: VisibleInfo, G: OracleGamestate<INFO>>(
    before: &DataForKnownInfosets<INFO>,
    after: &DataForKnownInfosets<INFO>,
    stack_before: Seq<(usize, G)>,
    stack_after: Seq<(usize, G)>,
    timestamp: Timestamp,
    g: G,
    d: int,
    strategy_util: UtilityForAllPlayers,
    complete: bool,
) -> bool {
    &&& scan_progress(
        before,
        after,
        stack_before,
        stack_after,
        timestamp,
        g,
        d,
        strategy_util,
        complete,
        after.entry(d).moves.len() as int,
    )
    &&& complete ==> strategy_util.bounded()
}

/// Handling one more move keeps what `scan_progress` tells of the moves
/// handled so far.
pub proof fn lemma_scan_progress_step<INFO: VisibleInfo, G: OracleGamestate<INFO>>(
    store0: &DataForKnownInfosets<INFO>,
    store_k: &DataForKnownInfosets<INFO>,
    store_n: &DataForKnownInfosets<INFO>,
    stack0: Seq<(usize, G)>,
    stack_k: Seq<(usize, G)>,
    stack_n: Seq<(usize, G)>,
    timestamp: Timestamp,
    g: G,
    d: int,
    su_k: UtilityForAllPlayers,
    su_n: UtilityForAllPlayers,
    complete_k: bool,
    complete_n: bool,
    k: int,
)
    requires
        timestamp.wf(),
        store0.wf(),
        store_k.wf(),
        store_n.wf(),
        g.valid(),
        0 <= d < store0.len(),
        store0.index().contains_key(g.spec_info()),
        store0.index()[g.spec_info()] == d,
        store0.entry(d).terminal_utility is None,
        !store0.entry(d).spec_is_ready(timestamp),
        0 <= k < store0.entry(d).moves.len(),
        step_relation::scan_delta(store0, store_k, d, timestamp),
        step_relation::scan_delta(store_k, store_n, d, timestamp),
        scan_progress(store0, store_k, stack0, stack_k, timestamp, g, d, su_k, complete_k, k),
        store_k.entry(d).moves[k] == store0.entry(d).moves[k],
        forall|mj: int|
            0 <= mj < store0.entry(d).moves.len() && mj != k ==> #[trigger] store_n.entry(d).moves[mj]
                == store_k.entry(d).moves[mj],
        store_n.entry(d).moves[k].d.utility_after_move.spec_ready(timestamp) <==> move_resolvable(
            store_k,
            timestamp,
            d,
            k,
            g,
        ),
        newly_explained(store_k, store_n, timestamp, d, k, g),
        store_n.entry(d).moves[k].d.utility_after_move.spec_ready(timestamp) ==> {
            &&& stack_n == stack_k
            &&& complete_n == complete_k
            &&& su_n.is_accumulation(
                su_k,
                store_n.entry(d).moves[k].d.cached(timestamp),
                store_n.entry(d).moves[k].d.spec_probability(
                    store0.entry(d).moves.len() as int,
                ) as u64,
            )
        },
        !store_n.entry(d).moves[k].d.utility_after_move.spec_ready(timestamp) ==> {
            let child = g.spec_advance(store_k.entry(d).moves[k].m);
            &&& !complete_n
            &&& su_n == su_k
            &&& stack_n.len() == stack_k.len() + 1
            &&& stack_n.drop_last() == stack_k
            &&& stack_n.last().1 == child
            &&& child.valid()
            &&& child.remaining() < g.remaining()
            &&& store_n.index().contains_key(child.spec_info())
            &&& store_n.index()[child.spec_info()] == stack_n.last().0
            &&& !store_n.entry(stack_n.last().0 as int).spec_is_ready(timestamp)
        },
    ensures
        scan_progress(store0, store_n, stack0, stack_n, timestamp, g, d, su_n, complete_n, k + 1),
{
    let e0 = store0.entry(d);
    let ek = store_k.entry(d);
    let en = store_n.entry(d);
    let n_moves = e0.moves.len() as int;
    let pushed_k = stack_k.subrange(stack0.len() as int, stack_k.len() as int);
    let pushed_n = stack_n.subrange(stack0.len() as int, stack_n.len() as int);
    let resolved = en.moves[k].d.utility_after_move.spec_ready(timestamp);
    let child = g.spec_advance(e0.moves[k].m);
    assert(e0.wf());
    assert(ek.wf());
    assert(en.wf());
    assert(e0.describes(g.spec_info()));
    assert(move_data::moves_of(e0.moves)[k]
        == e0.moves[k].m);
    assert(g.spec_info().legal_moves()[k] == e0.moves[k].m);
    assert(en.moves.len() == n_moves && ek.moves.len() == n_moves);
    // the decision is the same whether taken on the table as it was when
    // the scan began or as it is now
    assert(move_resolvable(store_k, timestamp, d, k, g) <==> move_resolvable(
        store0,
        timestamp,
        d,
        k,
        g,
    )) by {
        let ci = child.spec_info();
        if store0.index().contains_key(ci) {
            let i = store0.index()[ci] as int;
            assert(store_k.index().contains_key(ci) && store_k.index()[ci] == i);
            if i != d {
                assert(store_k.entry(i) == store0.entry(i));
            }
        } else if store_k.index().contains_key(ci) {
            let i = store_k.index()[ci] as int;
            assert(i >= store0.len());
            assert(store_k.entry(i).fresh());
        }
    }
    if resolved {
        assert(pushed_n =~= pushed_k);
    } else {
        assert(stack_k =~= stack_n.subrange(0, stack_k.len() as int));
        assert(pushed_n =~= pushed_k.push(stack_n.last()));
        assert(pushed_n.drop_last() =~= pushed_k);
        assert(stack_n.subrange(0, stack0.len() as int) =~= stack_k.subrange(0, stack0.len() as int));
    }
    assert forall|j: int| 0 <= j < pushed_n.len() implies {
        &&& (#[trigger] pushed_n[j]).1.valid()
        &&& store_n.index().contains_key(pushed_n[j].1.spec_info())
        &&& store_n.index()[pushed_n[j].1.spec_info()] == pushed_n[j].0
        &&& !store_n.entry(pushed_n[j].0 as int).spec_is_ready(timestamp)
    } by {
        if j < pushed_k.len() {
            assert(pushed_n[j] == pushed_k[j]);
            let i = pushed_k[j].0 as int;
            assert(store_k.index().contains_key(pushed_k[j].1.spec_info()));
            assert(i < store_k.len());
            if i != d {
                assert(store_n.entry(i) == store_k.entry(i));
            }
        }
    }
    // the cost of what was pushed
    assert(g.spec_info().terminal_utility() is None);
    assert(g.spec_info().legal_moves().len() == n_moves);
    termination::lemma_children_cost_next::<INFO, G>(g, k);
    // the moves handled before are covered as they were
    assert forall|mi: int| 0 <= mi < k + 1 implies traversal_invariant::move_covered(
        store_n,
        pushed_n,
        timestamp,
        d,
        mi,
        g,
    ) by {
        if mi < k {
            assert(traversal_invariant::move_covered(store_k, pushed_k, timestamp, d, mi, g));
            assert(en.moves[mi] == ek.moves[mi]);
            let c = g.spec_advance(ek.moves[mi].m).spec_info();
            if !ek.moves[mi].d.utility_after_move.spec_ready(timestamp) {
                let j = choose|j: int|
                    0 <= j < pushed_k.len() && (#[trigger] pushed_k[j]).0 == store_k.index()[c];
                assert(pushed_n[j] == pushed_k[j]);
                assert(store_n.index().contains_key(c) && store_n.index()[c] == store_k.index()[c]);
            }
        } else {
            assert(en.moves[k].m == e0.moves[k].m) by {
                assert(step_relation::move_pending(ek.moves[k], en.moves[k], timestamp));
            }
            if !resolved {
                let j = pushed_n.len() - 1;
                assert(pushed_n[j] == stack_n.last());
            }
        }
    }
    if complete_n {
        assert(resolved);
        assert(complete_k);
        assert forall|mi: int| 0 <= mi < k + 1 implies (
        #[trigger] en.moves[mi]).d.utility_after_move.spec_ready(timestamp) by {
            if mi < k {
                assert(en.moves[mi] == ek.moves[mi]);
            }
        }
        assert forall|p: int| 0 <= p < MAX_PLAYERS implies #[trigger] su_n@[p] == data_for_infoset::strategy_value(
            en.moves,
            timestamp,
            p,
            k + 1,
        ) by {
            assert forall|mi: int| 0 <= mi < k implies {
                &&& (#[trigger] en.moves[mi]).d.move_selection_probability
                    == ek.moves[mi].d.move_selection_probability
                &&& en.moves[mi].d.cached(timestamp) == ek.moves[mi].d.cached(timestamp)
            } by {
                assert(en.moves[mi] == ek.moves[mi]);
            }
            lemma_strategy_value_same(ek.moves, en.moves, timestamp, p, k);
            assert(su_k@[p] == data_for_infoset::strategy_value(ek.moves, timestamp, p, k));
            assert(en.moves[k].d.wf());
            let len = n_moves;
            assert(0 <= PROBABILITY_ONE as int / len <= PROBABILITY_ONE) by (nonlinear_arith)
                requires
                    len > 0,
            ;
        }
    }
    // the payoffs that have come in are accounted for as they were
    assert forall|mi: int| 0 <= mi < k + 1 implies #[trigger] newly_explained(
        store0,
        store_n,
        timestamp,
        d,
        mi,
        g,
    ) by {
        if en.moves[mi].d.utility_after_move.spec_ready(timestamp) && !e0.moves[mi].d.utility_after_move.spec_ready(
            timestamp,
        ) {
            if mi < k {
                assert(en.moves[mi] == ek.moves[mi]);
                assert(newly_explained(store0, store_k, timestamp, d, mi, g));
                assert(traversal_invariant::explains(store_k, timestamp, d, mi, g));
                let c_info = g.spec_advance(ek.moves[mi].m).spec_info();
                let c = store_k.index()[c_info] as int;
                assert(c < store_k.len());
                assert(c != d);
                assert(store_n.entry(c) == store_k.entry(c));
                assert(store_n.index().contains_key(c_info) && store_n.index()[c_info] == c);
                assert(store_n.index().contains_key(g.spec_info()));
            } else {
                assert(ek.moves[k] == e0.moves[k]);
            }
        }
    }
    assert(complete_n <==> forall|mi: int|
        0 <= mi < k + 1 ==> move_resolvable(store0, timestamp, d, mi, g)) by {
        if complete_k && resolved {
            assert forall|mi: int| 0 <= mi < k + 1 implies move_resolvable(
                store0,
                timestamp,
                d,
                mi,
                g,
            ) by {}
        }
        if !resolved {
            assert(!move_resolvable(store0, timestamp, d, k, g));
        }
    }
}

/// Completes the value of the pending entry at `index`, the payoffs after
/// all of whose moves are in.
///
/// `strategy_util`, what the strategy is worth over those payoffs, becomes
/// the value of the entry for `timestamp` and enters its running average,
/// weighted by the probability of the sampled state. Every move gains the
/// regret of not having been played, times `weight`. The entry is queued
/// for the strategy update.
pub fn accumulate_regret_with_complete_children<INFO: VisibleInfo>(
    progress: &mut StrategyGenerationProgress<INFO>,
    timestamp: Timestamp,
    starting_gamestate_probability: Probability,
    index: usize,
    strategy_util: UtilityForAllPlayers,
    weight: u32,
)
    requires
        old(progress).wf(),
        old(progress).dirty_consistent(timestamp.cfr_iteration),
        timestamp.wf(),
        starting_gamestate_probability <= PROBABILITY_ONE,
        index < old(progress).len(),
        old(progress).data_for_known_infosets.entry(index as int).terminal_utility is None,
        !old(progress).data_for_known_infosets.entry(index as int).spec_is_ready(timestamp),
        forall|mi: int|
            0 <= mi < old(progress).data_for_known_infosets.entry(index as int).moves.len() ==> (
            #[trigger] old(progress).data_for_known_infosets.entry(
                index as int,
            ).moves[mi]).d.utility_after_move.spec_ready(timestamp),
        strategy_util.bounded(),
        forall|p: int|
            0 <= p < MAX_PLAYERS ==> #[trigger] strategy_util@[p] == data_for_infoset::strategy_value(
                old(progress).data_for_known_infosets.entry(index as int).moves,
                timestamp,
                p,
                old(progress).data_for_known_infosets.entry(index as int).moves.len() as int,
            ),
    ensures
        final(progress).wf(),
        final(progress).dirty_consistent(timestamp.cfr_iteration),
        final(progress).len() == old(progress).len(),
        final(progress).data_for_known_infosets.index() == old(progress).data_for_known_infosets.index(),
        forall|i: int|
            0 <= i < old(progress).len() && i != index ==> #[trigger] final(progress).data_for_known_infosets.entry(i) == old(progress).data_for_known_infosets.entry(i),
        final(progress).data_for_known_infosets.entry(index as int).spec_is_ready(timestamp),
        step_relation::entry_completed(
            old(progress).data_for_known_infosets.entry(index as int),
            final(progress).data_for_known_infosets.entry(index as int),
            timestamp,
            starting_gamestate_probability,
            weight as int,
        ),
        dirty_grown(old(progress).dirty(), final(progress).dirty(), index),
{
    let ghost store0 = progress.data_for_known_infosets;
    let ghost e0 = store0.entry(index as int);
    proof {
        assert(e0.wf());
    }
    progress.data_for_known_infosets.arena[index].ready_with_counterfactual(
        strategy_util,
        starting_gamestate_probability,
        timestamp,
    );
    let ghost store1 = progress.data_for_known_infosets;
    let ghost e1 = store1.entry(index as int);
    let turn = progress.data_for_known_infosets.arena[index].turn();
    let n_moves = progress.data_for_known_infosets.arena[index].move_count();
    let mut mi: usize = 0;
    proof {
        assert(e1.moves =~= e0.moves);
        assert forall|i: int| 0 <= i < store0.len() && i != index implies #[trigger] store1.entry(i)
            == store0.entry(i) by {
            assert(store1.arena@[i] == store0.arena@[i]);
        }
    }
    while mi < n_moves
        invariant
            mi <= n_moves,
            n_moves == e0.moves.len(),
            timestamp.wf(),
            index < store0.len(),
            e0 == store0.entry(index as int),
            e1 == store1.entry(index as int),
            e0.wf(),
            e1.wf(),
            e1.moves == e0.moves,
            turn == e0.turn_player,
            progress.len() == store0.len(),
            progress.data_for_known_infosets.infoset_data == store0.infoset_data,
            progress.updated_infosets == old(progress).updated_infosets,
            forall|i: int|
                0 <= i < store0.len() && i != index ==> #[trigger] progress.data_for_known_infosets.entry(
                    i,
                ) == store0.entry(i),
            progress.data_for_known_infosets.entry(index as int).moves.len() == n_moves,
            (InfoSetStatistics {
                moves: e1.moves,
                ..progress.data_for_known_infosets.entry(index as int)
            }) == e1,
            forall|mj: int|
                0 <= mj < mi ==> step_relation::move_completed(
                    e0.moves[mj],
                    #[trigger] progress.data_for_known_infosets.entry(index as int).moves[mj],
                    timestamp,
                    turn,
                    strategy_util,
                    weight as int,
                ),
            forall|mj: int|
                0 <= mj < mi ==> (#[trigger] progress.data_for_known_infosets.entry(
                    index as int,
                ).moves[mj]).d.wf() && progress.data_for_known_infosets.entry(
                    index as int,
                ).moves[mj].d.utility_after_move == e0.moves[mj].d.utility_after_move,
            forall|mj: int|
                mi <= mj < n_moves ==> #[trigger] progress.data_for_known_infosets.entry(
                    index as int,
                ).moves[mj] == e0.moves[mj],
            forall|mj: int|
                0 <= mj < n_moves ==> (#[trigger] e0.moves[mj]).d.utility_after_move.spec_ready(
                    timestamp,
                ),
        decreases n_moves - mi,
    {
        let ghost store_k = progress.data_for_known_infosets;
        proof {
            assert(store_k.entry(index as int).moves[mi as int] == e0.moves[mi as int]);
            assert(e0.moves[mi as int].d.wf());
            assert(e0.moves[mi as int].d.utility_after_move.spec_ready(timestamp));
        }
        progress.data_for_known_infosets.arena[index].move_data[mi].d.accumulate_regret(
            timestamp,
            turn,
            &strategy_util,
            weight,
        );
        proof {
            let store_n = progress.data_for_known_infosets;
            assert forall|i: int| 0 <= i < store0.len() && i != index implies #[trigger] store_n.entry(
                i,
            ) == store0.entry(i) by {
                assert(store_n.arena@[i] == store_k.arena@[i]);
                assert(store_k.entry(i) == store0.entry(i));
            }
            assert forall|mj: int| 0 <= mj < mi + 1 implies step_relation::move_completed(
                e0.moves[mj],
                #[trigger] store_n.entry(index as int).moves[mj],
                timestamp,
                turn,
                strategy_util,
                weight as int,
            ) by {
                if mj < mi {
                    assert(store_n.entry(index as int).moves[mj] == store_k.entry(
                        index as int,
                    ).moves[mj]);
                }
            }
            assert forall|mj: int| 0 <= mj < mi + 1 implies (#[trigger] store_n.entry(
                index as int,
            ).moves[mj]).d.wf() && store_n.entry(index as int).moves[mj].d.utility_after_move
                == e0.moves[mj].d.utility_after_move by {
                if mj < mi {
                    assert(store_n.entry(index as int).moves[mj] == store_k.entry(
                        index as int,
                    ).moves[mj]);
                }
            }
            assert forall|mj: int| mi + 1 <= mj < n_moves implies #[trigger] store_n.entry(
                index as int,
            ).moves[mj] == e0.moves[mj] by {
                assert(store_n.entry(index as int).moves[mj] == store_k.entry(index as int).moves[mj]);
            }
        }
        mi += 1;
    }
    let ghost store2 = progress.data_for_known_infosets;
    let ghost e2 = store2.entry(index as int);
    proof {
        assert forall|mj: int| 0 <= mj < e2.moves.len() implies (#[trigger] e2.moves[mj]).d.wf() by {}
        assert forall|mj: int| 0 <= mj < n_moves implies {
            &&& (#[trigger] e2.moves[mj]).d.move_selection_probability
                == e0.moves[mj].d.move_selection_probability
            &&& e2.moves[mj].d.cached(timestamp) == e0.moves[mj].d.cached(timestamp)
        } by {
            assert(step_relation::move_completed(
                e0.moves[mj],
                e2.moves[mj],
                timestamp,
                turn,
                strategy_util,
                weight as int,
            ));
        }
        lemma_probability_sum_same(e0.moves, e2.moves, n_moves as int);
        assert(move_data::moves_of(e2.moves) =~= move_data::moves_of(e0.moves)) by {
            assert forall|mj: int| 0 <= mj < n_moves implies (#[trigger] e2.moves[mj]).m
                == e0.moves[mj].m by {
                assert(step_relation::move_completed(
                    e0.moves[mj],
                    e2.moves[mj],
                    timestamp,
                    turn,
                    strategy_util,
                    weight as int,
                ));
            }
        }
        assert(e2.wf());
        lemma_store_wf_after_update(&store0, &store2, index as int);
        assert forall|p: int| 0 <= p < MAX_PLAYERS implies #[trigger] strategy_util@[p]
            == data_for_infoset::strategy_value(e2.moves, timestamp, p, n_moves as int) by {
            lemma_strategy_value_same(e0.moves, e2.moves, timestamp, p, n_moves as int);
        }
        assert(progress.dirty_consistent(timestamp.cfr_iteration)) by {
            assert forall|i: usize|
                progress.dirty().contains(i) <==> i < progress.len() && (#[trigger] progress.entry(
                    i as int,
                )).global_updated_iteration == timestamp.cfr_iteration by {
                assert(old(progress).dirty().contains(i) <==> i < old(progress).len() && old(progress).entry(i as int).global_updated_iteration == timestamp.cfr_iteration);
                if i < progress.len() && i != index {
                    assert(store2.entry(i as int) == store0.entry(i as int));
                }
            }
        }
    }
    progress.mark_as_completed(index, timestamp);
    proof {
        let store3 = progress.data_for_known_infosets;
        let e3 = store3.entry(index as int);
        assert(e3.moves == e2.moves);
        assert forall|i: int| 0 <= i < store0.len() && i != index implies #[trigger] store3.entry(i)
            == store0.entry(i) by {
            assert(store3.arena@[i] == store2.arena@[i]);
            assert(store2.entry(i) == store0.entry(i));
        }
        assert(e3.value(timestamp) == strategy_util);
    }
}

/// The queue `after` is the queue `before`, behind which `index` may have
/// been put.
pub open spec fn dirty_grown(before: Seq<usize>, after: Seq<usize>, index: usize) -> bool {
    after == before || after == before.push(index)
}

/// The queue stays consistent while no entry changes the iteration it was
/// last completed in.
pub proof fn lemma_dirty_consistent_kept<INFO: VisibleInfo>(
    before: &StrategyGenerationProgress<INFO>,
    after: &StrategyGenerationProgress<INFO>,
    iteration: u32,
)
    requires
        before.dirty_consistent(iteration),
        after.dirty() == before.dirty(),
        before.len() <= after.len(),
        forall|i: int|
            0 <= i < before.len() ==> (#[trigger] after.data_for_known_infosets.entry(
                i,
            )).global_updated_iteration == before.data_for_known_infosets.entry(
                i,
            ).global_updated_iteration,
        forall|i: int|
            before.len() <= i < after.len() ==> (#[trigger] after.data_for_known_infosets.entry(
                i,
            )).global_updated_iteration != iteration,
    ensures
        after.dirty_consistent(iteration),
{
    assert forall|i: usize|
        after.dirty().contains(i) <==> i < after.len() && (#[trigger] after.entry(
            i as int,
        )).global_updated_iteration == iteration by {
        assert(before.dirty().contains(i) <==> i < before.len() && before.entry(
            i as int,
        ).global_updated_iteration == iteration);
        if i < after.len() {
            let e = after.data_for_known_infosets.entry(i as int);
        }
    }
}

/// Where play has ended at the pending entry at `index`, completes its
/// value for `timestamp`, queues it for the strategy update and returns
/// `true`; otherwise changes nothing and returns `false`.
pub fn complete_if_terminal<INFO: VisibleInfo>(
    progress: &mut StrategyGenerationProgress<INFO>,
    index: usize,
    gamestate_probability: Probability,
    timestamp: Timestamp,
    weight: u32,
) -> (terminal: bool)
    requires
        old(progress).wf(),
        old(progress).dirty_consistent(timestamp.cfr_iteration),
        timestamp.wf(),
        gamestate_probability <= PROBABILITY_ONE,
        index < old(progress).len(),
        !old(progress).data_for_known_infosets.entry(index as int).spec_is_ready(timestamp),
    ensures
        final(progress).wf(),
        final(progress).dirty_consistent(timestamp.cfr_iteration),
        final(progress).len() == old(progress).len(),
        final(progress).data_for_known_infosets.index() == old(progress).data_for_known_infosets.index(),
        forall|i: int|
            0 <= i < old(progress).len() && i != index ==> #[trigger] final(progress).data_for_known_infosets.entry(i) == old(progress).data_for_known_infosets.entry(i),
        terminal == old(progress).data_for_known_infosets.entry(index as int).terminal_utility is Some,
        !terminal ==> final(progress).data_for_known_infosets.entry(index as int) == old(progress).data_for_known_infosets.entry(index as int) && final(progress).dirty() == old(progress).dirty(),
        terminal ==> {
            &&& final(progress).data_for_known_infosets.entry(index as int).spec_is_ready(timestamp)
            &&& step_relation::entry_completed(
                old(progress).data_for_known_infosets.entry(index as int),
                final(progress).data_for_known_infosets.entry(index as int),
                timestamp,
                gamestate_probability,
                weight as int,
            )
            &&& dirty_grown(old(progress).dirty(), final(progress).dirty(), index)
        },
{
    let ghost store0 = progress.data_for_known_infosets;
    let ghost e0 = store0.entry(index as int);
    proof {
        assert(e0.wf());
    }
    let terminal = progress.data_for_known_infosets.arena[index].increment_terminal_counterfactual(
        gamestate_probability,
        timestamp,
    );
    let ghost store1 = progress.data_for_known_infosets;
    proof {
        assert forall|i: int| 0 <= i < store0.len() && i != index implies #[trigger] store1.entry(i)
            == store0.entry(i) by {
            assert(store1.arena@[i] == store0.arena@[i]);
        }
    }
    if terminal {
        proof {
            let e1 = store1.entry(index as int);
            assert(move_data::moves_of(e1.moves) =~= move_data::moves_of(e0.moves));
            lemma_store_wf_after_update(&store0, &store1, index as int);
            assert forall|i: int| 0 <= i < store0.len() implies (#[trigger] store1.entry(
                i,
            )).global_updated_iteration == store0.entry(i).global_updated_iteration by {
                if i != index {
                    assert(store1.entry(i) == store0.entry(i));
                }
            }
            lemma_dirty_consistent_kept(old(progress), progress, timestamp.cfr_iteration);
        }
        progress.mark_as_completed(index, timestamp);
        proof {
            let store2 = progress.data_for_known_infosets;
            assert forall|i: int| 0 <= i < store0.len() && i != index implies #[trigger] store2.entry(
                i,
            ) == store0.entry(i) by {
                assert(store2.arena@[i] == store1.arena@[i]);
                assert(store1.entry(i) == store0.entry(i));
            }
        }
    } else {
        proof {
            assert forall|i: int| 0 <= i < store0.len() implies (#[trigger] store1.entry(
                i,
            )).global_updated_iteration == store0.entry(i).global_updated_iteration by {
                if i != index {
                    assert(store1.entry(i) == store0.entry(i));
                }
            }
            lemma_dirty_consistent_kept(old(progress), progress, timestamp.cfr_iteration);
            lemma_store_wf_after_update(&store0, &store1, index as int);
        }
    }
    terminal
}

/// One step of a traversal: takes the top entry off the stack and handles
/// it.
///
/// An entry whose value for `timestamp` is known is dropped. An entry
/// where play has ended is completed with its final payoffs. Of any other
/// entry the moves are gone through: if the payoffs after all of them can
/// be told, the entry is completed; if not, it goes back on the stack,
/// below those of its successors whose value is still unknown.
fn traverse_step<INFO: VisibleInfo, G: OracleGamestate<INFO>>(
    progress: &mut StrategyGenerationProgress<INFO>,
    workstack: &mut ThreadLocalWorkStack<G>,
    timestamp: Timestamp,
    gamestate_probability: Probability,
    weight: u32,
    Ghost(start): Ghost<DataForKnownInfosets<INFO>>,
    Ghost(base): Ghost<Seq<InfoSetStatistics<INFO>>>,
    Ghost(expanded): Ghost<Seq<bool>>,
    Ghost(root): Ghost<INFO>,
) -> (next: (Ghost<Seq<InfoSetStatistics<INFO>>>, Ghost<Seq<bool>>))
    requires
        old(progress).wf(),
        old(progress).dirty_consistent(timestamp.cfr_iteration),
        timestamp.wf(),
        gamestate_probability <= PROBABILITY_ONE,
        start.wf(),
        old(workstack).stack@.len() > 0,
        traversal_invariant::based_on(
            &start,
            &old(progress).data_for_known_infosets,
            base,
            timestamp,
            gamestate_probability,
            weight as int,
        ),
        traversal_invariant::stack_invariant(
            &old(progress).data_for_known_infosets,
            old(workstack).stack@,
            expanded,
            timestamp,
        ),
        traversal_invariant::root_invariant(
            &old(progress).data_for_known_infosets,
            old(workstack).stack@,
            timestamp,
            root,
        ),
        traversal_invariant::caches_follow::<INFO, G>(
            &old(progress).data_for_known_infosets,
            timestamp,
        ),
    ensures
        final(progress).wf(),
        final(progress).dirty_consistent(timestamp.cfr_iteration),
        old(progress).dirty().is_prefix_of(final(progress).dirty()),
        traversal_invariant::caches_follow::<INFO, G>(
            &final(progress).data_for_known_infosets,
            timestamp,
        ),
        traversal_invariant::based_on(
            &start,
            &final(progress).data_for_known_infosets,
            next.0@,
            timestamp,
            gamestate_probability,
            weight as int,
        ),
        traversal_invariant::stack_invariant(
            &final(progress).data_for_known_infosets,
            final(workstack).stack@,
            next.1@,
            timestamp,
        ),
        traversal_invariant::root_invariant(
            &final(progress).data_for_known_infosets,
            final(workstack).stack@,
            timestamp,
            root,
        ),
        termination::stack_weight::<INFO, G>(final(workstack).stack@, next.1@)
            < termination::stack_weight::<INFO, G>(old(workstack).stack@, expanded),
{
    let ghost store_a = progress.data_for_known_infosets;
    let ghost stack_a = workstack.stack@;
    let ghost t = stack_a.len() - 1;
    let ghost below = stack_a.drop_last();
    let ghost flags_below = expanded.drop_last();
    let top = workstack.pop();
    let (index, gamestate) = match top {
        Some(entry) => entry,
        None => {
            proof {
                assert(false);
            }
            return (Ghost(base), Ghost(expanded));
        },
    };
    proof {
        assert(traversal_invariant::stack_entry_ok(&store_a, stack_a, t));
        assert(index < store_a.len());
        assert(store_a.entry(index as int).wf());
        assert(store_a.entry(index as int).describes(gamestate.spec_info()));
        termination::lemma_subtree_cost_positive::<INFO, G>(gamestate);
        traversal_invariant::lemma_store_monotone_reflexive(&store_a, timestamp);
    }
    if progress.data_for_known_infosets.arena[index].is_ready(timestamp) {
        proof {
            traversal_invariant::lemma_stack_invariant_after_pop(
                &store_a,
                &store_a,
                stack_a,
                expanded,
                timestamp,
                root,
            );
        }
        return (Ghost(base), Ghost(flags_below));
    }
    let terminal = complete_if_terminal(progress, index, gamestate_probability, timestamp, weight);
    if terminal {
        proof {
            let store_b = progress.data_for_known_infosets;
            traversal_invariant::lemma_based_on_after_completion(
                &start,
                &store_a,
                &store_b,
                base,
                index as int,
                timestamp,
                gamestate_probability,
                weight as int,
            );
            traversal_invariant::lemma_entry_change_monotone(
                &store_a,
                &store_b,
                index as int,
                timestamp,
                gamestate_probability,
                weight as int,
            );
            traversal_invariant::lemma_stack_invariant_after_pop(
                &store_a,
                &store_b,
                stack_a,
                expanded,
                timestamp,
                root,
            );
            assert forall|i: int, mi: int|
                0 <= i < store_b.len() && 0 <= mi < store_b.entry(i).moves.len() && (
                #[trigger] store_b.entry(i).moves[mi]).d.utility_after_move.spec_ready(timestamp)
                    && !(i < store_a.len() && store_a.entry(
                    i,
                ).moves[mi].d.utility_after_move.spec_ready(timestamp)) implies i == index
                && traversal_invariant::explains(&store_b, timestamp, index as int, mi, gamestate) by {
                if i != index {
                    assert(store_b.entry(i) == store_a.entry(i));
                }
            }
            traversal_invariant::lemma_caches_follow_preserved(
                &store_a,
                &store_b,
                timestamp,
                index as int,
                gamestate,
            );
        }
        return (Ghost(base), Ghost(flags_below));
    }
    proof {
        let store_same = progress.data_for_known_infosets;
        assert forall|i: int| 0 <= i < store_a.len() implies #[trigger] store_same.entry(i)
            == store_a.entry(i) by {}
    }
    let ghost store_s = progress.data_for_known_infosets;
    let mut pending: ThreadLocalWorkStack<G> = ThreadLocalWorkStack::new();
    let (strategy_util, complete) = resolve_moves(
        progress,
        &mut pending,
        timestamp,
        &gamestate,
        index,
    );
    let ghost store_b = progress.data_for_known_infosets;
    let ghost pushed = pending.stack@;
    let ghost added = Seq::new(
        (store_b.len() - store_s.len()) as nat,
        |i: int| store_b.entry(store_s.len() + i),
    );
    let ghost base_b = base + added;
    proof {
        assert(pushed =~= pushed.subrange(0, pushed.len() as int));
        // the table before the scan is the table the step began with
        assert(traversal_invariant::based_on(
            &start,
            &store_s,
            base,
            timestamp,
            gamestate_probability,
            weight as int,
        )) by {
            assert forall|i: int| 0 <= i < store_s.len() implies step_relation::entry_step(
                base[i],
                #[trigger] store_s.entry(i),
                timestamp,
                gamestate_probability,
                weight as int,
            ) by {
                assert(store_s.entry(i) == store_a.entry(i));
                assert(step_relation::entry_step(
                    base[i],
                    store_a.entry(i),
                    timestamp,
                    gamestate_probability,
                    weight as int,
                ));
            }
        }
        traversal_invariant::lemma_based_on_after_scan(
            &start,
            &store_s,
            &store_b,
            base,
            index as int,
            timestamp,
            gamestate_probability,
            weight as int,
        );
        assert(step_relation::entry_step(
            store_s.entry(index as int),
            store_b.entry(index as int),
            timestamp,
            gamestate_probability,
            weight as int,
        ));
        lemma_scan_keeps_others(&store_a, &store_s, &store_b, index as int, timestamp);
        traversal_invariant::lemma_entry_change_monotone(
            &store_a,
            &store_b,
            index as int,
            timestamp,
            gamestate_probability,
            weight as int,
        );
        assert forall|i: int| 0 <= i < store_a.len() implies (#[trigger] store_b.entry(
            i,
        )).global_updated_iteration == store_a.entry(i).global_updated_iteration by {
            if i != index {
                assert(store_b.entry(i) == store_a.entry(i));
            }
        }
        assert forall|i: int| store_a.len() <= i < store_b.len() implies (#[trigger] store_b.entry(
            i,
        )).global_updated_iteration != timestamp.cfr_iteration by {
            assert(store_b.entry(i).fresh());
        }
        lemma_dirty_consistent_kept(old(progress), progress, timestamp.cfr_iteration);
        // the payoffs that have come in are those the scan accounts for
        assert forall|i: int, mi: int|
            0 <= i < store_b.len() && 0 <= mi < store_b.entry(i).moves.len() && (
            #[trigger] store_b.entry(i).moves[mi]).d.utility_after_move.spec_ready(timestamp) && !(i
                < store_a.len() && store_a.entry(i).moves[mi].d.utility_after_move.spec_ready(
                timestamp,
            )) implies i == index && traversal_invariant::explains(
            &store_b,
            timestamp,
            index as int,
            mi,
            gamestate,
        ) by {
            if i >= store_a.len() {
                assert(store_b.entry(i).fresh());
                assert(store_b.entry(i).moves[mi].d.fresh());
            } else if i != index {
                assert(store_b.entry(i) == store_a.entry(i));
            } else {
                assert(newly_explained(&store_s, &store_b, timestamp, index as int, mi, gamestate));
                assert(store_s.entry(index as int) == store_a.entry(index as int));
            }
        }
        traversal_invariant::lemma_caches_follow_preserved(
            &store_a,
            &store_b,
            timestamp,
            index as int,
            gamestate,
        );
    }
    if complete {
        accumulate_regret_with_complete_children(
            progress,
            timestamp,
            gamestate_probability,
            index,
            strategy_util,
            weight,
        );
        proof {
            let store_c = progress.data_for_known_infosets;
            traversal_invariant::lemma_based_on_after_completion(
                &start,
                &store_b,
                &store_c,
                base_b,
                index as int,
                timestamp,
                gamestate_probability,
                weight as int,
            );
            assert(store_c.extends(&store_b));
            assert(step_relation::entry_step(
                store_b.entry(index as int),
                store_c.entry(index as int),
                timestamp,
                gamestate_probability,
                weight as int,
            ));
            traversal_invariant::lemma_entry_change_monotone(
                &store_b,
                &store_c,
                index as int,
                timestamp,
                gamestate_probability,
                weight as int,
            );
            traversal_invariant::lemma_store_monotone_transitive(
                &store_a,
                &store_b,
                &store_c,
                timestamp,
            );
            traversal_invariant::lemma_stack_invariant_after_pop(
                &store_a,
                &store_c,
                stack_a,
                expanded,
                timestamp,
                root,
            );
            assert forall|i: int, mi: int|
                0 <= i < store_c.len() && 0 <= mi < store_c.entry(i).moves.len() && (
                #[trigger] store_c.entry(i).moves[mi]).d.utility_after_move.spec_ready(timestamp)
                    && !(i < store_b.len() && store_b.entry(
                    i,
                ).moves[mi].d.utility_after_move.spec_ready(timestamp)) implies i == index
                && traversal_invariant::explains(&store_c, timestamp, index as int, mi, gamestate) by {
                if i != index {
                    assert(store_c.entry(i) == store_b.entry(i));
                } else {
                    assert(traversal_invariant::move_covered(
                        &store_b,
                        pushed,
                        timestamp,
                        index as int,
                        mi,
                        gamestate,
                    ));
                }
            }
            traversal_invariant::lemma_caches_follow_preserved(
                &store_b,
                &store_c,
                timestamp,
                index as int,
                gamestate,
            );
        }
        (Ghost(base_b), Ghost(flags_below))
    } else {
        workstack.push(index, gamestate);
        workstack.stack.append(&mut pending.stack);
        proof {
            assert(below.push((index, gamestate)) =~= stack_a);
            assert(workstack.stack@ =~= stack_a + pushed);
            let flags = flags_below.push(true) + Seq::new(pushed.len(), |i: int| false);
            assert forall|mi: int|
                0 <= mi < store_b.entry(stack_a.last().0 as int).moves.len() implies #[trigger] traversal_invariant::move_covered(
                &store_b,
                pushed,
                timestamp,
                stack_a.last().0 as int,
                mi,
                stack_a.last().1,
            ) by {}
            traversal_invariant::lemma_stack_invariant_after_push(
                &store_a,
                &store_b,
                stack_a,
                expanded,
                pushed,
                timestamp,
                root,
            );
            // an entry that had unfolded before would have been completed
            if expanded[t] {
                assert(traversal_invariant::entry_settled(&store_a, stack_a, timestamp, t));
                assert forall|mi: int|
                    0 <= mi < store_s.entry(index as int).moves.len() implies move_resolvable(
                    &store_s,
                    timestamp,
                    index as int,
                    mi,
                    gamestate,
                ) by {
                    assert(traversal_invariant::move_settled(&store_a, stack_a, timestamp, t, mi));
                    let mv = store_a.entry(index as int).moves[mi];
                    let child = gamestate.spec_advance(mv.m).spec_info();
                    if store_a.index().contains_key(child) {
                        let c = store_a.index()[child] as int;
                        assert(store_s.entry(c) == store_a.entry(c));
                    }
                }
                assert(false);
            }
            termination::lemma_stack_weight_push::<INFO, G>(
                below,
                flags_below,
                (index, gamestate),
                true,
            );
            termination::lemma_stack_weight_with_pending::<INFO, G>(
                stack_a,
                flags_below.push(true),
                pushed,
            );
            assert(expanded =~= flags_below.push(expanded[t]));
            termination::lemma_stack_weight_push::<INFO, G>(
                below,
                flags_below,
                (index, gamestate),
                false,
            );
            assert(gamestate.spec_info().terminal_utility() is None);
            assert(store_b.entry(index as int).moves.len() == gamestate.spec_info().legal_moves().len());
        }
        (
            Ghost(base_b),
            Ghost(flags_below.push(true) + Seq::new(pushed.len(), |i: int| false)),
        )
    }
}

/// Going through the moves of the entry at `d` leaves every other entry of
/// the table as it was.
pub proof fn lemma_scan_keeps_others<INFO: VisibleInfo>(
    a: &DataForKnownInfosets<INFO>,
    s: &DataForKnownInfosets<INFO>,
    b: &DataForKnownInfosets<INFO>,
    d: int,
    timestamp: Timestamp,
)
    requires
        0 <= d < a.len(),
        a.len() == s.len(),
        a.index() == s.index(),
        forall|i: int| 0 <= i < a.len() ==> #[trigger] s.entry(i) == a.entry(i),
        step_relation::scan_delta(s, b, d, timestamp),
    ensures
        b.extends(a),
        forall|i: int| 0 <= i < a.len() && i != d ==> #[trigger] b.entry(i) == a.entry(i),
        b.entry(d).terminal_utility == a.entry(d).terminal_utility,
{
    assert forall|i: int| 0 <= i < a.len() && i != d implies #[trigger] b.entry(i) == a.entry(i) by {
        assert(b.entry(i) == s.entry(i));
    }
    assert(s.entry(d) == a.entry(d));
}

/// Traverses the game below one sampled state.
///
/// Works from a stack of its own: every entry on it is handled as
/// `traverse_step` tells, until the stack is empty. The value of every
/// information set that is met is then known for `timestamp`, that of the
/// mover in `starting_gamestate` included.
pub fn traverse_batch_item<INFO: VisibleInfo, G: OracleGamestate<INFO>>(
    progress: &mut StrategyGenerationProgress<INFO>,
    starting_gamestate: G,
    gamestate_probability: Probability,
    timestamp: Timestamp,
    weight: u32,
)
    requires
        old(progress).wf(),
        old(progress).dirty_consistent(timestamp.cfr_iteration),
        timestamp.wf(),
        gamestate_probability <= PROBABILITY_ONE,
        starting_gamestate.valid(),
        traversal_invariant::fresh_from(
            &old(progress).data_for_known_infosets,
            timestamp.cfr_iteration as int,
            timestamp.item_within_iteration as int,
        ),
    ensures
        final(progress).wf(),
        final(progress).dirty_consistent(timestamp.cfr_iteration),
        old(progress).dirty().is_prefix_of(final(progress).dirty()),
        traversal_invariant::caches_follow::<INFO, G>(
            &final(progress).data_for_known_infosets,
            timestamp,
        ),
        traversal_invariant::fresh_from(
            &final(progress).data_for_known_infosets,
            timestamp.cfr_iteration as int,
            timestamp.item_within_iteration + 1,
        ),
        traversal_invariant::traversed(
            &old(progress).data_for_known_infosets,
            &final(progress).data_for_known_infosets,
            timestamp,
            gamestate_probability,
            weight as int,
        ),
        final(progress).data_for_known_infosets.index().contains_key(starting_gamestate.spec_info()),
        final(progress).data_for_known_infosets.entry(
            final(progress).data_for_known_infosets.index()[starting_gamestate.spec_info()] as int,
        ).spec_is_ready(timestamp),
{
    let ghost start = progress.data_for_known_infosets;
    let ghost root = starting_gamestate.spec_info();
    let mut workstack: ThreadLocalWorkStack<G> = ThreadLocalWorkStack::new();
    let info_set = progress.get_data_for_infoset(starting_gamestate.info_for_turn_player());
    workstack.push(info_set, starting_gamestate);
    let ghost store_r = progress.data_for_known_infosets;
    let ghost mut base: Seq<InfoSetStatistics<INFO>> = Seq::new(
        store_r.len(),
        |i: int| store_r.entry(i),
    );
    let ghost mut expanded: Seq<bool> = seq![false];
    proof {
        assert forall|i: int| 0 <= i < start.len() implies #[trigger] store_r.entry(i)
            == start.entry(i) by {
            assert(store_r.arena@[i] == start.arena@[i]);
        }
        assert forall|i: int| 0 <= i < store_r.len() implies step_relation::entry_step(
            base[i],
            #[trigger] store_r.entry(i),
            timestamp,
            gamestate_probability,
            weight as int,
        ) by {
            step_relation::lemma_entry_step_reflexive(
                store_r.entry(i),
                timestamp,
                gamestate_probability,
                weight as int,
            );
        }
        assert forall|i: int| start.len() <= i < base.len() implies (#[trigger] base[i]).fresh()
            && base[i].wf() by {
            assert(store_r.entry(i).wf());
        }
        assert(traversal_invariant::stack_entry_ok(&store_r, workstack.stack@, 0));
        assert forall|i: int| 0 <= i < start.len() implies (#[trigger] store_r.entry(
            i,
        )).global_updated_iteration == start.entry(i).global_updated_iteration by {}
        assert forall|i: int| start.len() <= i < store_r.len() implies (#[trigger] store_r.entry(
            i,
        )).global_updated_iteration != timestamp.cfr_iteration by {
            assert(store_r.entry(i).fresh());
        }
        lemma_dirty_consistent_kept(old(progress), progress, timestamp.cfr_iteration);
        assert(traversal_invariant::fresh_from(
            &store_r,
            timestamp.cfr_iteration as int,
            timestamp.item_within_iteration as int,
        )) by {
            assert forall|i: int| 0 <= i < store_r.len() implies traversal_invariant::entry_fresh(
                #[trigger] store_r.entry(i),
                timestamp.cfr_iteration as int,
                timestamp.item_within_iteration as int,
            ) by {
                if i < start.len() {
                    assert(store_r.entry(i) == start.entry(i));
                    assert(traversal_invariant::entry_fresh(
                        start.entry(i),
                        timestamp.cfr_iteration as int,
                        timestamp.item_within_iteration as int,
                    ));
                } else {
                    let e = store_r.entry(i);
                    assert(e.fresh());
                    assert forall|mi: int|
                        0 <= mi < e.moves.len() implies traversal_invariant::slots_fresh(
                        (#[trigger] e.moves[mi]).d.utility_after_move,
                        timestamp.cfr_iteration as int,
                        timestamp.item_within_iteration as int,
                    ) by {
                        assert(e.moves[mi].d.fresh());
                    }
                }
            }
        }
        traversal_invariant::lemma_fresh_knows_nothing::<INFO, G>(&store_r, timestamp);
    }
    while workstack.len() > 0
        invariant
            progress.wf(),
            traversal_invariant::caches_follow::<INFO, G>(
                &progress.data_for_known_infosets,
                timestamp,
            ),
            progress.dirty_consistent(timestamp.cfr_iteration),
            old(progress).dirty().is_prefix_of(progress.dirty()),
            timestamp.wf(),
            gamestate_probability <= PROBABILITY_ONE,
            start.wf(),
            traversal_invariant::based_on(
                &start,
                &progress.data_for_known_infosets,
                base,
                timestamp,
                gamestate_probability,
                weight as int,
            ),
            traversal_invariant::stack_invariant(
                &progress.data_for_known_infosets,
                workstack.stack@,
                expanded,
                timestamp,
            ),
            traversal_invariant::root_invariant(
                &progress.data_for_known_infosets,
                workstack.stack@,
                timestamp,
                root,
            ),
        decreases termination::stack_weight::<INFO, G>(workstack.stack@, expanded),
    {
        let next = traverse_step(
            progress,
            &mut workstack,
            timestamp,
            gamestate_probability,
            weight,
            Ghost(start),
            Ghost(base),
            Ghost(expanded),
            Ghost(root),
        );
        proof {
            base = next.0@;
            expanded = next.1@;
        }
    }
    proof {
        traversal_invariant::lemma_based_on_is_traversed(
            &start,
            &progress.data_for_known_infosets,
            base,
            timestamp,
            gamestate_probability,
            weight as int,
        );
        traversal_invariant::lemma_traversed_keeps_fresh(
            &start,
            &progress.data_for_known_infosets,
            timestamp,
            gamestate_probability,
            weight as int,
            timestamp.cfr_iteration as int,
            timestamp.item_within_iteration + 1,
        );
    }
}

/// One iteration's traversals: draws a batch of states from
/// `starting_gamestate_sampler` and traverses the game below each, the
/// state at place `i` of the batch with the timestamp `(iteration, i)`.
///
/// Whatever states are drawn, the table only grows, the probabilities of
/// all moves stay as they are, no regret shrinks, and the entries that
/// completed a value are queued, once each, for the strategy update.
/// Returns the sampler.
pub fn add_to_regret<
    INFO: VisibleInfo,
    G: OracleGamestate<INFO>,
    SAMPLER: GamestateSampler<INFO, G>,
>(
    starting_gamestate_sampler: SAMPLER,
    progress: &mut StrategyGenerationProgress<INFO>,
    iteration: u32,
    config: &SolverConfig,
) -> (sampler: SAMPLER)
    requires
        starting_gamestate_sampler.valid(),
        old(progress).wf(),
        old(progress).dirty_consistent(iteration),
        iteration > 0,
        config.wf(),
        traversal_invariant::fresh_from(&old(progress).data_for_known_infosets, iteration as int, 0),
    ensures
        traversal_invariant::fresh_from(
            &final(progress).data_for_known_infosets,
            iteration + 1,
            0,
        ),
        sampler.valid(),
        sampler.info() == starting_gamestate_sampler.info(),
        final(progress).wf(),
        final(progress).dirty_consistent(iteration),
        old(progress).dirty().is_prefix_of(final(progress).dirty()),
        traversal_invariant::store_advanced(
            &old(progress).data_for_known_infosets,
            &final(progress).data_for_known_infosets,
            iteration,
        ),
        final(progress).data_for_known_infosets.index().contains_key(
            starting_gamestate_sampler.info(),
        ),
        forall|p: Probability| #[trigger]
            sampler.reports(p) == starting_gamestate_sampler.reports(p),
        iteration_relation::batch_traversed::<INFO, G>(
            crate::cfr::game_model::gamestate_sampler::reported(starting_gamestate_sampler),
            starting_gamestate_sampler.info(),
            &old(progress).data_for_known_infosets,
            &final(progress).data_for_known_infosets,
            iteration as int,
            *config,
        ),
        iteration_relation::root_ready(
            &final(progress).data_for_known_infosets,
            starting_gamestate_sampler.info(),
            iteration as int,
            *config,
        ),
{
    let ghost start = progress.data_for_known_infosets;
    let ghost mut tables: Seq<DataForKnownInfosets<INFO>> = seq![start];
    let ghost mut probabilities: Seq<Probability> = Seq::empty();
    let ghost root = starting_gamestate_sampler.info();
    let mut gamestates = RandomGamestateIterator::new(
        starting_gamestate_sampler,
        1000 * PROBABILITY_ONE,
        10,
    );
    let mut batch: Vec<(G, Probability)> = Vec::new();
    while batch.len() < config.batch_size
        invariant
            config.wf(),
            batch.len() <= config.batch_size,
            gamestates.wf(),
            gamestates.sampler.valid(),
            gamestates.sampler.info() == root,
            forall|p: Probability| #[trigger]
                gamestates.sampler.reports(p) == starting_gamestate_sampler.reports(p),
            gamestates.stopping_probability == 1000 * PROBABILITY_ONE,
            gamestates.stopping_n == 10,
            gamestates.cumulative_n == batch.len(),
            forall|i: int|
                0 <= i < batch.len() ==> {
                    &&& (#[trigger] batch[i]).0.valid()
                    &&& batch[i].0.spec_info() == root
                    &&& batch[i].1 <= PROBABILITY_ONE
                    &&& starting_gamestate_sampler.reports(batch[i].1)
                },
        decreases config.batch_size - batch.len(),
    {
        proof {
            assert(gamestates.cumulative_n * PROBABILITY_ONE <= 4 * PROBABILITY_ONE)
                by (nonlinear_arith)
                requires
                    gamestates.cumulative_n <= 4,
            ;
        }
        match gamestates.next::<INFO, G>() {
            Some(drawn) => {
                batch.push(drawn);
            },
            None => {
                proof {
                    assert(false);
                }
            },
        }
    }
    let weight_config = *config;
    let mut i: usize = 0;
    proof {
        traversal_invariant::lemma_store_advanced_reflexive(&start, iteration);
        assert(traversal_invariant::fresh_from(&start, iteration + 1, 0)) by {
            assert forall|j: int| 0 <= j < start.len() implies traversal_invariant::entry_fresh(
                #[trigger] start.entry(j),
                iteration + 1,
                0,
            ) by {
                let e = start.entry(j);
                assert(traversal_invariant::entry_fresh(e, iteration as int, 0));
                assert forall|mi: int|
                    0 <= mi < e.moves.len() implies traversal_invariant::slots_fresh(
                    (#[trigger] e.moves[mi]).d.utility_after_move,
                    iteration + 1,
                    0,
                ) by {
                    assert(traversal_invariant::slots_fresh(
                        e.moves[mi].d.utility_after_move,
                        iteration as int,
                        0,
                    ));
                }
            }
        }
    }
    while batch.len() > 0
        invariant
            weight_config.wf(),
            iteration > 0,
            i + batch.len() == weight_config.batch_size,
            progress.wf(),
            progress.dirty_consistent(iteration),
            old(progress).dirty().is_prefix_of(progress.dirty()),
            start.wf(),
            traversal_invariant::store_advanced(&start, &progress.data_for_known_infosets, iteration),
            traversal_invariant::fresh_from(
                &progress.data_for_known_infosets,
                iteration as int,
                i as int,
            ),
            traversal_invariant::fresh_from(&progress.data_for_known_infosets, iteration + 1, 0),
            i > 0 ==> progress.data_for_known_infosets.index().contains_key(root),
            tables.len() == i + 1,
            probabilities.len() == i,
            tables[0] == start,
            tables[i as int] == progress.data_for_known_infosets,
            forall|k: int|
                0 <= k < i ==> {
                    &&& (#[trigger] probabilities[k]) <= PROBABILITY_ONE
                    &&& starting_gamestate_sampler.reports(probabilities[k])
                    &&& tables[k].wf()
                    &&& tables[k + 1].wf()
                    &&& traversal_invariant::fresh_from(&tables[k], iteration as int, k)
                    &&& tables[k + 1].index().contains_key(root)
                    &&& tables[k + 1].entry(tables[k + 1].index()[root] as int).spec_is_ready(
                        iteration_relation::place(iteration as int, k),
                    )
                    &&& traversal_invariant::caches_follow::<INFO, G>(
                        &tables[k + 1],
                        iteration_relation::place(iteration as int, k),
                    )
                    &&& traversal_invariant::traversed(
                        &tables[k],
                        &tables[k + 1],
                        iteration_relation::place(iteration as int, k),
                        probabilities[k],
                        weight_config.spec_weight(iteration_relation::place(iteration as int, k)) as int,
                    )
                },
            iteration_relation::root_ready_until(
                &progress.data_for_known_infosets,
                root,
                iteration as int,
                i as int,
            ),
            forall|j: int|
                0 <= j < batch.len() ==> {
                    &&& (#[trigger] batch[j]).0.valid()
                    &&& batch[j].0.spec_info() == root
                    &&& batch[j].1 <= PROBABILITY_ONE
                    &&& starting_gamestate_sampler.reports(batch[j].1)
                },
        decreases batch.len(),
    {
        let ghost store_k = progress.data_for_known_infosets;
        let ghost first = batch@[0];
        let ghost rest = batch@.subrange(1, batch@.len() as int);
        let (starting_gamestate, gamestate_probability) = batch.remove(0);
        proof {
            assert(batch@ =~= rest);
            assert(starting_gamestate == first.0 && gamestate_probability == first.1);
            assert(first.0.valid() && first.0.spec_info() == root && first.1 <= PROBABILITY_ONE
                && starting_gamestate_sampler.reports(first.1));
            assert forall|j: int| 0 <= j < batch.len() implies {
                &&& (#[trigger] batch[j]).0.valid()
                &&& batch[j].0.spec_info() == root
                &&& batch[j].1 <= PROBABILITY_ONE
                &&& starting_gamestate_sampler.reports(batch[j].1)
            } by {
                assert(batch[j] == rest[j]);
            }
        }
        let timestamp = Timestamp::new(iteration, i);
        let weight = weight_config.weight(timestamp);
        traverse_batch_item(progress, starting_gamestate, gamestate_probability, timestamp, weight);
        proof {
            traversal_invariant::lemma_traversed_keeps_fresh(
                &store_k,
                &progress.data_for_known_infosets,
                timestamp,
                gamestate_probability,
                weight as int,
                iteration + 1,
                0,
            );
            traversal_invariant::lemma_traversed_is_advance(
                &store_k,
                &progress.data_for_known_infosets,
                timestamp,
                gamestate_probability,
                weight as int,
            );
            traversal_invariant::lemma_store_advanced_transitive(
                &start,
                &store_k,
                &progress.data_for_known_infosets,
                iteration,
            );
            let now = progress.data_for_known_infosets;
            assert(timestamp == iteration_relation::place(iteration as int, i as int));
            // the root keeps the values of the places before
            assert forall|k: int| 0 <= k < i + 1 implies now.entry(
                now.index()[root] as int,
            ).spec_is_ready(#[trigger] iteration_relation::place(iteration as int, k)) by {
                if k < i {
                    let r = store_k.index()[root] as int;
                    assert(store_k.index().contains_key(root));
                    assert(now.index()[root] == store_k.index()[root]);
                    assert(store_k.entry(r).wf());
                    assert(step_relation::entry_step(
                        store_k.entry(r),
                        now.entry(r),
                        timestamp,
                        gamestate_probability,
                        weight as int,
                    ));
                    step_relation::lemma_step_is_monotone(
                        store_k.entry(r),
                        now.entry(r),
                        timestamp,
                        gamestate_probability,
                        weight as int,
                    );
                    assert(store_k.entry(r).spec_is_ready(
                        iteration_relation::place(iteration as int, k),
                    ));
                }
            }
            let before_tables = tables;
            let before_probabilities = probabilities;
            tables = tables.push(now);
            probabilities = probabilities.push(gamestate_probability);
            assert forall|k: int| 0 <= k < i + 1 implies {
                &&& (#[trigger] probabilities[k]) <= PROBABILITY_ONE
                &&& starting_gamestate_sampler.reports(probabilities[k])
                &&& tables[k].wf()
                &&& tables[k + 1].wf()
                &&& traversal_invariant::fresh_from(&tables[k], iteration as int, k)
                &&& tables[k + 1].index().contains_key(root)
                &&& tables[k + 1].entry(tables[k + 1].index()[root] as int).spec_is_ready(
                    iteration_relation::place(iteration as int, k),
                )
                &&& traversal_invariant::caches_follow::<INFO, G>(
                    &tables[k + 1],
                    iteration_relation::place(iteration as int, k),
                )
                &&& traversal_invariant::traversed(
                    &tables[k],
                    &tables[k + 1],
                    iteration_relation::place(iteration as int, k),
                    probabilities[k],
                    weight_config.spec_weight(iteration_relation::place(iteration as int, k)) as int,
                )
            } by {
                if k < i {
                    assert(before_probabilities[k] <= PROBABILITY_ONE);
                    assert(tables[k] == before_tables[k]);
                    assert(tables[k + 1] == before_tables[k + 1]);
                    assert(probabilities[k] == before_probabilities[k]);
                } else {
                    assert(tables[k] == store_k);
                    assert(tables[k + 1] == now);
                }
            }
        }
        i += 1;
    }
    proof {
        assert(iteration_relation::batch_chain::<INFO, G>(
            tables,
            probabilities,
            crate::cfr::game_model::gamestate_sampler::reported(starting_gamestate_sampler),
            root,
            &start,
            &progress.data_for_known_infosets,
            iteration as int,
            *config,
        ));
    }
    gamestates.sampler
}

} // verus!
