//! What holds between any two steps of a traversal.

use vstd::prelude::*;
use crate::cfr::game_model::{OracleGamestate, Probability, VisibleInfo};
use crate::cfr::strategy_generation::cfr_algorithm_impl::step_relation;
use crate::cfr::strategy_generation::workspace_data::data_for_infoset::InfoSetStatistics;
use crate::cfr::strategy_generation::workspace_data::data_for_known_infosets::DataForKnownInfosets;
use crate::cfr::strategy_generation::workspace_data::timestamp::Timestamp;

verus! {

/// The entry `after` was made in the course of a traversal: it has taken
/// its step from the statistics of an information set nothing is known
/// about.
pub open spec fn entry_grown<INFO: VisibleInfo>(
    after: InfoSetStatistics<INFO>,
    timestamp: Timestamp,
    gamestate_probability: Probability,
    weight: int,
) -> bool {
    exists|made: InfoSetStatistics<INFO>|
        made.fresh() && made.wf() && #[trigger] step_relation::entry_step(
            made,
            after,
            timestamp,
            gamestate_probability,
            weight,
        )
}

/// What the traversal of one sampled state, drawn with probability
/// `gamestate_probability` and handled at `timestamp`, does to the table:
/// it adds the entries of the information sets it meets for the first time,
/// and takes every entry one step on. An added entry has taken its step
/// from the statistics of an information set nothing is known about.
pub open spec fn traversed<INFO: VisibleInfo>(
    before: &DataForKnownInfosets<INFO>,
    after: &DataForKnownInfosets<INFO>,
    timestamp: Timestamp,
    gamestate_probability: Probability,
    weight: int,
) -> bool {
    &&& after.extends(before)
    &&& forall|i: int|
        0 <= i < before.len() ==> step_relation::entry_step(
            before.entry(i),
            #[trigger] after.entry(i),
            timestamp,
            gamestate_probability,
            weight,
        )
    &&& forall|i: int|
        before.len() <= i < after.len() ==> entry_grown(
            #[trigger] after.entry(i),
            timestamp,
            gamestate_probability,
            weight,
        )
}

/// The table `now` has grown out of the table `start` in the course of one
/// traversal; `base` holds, for every entry of `now`, the statistics it
/// started from.
pub open spec fn based_on<INFO: VisibleInfo>(
    start: &DataForKnownInfosets<INFO>,
    now: &DataForKnownInfosets<INFO>,
    base: Seq<InfoSetStatistics<INFO>>,
    timestamp: Timestamp,
    gamestate_probability: Probability,
    weight: int,
) -> bool {
    &&& now.extends(start)
    &&& base.len() == now.len()
    &&& forall|i: int| 0 <= i < start.len() ==> #[trigger] base[i] == start.entry(i)
    &&& forall|i: int| start.len() <= i < base.len() ==> (#[trigger] base[i]).fresh() && base[i].wf()
    &&& forall|i: int|
        0 <= i < now.len() ==> step_relation::entry_step(
            base[i],
            #[trigger] now.entry(i),
            timestamp,
            gamestate_probability,
            weight,
        )
}

/// Every entry of `before` is in `after`, with its shape and with all that
/// was known of it for `timestamp`.
pub open spec fn store_monotone<INFO: VisibleInfo>(
    before: &DataForKnownInfosets<INFO>,
    after: &DataForKnownInfosets<INFO>,
    timestamp: Timestamp,
) -> bool {
    &&& after.extends(before)
    &&& forall|i: int|
        0 <= i < before.len() ==> step_relation::entry_monotone(
            before.entry(i),
            #[trigger] after.entry(i),
            timestamp,
        )
}

/// The stack entry at `j` names the table entry of what the mover observes
/// in its state.
pub open spec fn stack_entry_ok<INFO: VisibleInfo, G: OracleGamestate<INFO>>(
    store: &DataForKnownInfosets<INFO>,
    stack: Seq<(usize, G)>,
    j: int,
) -> bool {
    &&& stack[j].1.valid()
    &&& store.index().contains_key(stack[j].1.spec_info())
    &&& store.index()[stack[j].1.spec_info()] == stack[j].0
}

/// Move `mi` of the stack entry at `j` needs no further pushing: the
/// payoffs after it are kept with it, or the value of its successor is
/// known, or its successor waits higher up on the stack.
pub open spec fn move_settled<INFO: VisibleInfo, G: OracleGamestate<INFO>>(
    store: &DataForKnownInfosets<INFO>,
    stack: Seq<(usize, G)>,
    timestamp: Timestamp,
    j: int,
    mi: int,
) -> bool {
    let mv = store.entry(stack[j].0 as int).moves[mi];
    let child = stack[j].1.spec_advance(mv.m).spec_info();
    ||| mv.d.utility_after_move.spec_ready(timestamp)
    ||| {
        &&& store.index().contains_key(child)
        &&& {
            ||| store.entry(store.index()[child] as int).spec_is_ready(timestamp)
            ||| exists|j2: int|
                j < j2 < stack.len() && (#[trigger] stack[j2]).0 == store.index()[child]
        }
    }
}

/// The payoffs after move `mi` are kept with it, or its successor is among
/// `pushed`.
pub open spec fn move_covered<INFO: VisibleInfo, G: OracleGamestate<INFO>>(
    store: &DataForKnownInfosets<INFO>,
    pushed: Seq<(usize, G)>,
    timestamp: Timestamp,
    d: int,
    mi: int,
    g: G,
) -> bool {
    let mv = store.entry(d).moves[mi];
    let child = g.spec_advance(mv.m).spec_info();
    ||| mv.d.utility_after_move.spec_ready(timestamp)
    ||| (store.index().contains_key(child) && exists|j: int|
        0 <= j < pushed.len() && (#[trigger] pushed[j]).0 == store.index()[child])
}

/// The state `g` accounts for the payoffs kept with move `mi` of the entry
/// at `d`: the entry is that of what the mover observes in `g`, and the
/// payoffs are the value, for `timestamp`, of what the mover observes
/// after the move.
pub open spec fn explains<INFO: VisibleInfo, G: OracleGamestate<INFO>>(
    store: &DataForKnownInfosets<INFO>,
    timestamp: Timestamp,
    d: int,
    mi: int,
    g: G,
) -> bool {
    let mv = store.entry(d).moves[mi];
    let child = g.spec_advance(mv.m).spec_info();
    &&& g.valid()
    &&& store.index().contains_key(g.spec_info())
    &&& store.index()[g.spec_info()] == d
    &&& store.index().contains_key(child)
    &&& store.entry(store.index()[child] as int).spec_is_ready(timestamp)
    &&& store.entry(store.index()[child] as int).value(timestamp) == mv.d.cached(timestamp)
}

/// The payoffs kept with move `mi` of the entry at `d` are the value of a
/// successor: some state that the entry stands for accounts for them.
pub open spec fn cache_follows<INFO: VisibleInfo, G: OracleGamestate<INFO>>(
    store: &DataForKnownInfosets<INFO>,
    timestamp: Timestamp,
    d: int,
    mi: int,
) -> bool {
    exists|g: G| #[trigger] explains(store, timestamp, d, mi, g)
}

/// All payoffs kept with moves for `timestamp` are values of successors.
pub open spec fn caches_follow<INFO: VisibleInfo, G: OracleGamestate<INFO>>(
    store: &DataForKnownInfosets<INFO>,
    timestamp: Timestamp,
) -> bool {
    forall|d: int, mi: int|
        0 <= d < store.len() && 0 <= mi < store.entry(d).moves.len() && (
        #[trigger] store.entry(d).moves[mi]).d.utility_after_move.spec_ready(timestamp)
            ==> cache_follows::<INFO, G>(store, timestamp, d, mi)
}

/// No slot at or beyond the batch place `from` holds a generation as high
/// as `iteration`.
pub open spec fn slots_fresh(
    slots: crate::cfr::strategy_generation::workspace_data::batch_item_data::DataPerBatchItem<
        crate::cfr::game_model::UtilityForAllPlayers,
    >,
    iteration: int,
    from: int,
) -> bool {
    forall|s: int|
        0 <= from <= s < 4 ==> #[trigger] slots.updated_iteration_per_work_item@[s] < iteration
}

/// Nothing in the entry was written in `iteration`, or a later one, at a
/// batch place at or beyond `from`.
pub open spec fn entry_fresh<INFO: VisibleInfo>(
    entry: InfoSetStatistics<INFO>,
    iteration: int,
    from: int,
) -> bool {
    &&& slots_fresh(entry.counterfactual_for_current_iteration, iteration, from)
    &&& forall|mi: int|
        0 <= mi < entry.moves.len() ==> slots_fresh(
            (#[trigger] entry.moves[mi]).d.utility_after_move,
            iteration,
            from,
        )
}

/// Nothing in the table was written in `iteration`, or a later one, at a
/// batch place at or beyond `from`.
pub open spec fn fresh_from<INFO: VisibleInfo>(
    store: &DataForKnownInfosets<INFO>,
    iteration: int,
    from: int,
) -> bool {
    forall|i: int| 0 <= i < store.len() ==> entry_fresh(#[trigger] store.entry(i), iteration, from)
}

/// In a table in which nothing was written for `timestamp` yet, nothing
/// is known for it.
pub proof fn lemma_fresh_knows_nothing<INFO: VisibleInfo, G: OracleGamestate<INFO>>(
    store: &DataForKnownInfosets<INFO>,
    timestamp: Timestamp,
)
    requires
        timestamp.wf(),
        fresh_from(store, timestamp.cfr_iteration as int, timestamp.item_within_iteration as int),
    ensures
        caches_follow::<INFO, G>(store, timestamp),
        forall|i: int| 0 <= i < store.len() ==> !(#[trigger] store.entry(i)).spec_is_ready(timestamp),
{
    assert forall|d: int, mi: int|
        0 <= d < store.len() && 0 <= mi < store.entry(d).moves.len() && (
        #[trigger] store.entry(d).moves[mi]).d.utility_after_move.spec_ready(
            timestamp,
        ) implies cache_follows::<INFO, G>(store, timestamp, d, mi) by {
        assert(entry_fresh(
            store.entry(d),
            timestamp.cfr_iteration as int,
            timestamp.item_within_iteration as int,
        ));
        assert(slots_fresh(
            store.entry(d).moves[mi].d.utility_after_move,
            timestamp.cfr_iteration as int,
            timestamp.item_within_iteration as int,
        ));
    }
    assert forall|i: int| 0 <= i < store.len() implies !(#[trigger] store.entry(i)).spec_is_ready(
        timestamp,
    ) by {
        assert(entry_fresh(
            store.entry(i),
            timestamp.cfr_iteration as int,
            timestamp.item_within_iteration as int,
        ));
    }
}

/// The payoffs kept with moves stay values of successors while the table
/// only learns, as long as those that have come in since are accounted
/// for: they are kept with moves of the entry at `d`, reached in `g`.
pub proof fn lemma_caches_follow_preserved<INFO: VisibleInfo, G: OracleGamestate<INFO>>(
    before: &DataForKnownInfosets<INFO>,
    after: &DataForKnownInfosets<INFO>,
    timestamp: Timestamp,
    d: int,
    g: G,
)
    requires
        timestamp.wf(),
        before.wf(),
        caches_follow::<INFO, G>(before, timestamp),
        store_monotone(before, after, timestamp),
        forall|i: int, mi: int|
            0 <= i < after.len() && 0 <= mi < after.entry(i).moves.len() && (
            #[trigger] after.entry(i).moves[mi]).d.utility_after_move.spec_ready(timestamp) && !(i
                < before.len() && before.entry(i).moves[mi].d.utility_after_move.spec_ready(
                timestamp,
            )) ==> i == d && explains(after, timestamp, d, mi, g),
    ensures
        caches_follow::<INFO, G>(after, timestamp),
{
    assert forall|i: int, mi: int|
        0 <= i < after.len() && 0 <= mi < after.entry(i).moves.len() && (
        #[trigger] after.entry(i).moves[mi]).d.utility_after_move.spec_ready(
            timestamp,
        ) implies cache_follows::<INFO, G>(after, timestamp, i, mi) by {
        if i < before.len() && before.entry(i).moves[mi].d.utility_after_move.spec_ready(timestamp) {
            assert(step_relation::entry_monotone(before.entry(i), after.entry(i), timestamp));
            assert(step_relation::move_monotone(
                before.entry(i).moves[mi],
                after.entry(i).moves[mi],
                timestamp,
            ));
            assert(cache_follows::<INFO, G>(before, timestamp, i, mi));
            let g0 = choose|g0: G| #[trigger] explains(before, timestamp, i, mi, g0);
            let child = g0.spec_advance(before.entry(i).moves[mi].m).spec_info();
            let c = before.index()[child] as int;
            assert(c < before.len());
            assert(step_relation::entry_monotone(before.entry(c), after.entry(c), timestamp));
            assert(explains(after, timestamp, i, mi, g0));
        } else {
            assert(explains(after, timestamp, i, mi, g));
        }
    }
}

/// Every move of the stack entry at `j` is settled.
pub open spec fn entry_settled<INFO: VisibleInfo, G: OracleGamestate<INFO>>(
    store: &DataForKnownInfosets<INFO>,
    stack: Seq<(usize, G)>,
    timestamp: Timestamp,
    j: int,
) -> bool {
    &&& store.entry(stack[j].0 as int).terminal_utility is None
    &&& forall|mi: int|
        0 <= mi < store.entry(stack[j].0 as int).moves.len() ==> #[trigger] move_settled(
            store,
            stack,
            timestamp,
            j,
            mi,
        )
}

/// The stack fits the table, and every entry marked in `expanded` has all
/// its moves settled.
pub open spec fn stack_invariant<INFO: VisibleInfo, G: OracleGamestate<INFO>>(
    store: &DataForKnownInfosets<INFO>,
    stack: Seq<(usize, G)>,
    expanded: Seq<bool>,
    timestamp: Timestamp,
) -> bool {
    &&& expanded.len() == stack.len()
    &&& forall|j: int| 0 <= j < stack.len() ==> #[trigger] stack_entry_ok(store, stack, j)
    &&& forall|j: int|
        0 <= j < stack.len() && expanded[j] ==> #[trigger] entry_settled(store, stack, timestamp, j)
}

/// The value of the information set of the state the traversal began in is
/// known, or that state is still at the bottom of the stack.
pub open spec fn root_invariant<INFO: VisibleInfo, G: OracleGamestate<INFO>>(
    store: &DataForKnownInfosets<INFO>,
    stack: Seq<(usize, G)>,
    timestamp: Timestamp,
    root: INFO,
) -> bool {
    &&& store.index().contains_key(root)
    &&& {
        ||| store.entry(store.index()[root] as int).spec_is_ready(timestamp)
        ||| stack.len() > 0 && stack[0].0 == store.index()[root]
    }
}

pub proof fn lemma_store_monotone_reflexive<INFO: VisibleInfo>(
    store: &DataForKnownInfosets<INFO>,
    timestamp: Timestamp,
)
    ensures
        store_monotone(store, store, timestamp),
{
}

pub proof fn lemma_store_monotone_transitive<INFO: VisibleInfo>(
    a: &DataForKnownInfosets<INFO>,
    b: &DataForKnownInfosets<INFO>,
    c: &DataForKnownInfosets<INFO>,
    timestamp: Timestamp,
)
    requires
        timestamp.wf(),
        store_monotone(a, b, timestamp),
        store_monotone(b, c, timestamp),
    ensures
        store_monotone(a, c, timestamp),
{
    assert forall|i: int| 0 <= i < a.len() implies step_relation::entry_monotone(
        a.entry(i),
        #[trigger] c.entry(i),
        timestamp,
    ) by {
        assert(step_relation::entry_monotone(a.entry(i), b.entry(i), timestamp));
        assert(step_relation::entry_monotone(b.entry(i), c.entry(i), timestamp));
        let (ea, eb, ec) = (a.entry(i), b.entry(i), c.entry(i));
        step_relation::lemma_slots_monotone_transitive(
            ea.counterfactual_for_current_iteration,
            eb.counterfactual_for_current_iteration,
            ec.counterfactual_for_current_iteration,
            timestamp,
        );
        assert forall|mi: int| 0 <= mi < ea.moves.len() implies step_relation::move_monotone(
            ea.moves[mi],
            #[trigger] ec.moves[mi],
            timestamp,
        ) by {
            assert(step_relation::move_monotone(ea.moves[mi], eb.moves[mi], timestamp));
            assert(step_relation::move_monotone(eb.moves[mi], ec.moves[mi], timestamp));
            step_relation::lemma_slots_monotone_transitive(
                ea.moves[mi].d.utility_after_move,
                eb.moves[mi].d.utility_after_move,
                ec.moves[mi].d.utility_after_move,
                timestamp,
            );
        }
    }
}

/// Where one entry takes a step and no other entry changes, all that was
/// known stays known.
pub proof fn lemma_entry_change_monotone<INFO: VisibleInfo>(
    before: &DataForKnownInfosets<INFO>,
    after: &DataForKnownInfosets<INFO>,
    d: int,
    timestamp: Timestamp,
    gamestate_probability: Probability,
    weight: int,
)
    requires
        timestamp.wf(),
        weight >= 0,
        before.wf(),
        after.extends(before),
        0 <= d < before.len(),
        forall|i: int| 0 <= i < before.len() && i != d ==> #[trigger] after.entry(i) == before.entry(i),
        step_relation::entry_step(
            before.entry(d),
            after.entry(d),
            timestamp,
            gamestate_probability,
            weight,
        ),
    ensures
        store_monotone(before, after, timestamp),
{
    assert forall|i: int| 0 <= i < before.len() implies step_relation::entry_monotone(
        before.entry(i),
        #[trigger] after.entry(i),
        timestamp,
    ) by {
        if i == d {
            assert(before.entry(d).wf());
            step_relation::lemma_step_is_monotone(
                before.entry(d),
                after.entry(d),
                timestamp,
                gamestate_probability,
                weight,
            );
        } else {
            assert(after.entry(i) == before.entry(i));
        }
    }
}

/// A settled move stays settled while the table only learns and the stack
/// above it only loses entries whose value has become known.
pub proof fn lemma_settled_preserved<INFO: VisibleInfo, G: OracleGamestate<INFO>>(
    before: &DataForKnownInfosets<INFO>,
    after: &DataForKnownInfosets<INFO>,
    stack_before: Seq<(usize, G)>,
    stack_after: Seq<(usize, G)>,
    timestamp: Timestamp,
    j: int,
    mi: int,
)
    requires
        store_monotone(before, after, timestamp),
        0 <= j < stack_before.len(),
        j < stack_after.len(),
        stack_after[j] == stack_before[j],
        stack_before[j].0 < before.len(),
        0 <= mi < before.entry(stack_before[j].0 as int).moves.len(),
        before.wf(),
        move_settled(before, stack_before, timestamp, j, mi),
        forall|j2: int|
            j < j2 < stack_before.len() ==> {
                ||| j2 < stack_after.len() && stack_after[j2].0 == (#[trigger] stack_before[j2]).0
                ||| stack_before[j2].0 < before.len() && after.entry(
                    stack_before[j2].0 as int,
                ).spec_is_ready(timestamp)
            },
    ensures
        move_settled(after, stack_after, timestamp, j, mi),
{
    let d = stack_before[j].0 as int;
    let e0 = before.entry(d);
    let e1 = after.entry(d);
    assert(step_relation::entry_monotone(e0, e1, timestamp));
    assert(e1.moves[mi].m == e0.moves[mi].m);
    let child = stack_before[j].1.spec_advance(e0.moves[mi].m).spec_info();
    if e0.moves[mi].d.utility_after_move.spec_ready(timestamp) {
    } else {
        assert(before.index().contains_key(child));
        let c = before.index()[child] as int;
        assert(after.index().contains_key(child) && after.index()[child] == c);
        assert(c < before.len());
        assert(step_relation::entry_monotone(before.entry(c), after.entry(c), timestamp));
        if before.entry(c).spec_is_ready(timestamp) {
        } else {
            let j2 = choose|j2: int|
                j < j2 < stack_before.len() && (#[trigger] stack_before[j2]).0 == before.index()[child];
            if j2 < stack_after.len() && stack_after[j2].0 == stack_before[j2].0 {
                assert(stack_after[j2].0 == after.index()[child]);
            } else {
                assert(after.entry(c).spec_is_ready(timestamp));
            }
        }
    }
}

/// After the moves of the pending entry at `d` were gone through, every
/// entry still has taken a step from where it started; the entries added
/// start from themselves.
pub proof fn lemma_based_on_after_scan<INFO: VisibleInfo>(
    start: &DataForKnownInfosets<INFO>,
    before: &DataForKnownInfosets<INFO>,
    after: &DataForKnownInfosets<INFO>,
    base: Seq<InfoSetStatistics<INFO>>,
    d: int,
    timestamp: Timestamp,
    gamestate_probability: Probability,
    weight: int,
)
    requires
        timestamp.wf(),
        before.wf(),
        after.wf(),
        based_on(start, before, base, timestamp, gamestate_probability, weight),
        0 <= d < before.len(),
        !before.entry(d).spec_is_ready(timestamp),
        step_relation::scan_delta(before, after, d, timestamp),
    ensures
        based_on(
            start,
            after,
            base + Seq::new(
                (after.len() - before.len()) as nat,
                |i: int| after.entry(before.len() + i),
            ),
            timestamp,
            gamestate_probability,
            weight,
        ),
        !after.entry(d).spec_is_ready(timestamp),
{
    let added = Seq::new((after.len() - before.len()) as nat, |i: int| after.entry(before.len() + i));
    let grown = base + added;
    assert forall|i: int| 0 <= i < after.len() implies step_relation::entry_step(
        grown[i],
        #[trigger] after.entry(i),
        timestamp,
        gamestate_probability,
        weight,
    ) by {
        if i < before.len() {
            assert(grown[i] == base[i]);
            assert(step_relation::entry_step(
                base[i],
                before.entry(i),
                timestamp,
                gamestate_probability,
                weight,
            ));
            if i == d {
                step_relation::lemma_step_then_pending(
                    base[i],
                    before.entry(i),
                    after.entry(i),
                    timestamp,
                    gamestate_probability,
                    weight,
                );
            } else {
                assert(after.entry(i) == before.entry(i));
            }
        } else {
            assert(grown[i] == added[i - before.len()]);
            assert(after.entry(i).fresh());
            step_relation::lemma_entry_step_reflexive(
                after.entry(i),
                timestamp,
                gamestate_probability,
                weight,
            );
        }
    }
    assert forall|i: int| 0 <= i < start.len() implies #[trigger] grown[i] == start.entry(i) by {
        assert(grown[i] == base[i]);
    }
    assert forall|i: int| start.len() <= i < grown.len() implies (#[trigger] grown[i]).fresh()
        && grown[i].wf() by {
        if i < before.len() {
            assert(grown[i] == base[i]);
        } else {
            assert(grown[i] == added[i - before.len()]);
            assert(after.entry(i).fresh());
            assert(after.entry(i).wf());
        }
    }
    assert forall|k: INFO| #[trigger] start.index().contains_key(k) implies after.index().contains_key(
        k,
    ) && after.index()[k] == start.index()[k] by {
        assert(before.index().contains_key(k));
    }
}

/// After the pending entry at `d` was completed, every entry still has
/// taken a step from where it started.
pub proof fn lemma_based_on_after_completion<INFO: VisibleInfo>(
    start: &DataForKnownInfosets<INFO>,
    before: &DataForKnownInfosets<INFO>,
    after: &DataForKnownInfosets<INFO>,
    base: Seq<InfoSetStatistics<INFO>>,
    d: int,
    timestamp: Timestamp,
    gamestate_probability: Probability,
    weight: int,
)
    requires
        timestamp.wf(),
        based_on(start, before, base, timestamp, gamestate_probability, weight),
        0 <= d < before.len(),
        after.len() == before.len(),
        after.index() == before.index(),
        forall|i: int| 0 <= i < before.len() && i != d ==> #[trigger] after.entry(i) == before.entry(i),
        !before.entry(d).spec_is_ready(timestamp),
        after.entry(d).spec_is_ready(timestamp),
        step_relation::entry_completed(
            before.entry(d),
            after.entry(d),
            timestamp,
            gamestate_probability,
            weight,
        ),
    ensures
        based_on(start, after, base, timestamp, gamestate_probability, weight),
{
    assert forall|i: int| 0 <= i < after.len() implies step_relation::entry_step(
        base[i],
        #[trigger] after.entry(i),
        timestamp,
        gamestate_probability,
        weight,
    ) by {
        assert(step_relation::entry_step(
            base[i],
            before.entry(i),
            timestamp,
            gamestate_probability,
            weight,
        ));
        if i == d {
            step_relation::lemma_step_then_completed(
                base[i],
                before.entry(i),
                after.entry(i),
                timestamp,
                gamestate_probability,
                weight,
            );
        } else {
            assert(after.entry(i) == before.entry(i));
        }
    }
}

/// A table that has grown out of another in one traversal has been
/// traversed.
pub proof fn lemma_based_on_is_traversed<INFO: VisibleInfo>(
    start: &DataForKnownInfosets<INFO>,
    now: &DataForKnownInfosets<INFO>,
    base: Seq<InfoSetStatistics<INFO>>,
    timestamp: Timestamp,
    gamestate_probability: Probability,
    weight: int,
)
    requires
        based_on(start, now, base, timestamp, gamestate_probability, weight),
    ensures
        traversed(start, now, timestamp, gamestate_probability, weight),
{
    assert forall|i: int| 0 <= i < start.len() implies step_relation::entry_step(
        start.entry(i),
        #[trigger] now.entry(i),
        timestamp,
        gamestate_probability,
        weight,
    ) by {
        assert(base[i] == start.entry(i));
    }
    assert forall|i: int| start.len() <= i < now.len() implies entry_grown(
        #[trigger] now.entry(i),
        timestamp,
        gamestate_probability,
        weight,
    ) by {
        let made = base[i];
        assert(made.fresh() && made.wf() && step_relation::entry_step(
            made,
            now.entry(i),
            timestamp,
            gamestate_probability,
            weight,
        ));
    }
}

/// The stack stays in order when its top entry is taken off, the value of
/// that entry being known.
pub proof fn lemma_stack_invariant_after_pop<INFO: VisibleInfo, G: OracleGamestate<INFO>>(
    before: &DataForKnownInfosets<INFO>,
    after: &DataForKnownInfosets<INFO>,
    stack: Seq<(usize, G)>,
    expanded: Seq<bool>,
    timestamp: Timestamp,
    root: INFO,
)
    requires
        before.wf(),
        stack.len() > 0,
        stack_invariant(before, stack, expanded, timestamp),
        root_invariant(before, stack, timestamp, root),
        store_monotone(before, after, timestamp),
        after.entry(stack.last().0 as int).spec_is_ready(timestamp),
    ensures
        stack_invariant(after, stack.drop_last(), expanded.drop_last(), timestamp),
        root_invariant(after, stack.drop_last(), timestamp, root),
{
    let below = stack.drop_last();
    let flags = expanded.drop_last();
    let t = stack.len() - 1;
    assert(stack_entry_ok(before, stack, t));
    assert forall|j: int| 0 <= j < below.len() implies #[trigger] stack_entry_ok(after, below, j) by {
        assert(stack_entry_ok(before, stack, j));
    }
    assert forall|j: int| 0 <= j < below.len() && flags[j] implies #[trigger] entry_settled(
        after,
        below,
        timestamp,
        j,
    ) by {
        assert(stack_entry_ok(before, stack, j));
        assert(entry_settled(before, stack, timestamp, j));
        let d = stack[j].0 as int;
        assert(step_relation::entry_monotone(before.entry(d), after.entry(d), timestamp));
        assert forall|mi: int| 0 <= mi < after.entry(d).moves.len() implies #[trigger] move_settled(
            after,
            below,
            timestamp,
            j,
            mi,
        ) by {
            assert(move_settled(before, stack, timestamp, j, mi));
            assert forall|j2: int| j < j2 < stack.len() implies {
                ||| j2 < below.len() && below[j2].0 == (#[trigger] stack[j2]).0
                ||| stack[j2].0 < before.len() && after.entry(stack[j2].0 as int).spec_is_ready(
                    timestamp,
                )
            } by {
                assert(stack_entry_ok(before, stack, j2));
            }
            lemma_settled_preserved(before, after, stack, below, timestamp, j, mi);
        }
    }
    let r = before.index()[root] as int;
    assert(step_relation::entry_monotone(before.entry(r), after.entry(r), timestamp));
}

/// The stack stays in order when, above its top entry, the successors of
/// that entry are put whose value is not yet known; the top entry has then
/// unfolded.
pub proof fn lemma_stack_invariant_after_push<INFO: VisibleInfo, G: OracleGamestate<INFO>>(
    before: &DataForKnownInfosets<INFO>,
    after: &DataForKnownInfosets<INFO>,
    stack: Seq<(usize, G)>,
    expanded: Seq<bool>,
    pushed: Seq<(usize, G)>,
    timestamp: Timestamp,
    root: INFO,
)
    requires
        before.wf(),
        stack.len() > 0,
        stack_invariant(before, stack, expanded, timestamp),
        root_invariant(before, stack, timestamp, root),
        store_monotone(before, after, timestamp),
        after.entry(stack.last().0 as int).terminal_utility is None,
        forall|j: int|
            0 <= j < pushed.len() ==> {
                &&& (#[trigger] pushed[j]).1.valid()
                &&& after.index().contains_key(pushed[j].1.spec_info())
                &&& after.index()[pushed[j].1.spec_info()] == pushed[j].0
            },
        forall|mi: int|
            0 <= mi < after.entry(stack.last().0 as int).moves.len() ==> #[trigger] move_covered(
                after,
                pushed,
                timestamp,
                stack.last().0 as int,
                mi,
                stack.last().1,
            ),
    ensures
        stack_invariant(
            after,
            stack + pushed,
            expanded.drop_last().push(true) + Seq::new(pushed.len(), |i: int| false),
            timestamp,
        ),
        root_invariant(after, stack + pushed, timestamp, root),
{
    let grown = stack + pushed;
    let flags = expanded.drop_last().push(true) + Seq::new(pushed.len(), |i: int| false);
    let t = stack.len() - 1;
    assert forall|j: int| 0 <= j < grown.len() implies #[trigger] stack_entry_ok(after, grown, j) by {
        if j < stack.len() {
            assert(stack_entry_ok(before, stack, j));
            assert(grown[j] == stack[j]);
        } else {
            assert(grown[j] == pushed[j - stack.len()]);
        }
    }
    assert forall|j: int| 0 <= j < grown.len() && flags[j] implies #[trigger] entry_settled(
        after,
        grown,
        timestamp,
        j,
    ) by {
        if j < t {
            assert(flags[j] == expanded[j]);
            assert(stack_entry_ok(before, stack, j));
            assert(entry_settled(before, stack, timestamp, j));
            let d = stack[j].0 as int;
            assert(grown[j] == stack[j]);
            assert(step_relation::entry_monotone(before.entry(d), after.entry(d), timestamp));
            assert forall|mi: int| 0 <= mi < after.entry(d).moves.len() implies #[trigger] move_settled(
                after,
                grown,
                timestamp,
                j,
                mi,
            ) by {
                assert(move_settled(before, stack, timestamp, j, mi));
                assert forall|j2: int| j < j2 < stack.len() implies {
                    ||| j2 < grown.len() && grown[j2].0 == (#[trigger] stack[j2]).0
                    ||| stack[j2].0 < before.len() && after.entry(stack[j2].0 as int).spec_is_ready(
                        timestamp,
                    )
                } by {
                    assert(grown[j2] == stack[j2]);
                }
                lemma_settled_preserved(before, after, stack, grown, timestamp, j, mi);
            }
        } else if j == t {
            assert(grown[t] == stack[t]);
            let d = stack[t].0 as int;
            assert forall|mi: int| 0 <= mi < after.entry(d).moves.len() implies #[trigger] move_settled(
                after,
                grown,
                timestamp,
                t,
                mi,
            ) by {
                let mv = after.entry(d).moves[mi];
                let child = stack[t].1.spec_advance(mv.m).spec_info();
                assert(move_covered(after, pushed, timestamp, d, mi, stack[t].1));
                if !mv.d.utility_after_move.spec_ready(timestamp) {
                    let w = choose|w: int|
                        0 <= w < pushed.len() && (#[trigger] pushed[w]).0 == after.index()[child];
                    assert(grown[stack.len() + w] == pushed[w]);
                }
            }
        } else {
            assert(!flags[j]);
        }
    }
    let r = before.index()[root] as int;
    assert(step_relation::entry_monotone(before.entry(r), after.entry(r), timestamp));
    assert(grown[0] == stack[0]);
}

/// What holds of an entry across the traversals of iteration `iteration`,
/// whatever states were sampled: its shape and the probabilities of its
/// moves stay, no regret shrinks, and if a value was completed, the entry
/// is marked with the iteration.
pub open spec fn entry_advanced<INFO: VisibleInfo>(
    before: InfoSetStatistics<INFO>,
    after: InfoSetStatistics<INFO>,
    iteration: u32,
) -> bool {
    &&& after.turn_player == before.turn_player
    &&& after.terminal_utility == before.terminal_utility
    &&& after.moves.len() == before.moves.len()
    &&& (after.global_updated_iteration == before.global_updated_iteration
        || after.global_updated_iteration == iteration)
    &&& forall|mi: int|
        0 <= mi < before.moves.len() ==> {
            &&& (#[trigger] after.moves[mi]).m == before.moves[mi].m
            &&& after.moves[mi].d.move_selection_probability
                == before.moves[mi].d.move_selection_probability
            &&& after.moves[mi].d.cumulative_move_regret >= before.moves[mi].d.cumulative_move_regret
        }
}

/// What holds of the table across the traversals of iteration `iteration`:
/// entries are added, none is lost, and every entry has advanced. An added
/// entry is marked with the iteration if a value was completed for it, and
/// with no iteration otherwise.
pub open spec fn store_advanced<INFO: VisibleInfo>(
    before: &DataForKnownInfosets<INFO>,
    after: &DataForKnownInfosets<INFO>,
    iteration: u32,
) -> bool {
    &&& after.extends(before)
    &&& forall|i: int|
        0 <= i < before.len() ==> entry_advanced(before.entry(i), #[trigger] after.entry(i), iteration)
    &&& forall|i: int|
        before.len() <= i < after.len() ==> {
            ||| (#[trigger] after.entry(i)).global_updated_iteration == 0
            ||| after.entry(i).global_updated_iteration == iteration
        }
}

pub proof fn lemma_store_advanced_reflexive<INFO: VisibleInfo>(
    store: &DataForKnownInfosets<INFO>,
    iteration: u32,
)
    ensures
        store_advanced(store, store, iteration),
{
}

pub proof fn lemma_store_advanced_transitive<INFO: VisibleInfo>(
    a: &DataForKnownInfosets<INFO>,
    b: &DataForKnownInfosets<INFO>,
    c: &DataForKnownInfosets<INFO>,
    iteration: u32,
)
    requires
        store_advanced(a, b, iteration),
        store_advanced(b, c, iteration),
    ensures
        store_advanced(a, c, iteration),
{
    assert forall|i: int| 0 <= i < a.len() implies entry_advanced(
        a.entry(i),
        #[trigger] c.entry(i),
        iteration,
    ) by {
        assert(entry_advanced(a.entry(i), b.entry(i), iteration));
        assert(entry_advanced(b.entry(i), c.entry(i), iteration));
        let (ea, eb, ec) = (a.entry(i), b.entry(i), c.entry(i));
        assert forall|mi: int| 0 <= mi < ea.moves.len() implies {
            &&& (#[trigger] ec.moves[mi]).m == ea.moves[mi].m
            &&& ec.moves[mi].d.move_selection_probability == ea.moves[mi].d.move_selection_probability
            &&& ec.moves[mi].d.cumulative_move_regret >= ea.moves[mi].d.cumulative_move_regret
        } by {
            assert(eb.moves[mi].m == ea.moves[mi].m);
            assert(ec.moves[mi].m == eb.moves[mi].m);
        }
    }
    assert forall|i: int| a.len() <= i < c.len() implies {
        ||| (#[trigger] c.entry(i)).global_updated_iteration == 0
        ||| c.entry(i).global_updated_iteration == iteration
    } by {
        if i < b.len() {
            assert(b.entry(i).global_updated_iteration == 0 || b.entry(i).global_updated_iteration
                == iteration);
            assert(entry_advanced(b.entry(i), c.entry(i), iteration));
        }
    }
}

/// An entry that took a step has advanced.
pub proof fn lemma_step_is_advance<INFO: VisibleInfo>(
    before: InfoSetStatistics<INFO>,
    after: InfoSetStatistics<INFO>,
    timestamp: Timestamp,
    gamestate_probability: Probability,
    weight: int,
)
    requires
        timestamp.wf(),
        weight >= 0,
        before.wf(),
        step_relation::entry_step(before, after, timestamp, gamestate_probability, weight),
    ensures
        entry_advanced(before, after, timestamp.cfr_iteration),
{
    step_relation::lemma_step_is_monotone(before, after, timestamp, gamestate_probability, weight);
}

/// A traversed table has advanced.
pub proof fn lemma_traversed_is_advance<INFO: VisibleInfo>(
    before: &DataForKnownInfosets<INFO>,
    after: &DataForKnownInfosets<INFO>,
    timestamp: Timestamp,
    gamestate_probability: Probability,
    weight: int,
)
    requires
        timestamp.wf(),
        weight >= 0,
        before.wf(),
        traversed(before, after, timestamp, gamestate_probability, weight),
    ensures
        store_advanced(before, after, timestamp.cfr_iteration),
{
    assert forall|i: int| 0 <= i < before.len() implies entry_advanced(
        before.entry(i),
        #[trigger] after.entry(i),
        timestamp.cfr_iteration,
    ) by {
        assert(before.entry(i).wf());
        lemma_step_is_advance(
            before.entry(i),
            after.entry(i),
            timestamp,
            gamestate_probability,
            weight,
        );
    }
    assert forall|i: int| before.len() <= i < after.len() implies {
        ||| (#[trigger] after.entry(i)).global_updated_iteration == 0
        ||| after.entry(i).global_updated_iteration == timestamp.cfr_iteration
    } by {
        assert(entry_grown(after.entry(i), timestamp, gamestate_probability, weight));
        let made = choose|made: InfoSetStatistics<INFO>|
            made.fresh() && made.wf() && #[trigger] step_relation::entry_step(
                made,
                after.entry(i),
                timestamp,
                gamestate_probability,
                weight,
            );
        lemma_step_is_advance(made, after.entry(i), timestamp, gamestate_probability, weight);
    }
}

/// A traversal at `timestamp` writes nothing but at the batch place of the
/// timestamp, with its iteration: what was fresh stays fresh, as far as it
/// lies beyond that place or that iteration.
pub proof fn lemma_traversed_keeps_fresh<INFO: VisibleInfo>(
    before: &DataForKnownInfosets<INFO>,
    after: &DataForKnownInfosets<INFO>,
    timestamp: Timestamp,
    gamestate_probability: Probability,
    weight: int,
    iteration: int,
    from: int,
)
    requires
        timestamp.wf(),
        weight >= 0,
        before.wf(),
        traversed(before, after, timestamp, gamestate_probability, weight),
        fresh_from(before, iteration, from),
        timestamp.cfr_iteration <= iteration,
        timestamp.item_within_iteration < from || timestamp.cfr_iteration < iteration,
    ensures
        fresh_from(after, iteration, from),
{
    assert forall|i: int| 0 <= i < after.len() implies entry_fresh(
        #[trigger] after.entry(i),
        iteration,
        from,
    ) by {
        let e1 = after.entry(i);
        if i < before.len() {
            let e0 = before.entry(i);
            assert(e0.wf());
            assert(entry_fresh(e0, iteration, from));
            step_relation::lemma_step_is_monotone(
                e0,
                e1,
                timestamp,
                gamestate_probability,
                weight,
            );
            lemma_monotone_keeps_fresh(e0, e1, timestamp, iteration, from);
        } else {
            assert(entry_grown(e1, timestamp, gamestate_probability, weight));
            let made = choose|made: InfoSetStatistics<INFO>|
                made.fresh() && made.wf() && #[trigger] step_relation::entry_step(
                    made,
                    e1,
                    timestamp,
                    gamestate_probability,
                    weight,
                );
            step_relation::lemma_step_is_monotone(
                made,
                e1,
                timestamp,
                gamestate_probability,
                weight,
            );
            assert(entry_fresh(made, iteration, from)) by {
                assert forall|mi: int| 0 <= mi < made.moves.len() implies slots_fresh(
                    (#[trigger] made.moves[mi]).d.utility_after_move,
                    iteration,
                    from,
                ) by {
                    assert(made.moves[mi].d.fresh());
                }
            }
            lemma_monotone_keeps_fresh(made, e1, timestamp, iteration, from);
        }
    }
}

/// An entry that was fresh beyond the place or the iteration of a
/// timestamp stays so across any part of a traversal at that timestamp.
pub proof fn lemma_monotone_keeps_fresh<INFO: VisibleInfo>(
    before: InfoSetStatistics<INFO>,
    after: InfoSetStatistics<INFO>,
    timestamp: Timestamp,
    iteration: int,
    from: int,
)
    requires
        timestamp.wf(),
        step_relation::entry_monotone(before, after, timestamp),
        entry_fresh(before, iteration, from),
        timestamp.cfr_iteration <= iteration,
        timestamp.item_within_iteration < from || timestamp.cfr_iteration < iteration,
    ensures
        entry_fresh(after, iteration, from),
{
    lemma_slots_keep_fresh(
        before.counterfactual_for_current_iteration,
        after.counterfactual_for_current_iteration,
        timestamp,
        iteration,
        from,
    );
    assert forall|mi: int| 0 <= mi < after.moves.len() implies slots_fresh(
        (#[trigger] after.moves[mi]).d.utility_after_move,
        iteration,
        from,
    ) by {
        assert(step_relation::move_monotone(before.moves[mi], after.moves[mi], timestamp));
        assert(slots_fresh(before.moves[mi].d.utility_after_move, iteration, from));
        lemma_slots_keep_fresh(
            before.moves[mi].d.utility_after_move,
            after.moves[mi].d.utility_after_move,
            timestamp,
            iteration,
            from,
        );
    }
}

pub proof fn lemma_slots_keep_fresh(
    before: crate::cfr::strategy_generation::workspace_data::batch_item_data::DataPerBatchItem<
        crate::cfr::game_model::UtilityForAllPlayers,
    >,
    after: crate::cfr::strategy_generation::workspace_data::batch_item_data::DataPerBatchItem<
        crate::cfr::game_model::UtilityForAllPlayers,
    >,
    timestamp: Timestamp,
    iteration: int,
    from: int,
)
    requires
        timestamp.wf(),
        step_relation::slots_monotone(before, after, timestamp),
        slots_fresh(before, iteration, from),
        timestamp.cfr_iteration <= iteration,
        timestamp.item_within_iteration < from || timestamp.cfr_iteration < iteration,
    ensures
        slots_fresh(after, iteration, from),
{
    assert forall|s: int| 0 <= from <= s < 4 implies #[trigger] after.updated_iteration_per_work_item@[s]
        < iteration by {
        assert(before.updated_iteration_per_work_item@[s] < iteration);
    }
}

} // verus!
