//! What one iteration does to the table: a traversal for every place of
//! its batch, one after the other.

use vstd::prelude::*;
use crate::cfr::game_model::{OracleGamestate, Probability, VisibleInfo, PROBABILITY_ONE};
use crate::cfr::strategy_generation::cfr_algorithm_impl::traversal_invariant;
use crate::cfr::strategy_generation::config::SolverConfig;
use crate::cfr::strategy_generation::workspace_data::data_for_known_infosets::DataForKnownInfosets;
use crate::cfr::strategy_generation::workspace_data::timestamp::Timestamp;

verus! {

/// The generation of place `i` of the batch of iteration `iteration`.
pub open spec fn place(iteration: int, i: int) -> Timestamp {
    Timestamp { cfr_iteration: iteration as u32, item_within_iteration: i as usize }
}

/// Whether `tables` are the tables before and after each traversal of
/// the batch of iteration `iteration`, from `before` to `after`, the
/// state of place `i` having been drawn with `probabilities[i]`, one of
/// the probabilities `reported`. Before a traversal nothing is known for
/// its place; after it the entry of `root` has its value for the place,
/// and the payoffs kept with moves for the place are values of
/// successors.
pub open spec fn batch_chain<INFO: VisibleInfo, G: OracleGamestate<INFO>>(
    tables: Seq<DataForKnownInfosets<INFO>>,
    probabilities: Seq<Probability>,
    reported: Set<Probability>,
    root: INFO,
    before: &DataForKnownInfosets<INFO>,
    after: &DataForKnownInfosets<INFO>,
    iteration: int,
    config: SolverConfig,
) -> bool {
    &&& tables.len() == config.batch_size + 1
    &&& probabilities.len() == config.batch_size
    &&& tables[0] == *before
    &&& tables[config.batch_size as int] == *after
    &&& forall|i: int|
        0 <= i < config.batch_size ==> {
            &&& (#[trigger] probabilities[i]) <= PROBABILITY_ONE
            &&& reported.contains(probabilities[i])
            &&& tables[i].wf()
            &&& tables[i + 1].wf()
            &&& traversal_invariant::fresh_from(&tables[i], iteration, i)
            &&& tables[i + 1].index().contains_key(root)
            &&& tables[i + 1].entry(tables[i + 1].index()[root] as int).spec_is_ready(
                place(iteration, i),
            )
            &&& traversal_invariant::caches_follow::<INFO, G>(&tables[i + 1], place(iteration, i))
            &&& traversal_invariant::traversed(
                &tables[i],
                &tables[i + 1],
                place(iteration, i),
                probabilities[i],
                config.spec_weight(place(iteration, i)) as int,
            )
        }
}

/// The table `after` is the table `before` after the batch of iteration
/// `iteration`: one traversal for every place of the batch, each of a
/// state drawn at `root` with one of the probabilities `reported`.
pub open spec fn batch_traversed<INFO: VisibleInfo, G: OracleGamestate<INFO>>(
    reported: Set<Probability>,
    root: INFO,
    before: &DataForKnownInfosets<INFO>,
    after: &DataForKnownInfosets<INFO>,
    iteration: int,
    config: SolverConfig,
) -> bool {
    exists|tables: Seq<DataForKnownInfosets<INFO>>, probabilities: Seq<Probability>| #[trigger]
        batch_chain::<INFO, G>(
            tables,
            probabilities,
            reported,
            root,
            before,
            after,
            iteration,
            config,
        )
}

/// The entry of `root` has a value for every place of the batch of
/// iteration `iteration`, up to place `places`.
pub open spec fn root_ready_until<INFO: VisibleInfo>(
    table: &DataForKnownInfosets<INFO>,
    root: INFO,
    iteration: int,
    places: int,
) -> bool {
    &&& places > 0 ==> table.index().contains_key(root)
    &&& forall|i: int|
        0 <= i < places ==> table.entry(table.index()[root] as int).spec_is_ready(
            #[trigger] place(iteration, i),
        )
}

/// The entry of `root` has a value for every place of the batch of
/// iteration `iteration`.
pub open spec fn root_ready<INFO: VisibleInfo>(
    table: &DataForKnownInfosets<INFO>,
    root: INFO,
    iteration: int,
    config: SolverConfig,
) -> bool {
    root_ready_until(table, root, iteration, config.batch_size as int)
}

} // verus!
