//! Driving a solve: iterations of traversal and strategy update.

use vstd::prelude::*;
use crate::cfr::game_model::gamestate_sampler;
use crate::cfr::game_model::{GamestateSampler, OracleGamestate, Probability, VisibleInfo};
use crate::cfr::strategy_generation::cfr_algorithm_impl::accumulate_regret::add_to_regret;
use crate::cfr::strategy_generation::cfr_algorithm_impl::iteration_relation;
use crate::cfr::strategy_generation::cfr_algorithm_impl::traversal_invariant;
use crate::cfr::strategy_generation::config::SolverConfig;
use crate::cfr::strategy_generation::strategy::{Strategy, StrategyForInfoView};
use crate::cfr::strategy_generation::update_strategy;
use crate::cfr::strategy_generation::update_strategy::update_strategy_from_regret;
use crate::cfr::strategy_generation::workspace_data::data_for_infoset::{
    DataForInfoSet, InfoSetStatistics,
};
use crate::cfr::strategy_generation::workspace_data::data_for_known_infosets::DataForKnownInfosets;
use crate::cfr::strategy_generation::workspace_data::StrategyGenerationProgress;

verus! {

/// What holds of an entry across iterations: its shape stays, and no
/// regret shrinks.
pub open spec fn entry_refined<INFO: VisibleInfo>(
    before: InfoSetStatistics<INFO>,
    after: InfoSetStatistics<INFO>,
) -> bool {
    &&& after.turn_player == before.turn_player
    &&& after.terminal_utility == before.terminal_utility
    &&& after.moves.len() == before.moves.len()
    &&& forall|mi: int|
        0 <= mi < before.moves.len() ==> {
            &&& (#[trigger] after.moves[mi]).m == before.moves[mi].m
            &&& after.moves[mi].d.cumulative_move_regret >= before.moves[mi].d.cumulative_move_regret
        }
}

/// What holds of the table across iterations: entries are added, none is
/// lost, and every entry is refined.
pub open spec fn store_refined<INFO: VisibleInfo>(
    before: &DataForKnownInfosets<INFO>,
    after: &DataForKnownInfosets<INFO>,
) -> bool {
    &&& after.extends(before)
    &&& forall|i: int|
        0 <= i < before.len() ==> entry_refined(before.entry(i), #[trigger] after.entry(i))
}

pub proof fn lemma_store_refined_transitive<INFO: VisibleInfo>(
    a: &DataForKnownInfosets<INFO>,
    b: &DataForKnownInfosets<INFO>,
    c: &DataForKnownInfosets<INFO>,
)
    requires
        store_refined(a, b),
        store_refined(b, c),
    ensures
        store_refined(a, c),
{
    assert forall|i: int| 0 <= i < a.len() implies entry_refined(a.entry(i), #[trigger] c.entry(i)) by {
        assert(entry_refined(a.entry(i), b.entry(i)));
        assert(entry_refined(b.entry(i), c.entry(i)));
        let (ea, eb, ec) = (a.entry(i), b.entry(i), c.entry(i));
        assert forall|mi: int| 0 <= mi < ea.moves.len() implies {
            &&& (#[trigger] ec.moves[mi]).m == ea.moves[mi].m
            &&& ec.moves[mi].d.cumulative_move_regret >= ea.moves[mi].d.cumulative_move_regret
        } by {
            assert(eb.moves[mi].m == ea.moves[mi].m);
            assert(ec.moves[mi].m == eb.moves[mi].m);
        }
    }
}

/// The table `after` is the table `mid` after the strategy update of
/// iteration `iteration`: the probabilities of every entry that completed
/// a value in that iteration are recomputed from its regrets; nothing
/// else has changed.
pub open spec fn strategy_updated<INFO: VisibleInfo>(
    mid: &DataForKnownInfosets<INFO>,
    after: &DataForKnownInfosets<INFO>,
    iteration: int,
) -> bool {
    &&& after.len() == mid.len()
    &&& after.index() == mid.index()
    &&& forall|i: int|
        0 <= i < mid.len() ==> (if mid.entry(i).global_updated_iteration == iteration {
            update_strategy::entry_matched(mid.entry(i), #[trigger] after.entry(i))
        } else {
            after.entry(i) == mid.entry(i)
        })
}

/// Whether iteration `iteration` takes the table `before` to `after` by
/// way of `mid`: the traversals of its batch lead to `mid`, where the
/// entry of `root` has a value for every place of the batch, and the
/// strategy update leads on to `after`.
pub open spec fn iteration_by_way_of<INFO: VisibleInfo, G: OracleGamestate<INFO>>(
    reported: Set<Probability>,
    before: &DataForKnownInfosets<INFO>,
    mid: &DataForKnownInfosets<INFO>,
    after: &DataForKnownInfosets<INFO>,
    root: INFO,
    iteration: int,
    config: SolverConfig,
) -> bool {
    &&& iteration_relation::batch_traversed::<INFO, G>(
        reported,
        root,
        before,
        mid,
        iteration,
        config,
    )
    &&& iteration_relation::root_ready(mid, root, iteration, config)
    &&& strategy_updated(mid, after, iteration)
}

/// The table `after` is the table `before` after iteration `iteration`
/// of a solve that draws its states at the information set `root`: the
/// traversals of the batch, then the strategy update.
pub open spec fn iteration_done<INFO: VisibleInfo, G: OracleGamestate<INFO>>(
    reported: Set<Probability>,
    before: &DataForKnownInfosets<INFO>,
    after: &DataForKnownInfosets<INFO>,
    root: INFO,
    iteration: int,
    config: SolverConfig,
) -> bool {
    exists|mid: DataForKnownInfosets<INFO>| #[trigger]
        iteration_by_way_of::<INFO, G>(reported, before, &mid, after, root, iteration, config)
}

/// The table `after` is the table `before` after the `n` iterations from
/// iteration `first` on.
pub open spec fn refined<INFO: VisibleInfo, G: OracleGamestate<INFO>>(
    reported: Set<Probability>,
    before: &DataForKnownInfosets<INFO>,
    after: &DataForKnownInfosets<INFO>,
    root: INFO,
    first: int,
    n: nat,
    config: SolverConfig,
) -> bool
    decreases n,
{
    if n == 0 {
        *after == *before
    } else {
        exists|mid: DataForKnownInfosets<INFO>|
            #[trigger] iteration_done::<INFO, G>(reported, before, &mid, root, first, config)
                && refined::<INFO, G>(
                reported,
                &mid,
                after,
                root,
                first + 1,
                (n - 1) as nat,
                config,
            )
    }
}

/// After `n` iterations, one more.
pub proof fn lemma_refined_one_more<INFO: VisibleInfo, G: OracleGamestate<INFO>>(
    reported: Set<Probability>,
    a: &DataForKnownInfosets<INFO>,
    b: &DataForKnownInfosets<INFO>,
    c: &DataForKnownInfosets<INFO>,
    root: INFO,
    first: int,
    n: nat,
    config: SolverConfig,
)
    requires
        refined::<INFO, G>(reported, a, b, root, first, n, config),
        iteration_done::<INFO, G>(reported, b, c, root, first + n, config),
    ensures
        refined::<INFO, G>(reported, a, c, root, first, n + 1, config),
    decreases n,
{
    if n == 0 {
        assert(iteration_done::<INFO, G>(reported, a, c, root, first, config));
        assert(refined::<INFO, G>(reported, c, c, root, first + 1, 0, config));
    } else {
        let mid = choose|mid: DataForKnownInfosets<INFO>|
            #[trigger] iteration_done::<INFO, G>(reported, a, &mid, root, first, config)
                && refined::<INFO, G>(reported, &mid, b, root, first + 1, (n - 1) as nat, config);
        lemma_refined_one_more::<INFO, G>(
            reported,
            &mid,
            b,
            c,
            root,
            first + 1,
            (n - 1) as nat,
            config,
        );
        assert(iteration_done::<INFO, G>(reported, a, &mid, root, first, config)
            && refined::<INFO, G>(reported, &mid, c, root, first + 1, n, config));
    }
}

/// The table `after` is what `n` iterations, counted from one, make of
/// a table that holds nothing.
pub open spec fn solved<INFO: VisibleInfo, G: OracleGamestate<INFO>>(
    reported: Set<Probability>,
    after: &DataForKnownInfosets<INFO>,
    root: INFO,
    n: nat,
    config: SolverConfig,
) -> bool {
    exists|start: DataForKnownInfosets<INFO>|
        start.len() == 0 && start.index() == Map::<INFO, usize>::empty() && #[trigger] refined::<
            INFO,
            G,
        >(
            reported,
            &start,
            after,
            root,
            1,
            n,
            config,
        )
}

/// A solve in progress.
#[verifier::reject_recursive_types(INFO)]
pub struct StrategyGenerator<INFO: VisibleInfo> {
    /// The number of the next iteration; iterations count from one.
    pub iterations: u32,
    pub config: SolverConfig,
    pub strategy_generation_progress: StrategyGenerationProgress<INFO>,
}

impl<INFO: VisibleInfo> StrategyGenerator<INFO> {
    /// Between iterations no entry awaits its strategy update, and no
    /// entry is marked with an iteration yet to come.
    pub open spec fn wf(&self) -> bool {
        &&& self.iterations >= 1
        &&& self.config.wf()
        &&& self.strategy_generation_progress.wf()
        &&& self.strategy_generation_progress.dirty().len() == 0
        &&& forall|i: int|
            0 <= i < self.strategy_generation_progress.len() ==> (
            #[trigger] self.strategy_generation_progress.data_for_known_infosets.entry(
                i,
            )).global_updated_iteration < self.iterations
        &&& traversal_invariant::fresh_from(
            &self.strategy_generation_progress.data_for_known_infosets,
            self.iterations as int,
            0,
        )
    }

    /// The table of the information sets met so far.
    pub open spec fn store(&self) -> &DataForKnownInfosets<INFO> {
        &self.strategy_generation_progress.data_for_known_infosets
    }

    /// A solve that has not begun, with the default settings.
    pub fn new() -> (generator: Self)
        ensures
            generator.wf(),
            generator.iterations == 1,
            generator.config == SolverConfig::spec_new(),
            generator.store().len() == 0,
            generator.store().index() == Map::<INFO, usize>::empty(),
    {
        Self::with_config(SolverConfig::new())
    }

    /// A solve that has not begun, with the settings `config`.
    pub fn with_config(config: SolverConfig) -> (generator: Self)
        requires
            config.wf(),
        ensures
            generator.wf(),
            generator.iterations == 1,
            generator.config == config,
            generator.store().len() == 0,
            generator.store().index() == Map::<INFO, usize>::empty(),
    {
        Self { iterations: 1, config, strategy_generation_progress: StrategyGenerationProgress::new() }
    }

    /// One iteration: traverses the game below a batch of states drawn from
    /// `starting_gamestate_sampler`, then recomputes the strategy of every
    /// information set that completed a value. Returns the sampler.
    pub fn advance_strategy_once<G: OracleGamestate<INFO>, GENERATOR: GamestateSampler<INFO, G>>(
        &mut self,
        starting_gamestate_sampler: GENERATOR,
    ) -> (sampler: GENERATOR)
        requires
            old(self).wf(),
            old(self).iterations < u32::MAX,
            starting_gamestate_sampler.valid(),
        ensures
            final(self).wf(),
            final(self).iterations == old(self).iterations + 1,
            final(self).config == old(self).config,
            sampler.valid(),
            sampler.info() == starting_gamestate_sampler.info(),
            store_refined(old(self).store(), final(self).store()),
            final(self).store().index().contains_key(starting_gamestate_sampler.info()),
            forall|p: Probability| #[trigger]
                sampler.reports(p) == starting_gamestate_sampler.reports(p),
            iteration_done::<INFO, G>(
                gamestate_sampler::reported(starting_gamestate_sampler),
                old(self).store(),
                final(self).store(),
                starting_gamestate_sampler.info(),
                old(self).iterations as int,
                old(self).config,
            ),
    {
        let iteration = self.iterations;
        self.iterations = iteration + 1;
        let ghost start = self.strategy_generation_progress.data_for_known_infosets;
        proof {
            assert(self.strategy_generation_progress.dirty_consistent(iteration)) by {
                assert forall|i: usize|
                    self.strategy_generation_progress.dirty().contains(i) <==> i
                        < self.strategy_generation_progress.len() && (
                    #[trigger] self.strategy_generation_progress.entry(
                        i as int,
                    )).global_updated_iteration == iteration by {
                    if i < self.strategy_generation_progress.len() {
                        assert(self.strategy_generation_progress.data_for_known_infosets.entry(
                            i as int,
                        ).global_updated_iteration < iteration);
                    }
                }
            }
        }
        let config = self.config;
        let sampler = add_to_regret(
            starting_gamestate_sampler,
            &mut self.strategy_generation_progress,
            iteration,
            &config,
        );
        let ghost traversed = self.strategy_generation_progress.data_for_known_infosets;
        let ghost queue = self.strategy_generation_progress.dirty();
        proof {
            assert forall|k: int| 0 <= k < queue.len() implies #[trigger] queue[k]
                < self.strategy_generation_progress.len() by {
                assert(queue.contains(queue[k]));
                let e = self.strategy_generation_progress.entry(queue[k] as int);
            }
        }
        let ghost waiting = self.strategy_generation_progress;
        update_strategy_from_regret(&mut self.strategy_generation_progress);
        proof {
            let updated = self.strategy_generation_progress.data_for_known_infosets;
            assert(strategy_updated(&traversed, &updated, iteration as int)) by {
                assert forall|i: int| 0 <= i < traversed.len() implies (if traversed.entry(
                    i,
                ).global_updated_iteration == iteration {
                    update_strategy::entry_matched(traversed.entry(i), #[trigger] updated.entry(i))
                } else {
                    updated.entry(i) == traversed.entry(i)
                }) by {
                    let u = i as usize;
                    assert(waiting.dirty().contains(u) <==> u < waiting.len() && waiting.entry(
                        u as int,
                    ).global_updated_iteration == iteration);
                    assert(updated.entry(u as int) == updated.entry(i));
                }
            }
            assert(iteration_by_way_of::<INFO, G>(
                gamestate_sampler::reported(starting_gamestate_sampler),
                &start,
                &traversed,
                &updated,
                starting_gamestate_sampler.info(),
                iteration as int,
                config,
            ));
            assert forall|i: int| 0 <= i < updated.len() implies (#[trigger] updated.entry(
                i,
            )).global_updated_iteration < self.iterations by {
                let e_t = traversed.entry(i);
                assert(update_strategy::entry_rematched(e_t, updated.entry(i)));
                if i < start.len() {
                    assert(traversal_invariant::entry_advanced(start.entry(i), e_t, iteration));
                }
            }
            assert forall|i: int|
                0 <= i < updated.len() implies traversal_invariant::entry_fresh(
                #[trigger] updated.entry(i),
                self.iterations as int,
                0,
            ) by {
                let e_t = traversed.entry(i);
                let e_u = updated.entry(i);
                assert(update_strategy::entry_rematched(e_t, e_u));
                assert(traversal_invariant::entry_fresh(e_t, self.iterations as int, 0));
                assert forall|mi: int|
                    0 <= mi < e_u.moves.len() implies traversal_invariant::slots_fresh(
                    (#[trigger] e_u.moves[mi]).d.utility_after_move,
                    self.iterations as int,
                    0,
                ) by {
                    assert(traversal_invariant::slots_fresh(
                        e_t.moves[mi].d.utility_after_move,
                        self.iterations as int,
                        0,
                    ));
                }
            }
            assert forall|i: int| 0 <= i < start.len() implies entry_refined(
                start.entry(i),
                #[trigger] updated.entry(i),
            ) by {
                let e_s = start.entry(i);
                let e_t = traversed.entry(i);
                let e_u = updated.entry(i);
                assert(traversal_invariant::entry_advanced(e_s, e_t, iteration));
                assert(update_strategy::entry_rematched(e_t, e_u));
                assert forall|mi: int| 0 <= mi < e_s.moves.len() implies {
                    &&& (#[trigger] e_u.moves[mi]).m == e_s.moves[mi].m
                    &&& e_u.moves[mi].d.cumulative_move_regret >= e_s.moves[mi].d.cumulative_move_regret
                } by {
                    assert(e_t.moves[mi].m == e_s.moves[mi].m);
                    if e_u != e_t {
                        assert(e_u.moves[mi].m == e_t.moves[mi].m);
                    }
                }
            }
        }
        sampler
    }

    /// Runs `n` more iterations. Returns the sampler.
    ///
    /// Whatever states are drawn, the table only grows and no regret
    /// shrinks; after every iteration the probabilities of the moves of
    /// each information set add up to one.
    pub fn refine_strategy<G: OracleGamestate<INFO>, GENERATOR: GamestateSampler<INFO, G>>(
        &mut self,
        starting_gamestate_sampler: GENERATOR,
        n: u32,
    ) -> (sampler: GENERATOR)
        requires
            old(self).wf(),
            old(self).iterations + n <= u32::MAX,
            starting_gamestate_sampler.valid(),
        ensures
            final(self).wf(),
            final(self).iterations == old(self).iterations + n,
            final(self).config == old(self).config,
            sampler.valid(),
            sampler.info() == starting_gamestate_sampler.info(),
            store_refined(old(self).store(), final(self).store()),
            n > 0 ==> final(self).store().index().contains_key(starting_gamestate_sampler.info()),
            forall|p: Probability| #[trigger]
                sampler.reports(p) == starting_gamestate_sampler.reports(p),
            refined::<INFO, G>(
                gamestate_sampler::reported(starting_gamestate_sampler),
                old(self).store(),
                final(self).store(),
                starting_gamestate_sampler.info(),
                old(self).iterations as int,
                n as nat,
                old(self).config,
            ),
    {
        let ghost start = self.strategy_generation_progress.data_for_known_infosets;
        let ghost root = starting_gamestate_sampler.info();
        let mut sampler = starting_gamestate_sampler;
        let mut done: u32 = 0;
        while done < n
            invariant
                done <= n,
                self.wf(),
                self.iterations == old(self).iterations + done,
                old(self).iterations + n <= u32::MAX,
                self.config == old(self).config,
                sampler.valid(),
                sampler.info() == root,
                store_refined(&start, self.store()),
                done > 0 ==> self.store().index().contains_key(root),
                forall|p: Probability| #[trigger]
                    sampler.reports(p) == starting_gamestate_sampler.reports(p),
                refined::<INFO, G>(
                    gamestate_sampler::reported(starting_gamestate_sampler),
                    &start,
                    self.store(),
                    root,
                    old(self).iterations as int,
                    done as nat,
                    old(self).config,
                ),
            decreases n - done,
        {
            let ghost before = self.strategy_generation_progress.data_for_known_infosets;
            let ghost sampler_before = sampler;
            sampler = self.advance_strategy_once(sampler);
            proof {
                lemma_store_refined_transitive(&start, &before, self.store());
                assert(gamestate_sampler::reported(sampler_before) =~= gamestate_sampler::reported(
                    starting_gamestate_sampler,
                ));
                lemma_refined_one_more::<INFO, G>(
                    gamestate_sampler::reported(starting_gamestate_sampler),
                    &start,
                    &before,
                    self.store(),
                    root,
                    old(self).iterations as int,
                    done as nat,
                    old(self).config,
                );
            }
            done += 1;
        }
        sampler
    }

    /// The strategy as it stands at the information set `state`: what the
    /// table holds for it, and even probabilities over its moves where the
    /// solve has not met it.
    pub fn strategy_for_info(&self, state: INFO) -> (view: StrategyForInfoView<INFO>)
        requires
            self.wf(),
            state.valid(),
        ensures
            view.wf(),
            view.is_terminal == state.terminal_utility() is Some,
            !view.is_terminal ==> view.moves@.len() == state.legal_moves().len(),
            forall|i: int|
                0 <= i < view.moves@.len() ==> (#[trigger] view.moves@[i]).0 == state.legal_moves()[i],
            self.store().index().contains_key(state) ==> view.shows(
                self.store().entry(self.store().index()[state] as int),
            ),
            !self.store().index().contains_key(state) ==> forall|i: int|
                0 <= i < view.moves@.len() ==> (#[trigger] view.moves@[i]).1
                    == crate::cfr::game_model::PROBABILITY_ONE / (view.moves@.len() as u64),
    {
        match self.strategy_generation_progress.data_for_known_infosets.lookup(&state) {
            Some(i) => {
                let data = self.strategy_generation_progress.data_for_known_infosets.get(i);
                proof {
                    assert(self.store().entry(i as int).wf());
                    assert(self.store().entry(i as int).describes(state));
                }
                let view = StrategyForInfoView::new(data);
                proof {
                    let entry = self.store().entry(i as int);
                    assert forall|j: int| 0 <= j < view.moves@.len() implies (
                    #[trigger] view.moves@[j]).0 == state.legal_moves()[j] by {
                        assert(crate::cfr::strategy_generation::workspace_data::move_data::moves_of(
                            entry.moves,
                        )[j] == entry.moves[j].m);
                    }
                    if !view.is_terminal {
                        assert(crate::cfr::strategy_generation::workspace_data::move_data::moves_of(
                            entry.moves,
                        ).len() == entry.moves.len());
                    }
                }
                view
            },
            None => {
                let data = DataForInfoSet::new(&state);
                let view = StrategyForInfoView::new(&data);
                proof {
                    let entry = data@;
                    assert forall|j: int| 0 <= j < view.moves@.len() implies (
                    #[trigger] view.moves@[j]).0 == state.legal_moves()[j] by {
                        assert(crate::cfr::strategy_generation::workspace_data::move_data::moves_of(
                            entry.moves,
                        )[j] == entry.moves[j].m);
                    }
                    if !view.is_terminal {
                        assert(crate::cfr::strategy_generation::workspace_data::move_data::moves_of(
                            entry.moves,
                        ).len() == entry.moves.len());
                    }
                }
                view
            },
        }
    }

    /// Ends the solve and hands out the strategy.
    pub fn into_strategy(self) -> (strategy: Strategy<INFO>)
        requires
            self.wf(),
        ensures
            strategy.wf(),
            strategy.infosets == self.strategy_generation_progress.data_for_known_infosets,
    {
        Strategy { infosets: self.strategy_generation_progress.into_infoset_data() }
    }
}

/// Solves the game that begins at the information set of
/// `starting_gamestate_sampler`: runs `iterations` iterations from nothing
/// and returns the strategy they arrive at.
pub fn generate_strategy<
    INFO: VisibleInfo,
    G: OracleGamestate<INFO>,
    SAMPLER: GamestateSampler<INFO, G>,
>(starting_gamestate_sampler: SAMPLER, iterations: u32) -> (strategy: Strategy<INFO>)
    requires
        starting_gamestate_sampler.valid(),
        iterations < u32::MAX,
    ensures
        strategy.wf(),
        iterations > 0 ==> strategy.infosets.index().contains_key(starting_gamestate_sampler.info()),
        solved::<INFO, G>(
            gamestate_sampler::reported(starting_gamestate_sampler),
            &strategy.infosets,
            starting_gamestate_sampler.info(),
            iterations as nat,
            SolverConfig::spec_new(),
        ),
{
    let mut generator: StrategyGenerator<INFO> = StrategyGenerator::new();
    let ghost start = generator.strategy_generation_progress.data_for_known_infosets;
    let _sampler = generator.refine_strategy(starting_gamestate_sampler, iterations);
    proof {
        assert(start.len() == 0 && start.index() == Map::<INFO, usize>::empty() && refined::<
            INFO,
            G,
        >(
            gamestate_sampler::reported(starting_gamestate_sampler),
            &start,
            generator.store(),
            starting_gamestate_sampler.info(),
            1,
            iterations as nat,
            SolverConfig::spec_new(),
        ));
    }
    generator.into_strategy()
}

} // verus!
