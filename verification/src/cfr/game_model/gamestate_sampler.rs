//! Drawing full states that agree with an information set.

use vstd::prelude::*;
use crate::cfr::game_model::{OracleGamestate, Probability, VisibleInfo, PROBABILITY_ONE};

verus! {

/// A source of determinizations: full game states consistent with what one
/// information set shows.
pub trait GamestateSampler<INFO: VisibleInfo, G: OracleGamestate<INFO>> {
    open spec fn valid(&self) -> bool {
        false
    }

    /// The information set whose hidden part is sampled.
    open spec fn info(&self) -> INFO {
        arbitrary()
    }

    /// Whether `sample` may report `probability` as the probability a
    /// state was drawn with. A sampler that says nothing of it may report
    /// any.
    open spec fn reports(&self, probability: Probability) -> bool {
        true
    }

    /// Draws one state together with the probability it was drawn with. Only
    /// the sampler's private state changes, and what it may report stays.
    fn sample(&mut self) -> (drawn: (G, Probability))
        requires
            old(self).valid(),
        ensures
            final(self).valid(),
            final(self).info() == old(self).info(),
            drawn.0.valid(),
            drawn.0.spec_info() == old(self).info(),
            drawn.1 <= PROBABILITY_ONE,
            old(self).reports(drawn.1),
            forall|p: Probability| #[trigger] final(self).reports(p) == old(self).reports(p),
    ;
}

/// The probabilities that `sampler` may report.
pub open spec fn reported<INFO: VisibleInfo, G: OracleGamestate<INFO>, SAMPLER: GamestateSampler<INFO, G>>(
    sampler: SAMPLER,
) -> Set<Probability> {
    Set::new(|p: Probability| sampler.reports(p))
}

/// Draws states from a sampler until enough probability mass or enough
/// states have been drawn.
pub struct RandomGamestateIterator<SAMPLER> {
    pub cumulative_probability: u128,
    pub stopping_probability: Probability,
    pub cumulative_n: u32,
    pub stopping_n: u32,
    pub sampler: SAMPLER,
}

impl<SAMPLER> RandomGamestateIterator<SAMPLER> {
    /// The counters stay within what has been drawn so far.
    pub open spec fn wf(&self) -> bool {
        &&& self.stopping_n < u32::MAX
        &&& self.cumulative_n <= self.stopping_n + 1
        &&& self.cumulative_probability <= self.cumulative_n * PROBABILITY_ONE
    }

    /// Whether the next call of `next` draws a state.
    pub open spec fn live(&self) -> bool {
        &&& self.cumulative_probability <= self.stopping_probability
        &&& self.cumulative_n <= self.stopping_n
    }

    pub fn new(sampler: SAMPLER, stopping_probability: Probability, stopping_n: u32) -> (it: Self)
        requires
            stopping_n < u32::MAX,
        ensures
            it.wf(),
            it.cumulative_probability == 0,
            it.cumulative_n == 0,
            it.stopping_probability == stopping_probability,
            it.stopping_n == stopping_n,
            it.sampler == sampler,
    {
        Self { cumulative_probability: 0, stopping_probability, cumulative_n: 0, stopping_n, sampler }
    }

    /// The next drawn state with its probability, or `None` once the drawn
    /// probability mass exceeds `stopping_probability` or more than
    /// `stopping_n` states have been drawn.
    pub fn next<INFO: VisibleInfo, G: OracleGamestate<INFO>>(&mut self) -> (drawn: Option<
        (G, Probability),
    >) where SAMPLER: GamestateSampler<INFO, G>
        requires
            old(self).wf(),
            old(self).sampler.valid(),
        ensures
            final(self).wf(),
            final(self).sampler.valid(),
            final(self).sampler.info() == old(self).sampler.info(),
            forall|p: Probability| #[trigger]
                final(self).sampler.reports(p) == old(self).sampler.reports(p),
            final(self).stopping_probability == old(self).stopping_probability,
            final(self).stopping_n == old(self).stopping_n,
            drawn is Some <==> old(self).live(),
            drawn matches Some(d) ==> {
                &&& d.0.valid()
                &&& d.0.spec_info() == old(self).sampler.info()
                &&& d.1 <= PROBABILITY_ONE
                &&& old(self).sampler.reports(d.1)
                &&& final(self).cumulative_probability == old(self).cumulative_probability + d.1
                &&& final(self).cumulative_n == old(self).cumulative_n + 1
            },
            drawn is None ==> {
                &&& final(self).cumulative_probability == old(self).cumulative_probability
                &&& final(self).cumulative_n == old(self).cumulative_n
                &&& final(self).sampler == old(self).sampler
            },
    {
        if self.cumulative_probability > self.stopping_probability as u128 {
            return None;
        }
        if self.cumulative_n > self.stopping_n {
            return None;
        }
        let (g, p) = self.sampler.sample();
        assert(self.cumulative_n * PROBABILITY_ONE <= 0xffff_ffff * PROBABILITY_ONE)
            by (nonlinear_arith)
            requires
                self.cumulative_n <= 0xffff_ffff,
        ;
        assert((self.cumulative_n + 1) * PROBABILITY_ONE == self.cumulative_n * PROBABILITY_ONE
            + PROBABILITY_ONE) by (nonlinear_arith);
        self.cumulative_probability = self.cumulative_probability + p as u128;
        self.cumulative_n = self.cumulative_n + 1;
        Some((g, p))
    }
}

} // verus!
