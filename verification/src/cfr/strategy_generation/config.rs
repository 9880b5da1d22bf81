//! The choices a solve leaves to its caller.

use vstd::prelude::*;
use crate::cfr::strategy_generation::workspace_data::timestamp::{Timestamp, MAX_BATCH_SIZE};

verus! {

/// How much one traversal's regret counts against those of other iterations.
#[derive(Debug, Clone, Copy, PartialEq, Eq, Structural)]
pub enum RegretWeighting {
    /// Regret found in iteration `n` counts `n` times.
    Linear,
    /// Every iteration counts once.
    Uniform,
}

/// Settings of a solve.
#[derive(Debug, Clone, Copy)]
pub struct SolverConfig {
    /// How many sampled states one iteration traverses.
    pub batch_size: usize,
    pub weighting: RegretWeighting,
}

impl SolverConfig {
    pub open spec fn wf(&self) -> bool {
        1 <= self.batch_size <= MAX_BATCH_SIZE
    }

    /// The factor applied to regret found at `timestamp`.
    pub open spec fn spec_weight(&self, timestamp: Timestamp) -> nat {
        match self.weighting {
            RegretWeighting::Linear => timestamp.cfr_iteration as nat,
            RegretWeighting::Uniform => 1,
        }
    }

    /// The default settings: linear weighting over batches of the full
    /// width.
    pub open spec fn spec_new() -> SolverConfig {
        SolverConfig { batch_size: MAX_BATCH_SIZE, weighting: RegretWeighting::Linear }
    }

    /// Linear weighting over batches of the full width.
    pub fn new() -> (config: SolverConfig)
        ensures
            config == SolverConfig::spec_new(),
            config.wf(),
            config.batch_size == MAX_BATCH_SIZE,
            config.weighting == RegretWeighting::Linear,
    {
        SolverConfig { batch_size: MAX_BATCH_SIZE, weighting: RegretWeighting::Linear }
    }

    pub fn weight(&self, timestamp: Timestamp) -> (w: u32)
        ensures
            w == self.spec_weight(timestamp),
    {
        match self.weighting {
            RegretWeighting::Linear => timestamp.cfr_iteration,
            RegretWeighting::Uniform => 1,
        }
    }
}

impl Default for SolverConfig {
    fn default() -> (config: SolverConfig)
        ensures
            config.wf(),
            config.batch_size == MAX_BATCH_SIZE,
            config.weighting == RegretWeighting::Linear,
    {
        SolverConfig::new()
    }
}

} // verus!
