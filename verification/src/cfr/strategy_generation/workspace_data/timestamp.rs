//! Generations of per-iteration values.

use vstd::prelude::*;

verus! {

/// The number of sampled states one iteration can hold in flight.
pub const MAX_BATCH_SIZE: usize = 4;

/// The generation of a computation: the iteration and the place within that
/// iteration's batch. Iterations count from one, so that generation zero
/// marks a slot nothing was ever written to.
#[derive(Debug, Clone, Copy, PartialEq, Eq, Hash, Structural)]
pub struct Timestamp {
    pub cfr_iteration: u32,
    pub item_within_iteration: usize,
}

impl Timestamp {
    pub open spec fn wf(&self) -> bool {
        &&& self.cfr_iteration > 0
        &&& self.item_within_iteration < MAX_BATCH_SIZE
    }

    /// The same batch place one iteration later.
    pub open spec fn following(&self) -> Timestamp {
        Timestamp {
            cfr_iteration: (self.cfr_iteration + 1) as u32,
            item_within_iteration: self.item_within_iteration,
        }
    }

    pub fn new(cfr_iteration: u32, item_within_batch: usize) -> (timestamp: Timestamp)
        requires
            cfr_iteration > 0,
            item_within_batch < MAX_BATCH_SIZE,
        ensures
            timestamp.wf(),
            timestamp.cfr_iteration == cfr_iteration,
            timestamp.item_within_iteration == item_within_batch,
    {
        Timestamp { cfr_iteration, item_within_iteration: item_within_batch }
    }
}

} // verus!
