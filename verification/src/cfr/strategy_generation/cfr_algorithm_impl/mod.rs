//! One iteration's traversals: what they do to the table, why they end, and
//! the traversal itself.

pub mod step_relation;
pub mod termination;
pub mod accumulate_regret;
pub mod traversal_invariant;
pub mod iteration_relation;
