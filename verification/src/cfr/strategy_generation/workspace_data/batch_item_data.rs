//! Values that expire with every iteration without being cleared.

use vstd::prelude::*;
use crate::cfr::game_model::UtilityForAllPlayers;
use crate::cfr::strategy_generation::workspace_data::timestamp::{Timestamp, MAX_BATCH_SIZE};

verus! {

/// One value per batch place, each stamped with the iteration that wrote it.
/// A value counts only for the timestamp it was written with: a slot is
/// reused from one iteration to the next, and a later iteration reads an
/// earlier one's value as absent.
#[derive(Debug)]
pub struct DataPerBatchItem<T> {
    pub updated_iteration_per_work_item: [u32; 4],
    pub data: [T; 4],
}

impl<T> DataPerBatchItem<T> {
    /// Whether the slot of `timestamp` holds a value of that very generation.
    pub open spec fn spec_ready(&self, timestamp: Timestamp) -> bool {
        &&& timestamp.item_within_iteration < MAX_BATCH_SIZE
        &&& self.updated_iteration_per_work_item@[timestamp.item_within_iteration as int]
            == timestamp.cfr_iteration
    }

    /// The value written with `timestamp`, if the slot still holds it.
    pub open spec fn spec_get(&self, timestamp: Timestamp) -> Option<T> {
        if self.spec_ready(timestamp) {
            Some(self.data@[timestamp.item_within_iteration as int])
        } else {
            None
        }
    }

    /// No slot has been written.
    pub open spec fn untouched(&self) -> bool {
        forall|i: int|
            0 <= i < MAX_BATCH_SIZE ==> #[trigger] self.updated_iteration_per_work_item@[i] == 0
    }

    /// Whether `self` is `before` after `value` was written with `timestamp`.
    pub open spec fn is_written(&self, before: Self, value: T, timestamp: Timestamp) -> bool {
        &&& self.updated_iteration_per_work_item@
            == before.updated_iteration_per_work_item@.update(
            timestamp.item_within_iteration as int,
            timestamp.cfr_iteration,
        )
        &&& self.data@ == before.data@.update(timestamp.item_within_iteration as int, value)
    }

    /// Slots each holding what `f` makes, none of them written yet.
    pub fn new<F: Fn() -> T>(f: F) -> (slots: Self)
        requires
            call_requires(f, ()),
        ensures
            slots.untouched(),
            forall|i: int| 0 <= i < MAX_BATCH_SIZE ==> call_ensures(f, (), #[trigger] slots.data@[i]),
    {
        Self { updated_iteration_per_work_item: [0, 0, 0, 0], data: [f(), f(), f(), f()] }
    }

    /// Writes `value` as the value of generation `timestamp`.
    pub fn set(&mut self, value: T, timestamp: Timestamp)
        requires
            timestamp.item_within_iteration < MAX_BATCH_SIZE,
        ensures
            final(self).is_written(*old(self), value, timestamp),
            final(self).spec_get(timestamp) == Some(value),
    {
        self.updated_iteration_per_work_item[timestamp.item_within_iteration] =
            timestamp.cfr_iteration;
        self.data[timestamp.item_within_iteration] = value;
    }

    pub fn get(&self, timestamp: Timestamp) -> (value: Option<&T>)
        requires
            timestamp.item_within_iteration < MAX_BATCH_SIZE,
        ensures
            value matches Some(v) ==> self.spec_get(timestamp) == Some(*v),
            value is None ==> self.spec_get(timestamp) is None,
    {
        if !self.ready(timestamp) {
            None
        } else {
            Some(&self.data[timestamp.item_within_iteration])
        }
    }

    pub fn ready(&self, timestamp: Timestamp) -> (r: bool)
        requires
            timestamp.item_within_iteration < MAX_BATCH_SIZE,
        ensures
            r == self.spec_ready(timestamp),
    {
        self.updated_iteration_per_work_item[timestamp.item_within_iteration]
            == timestamp.cfr_iteration
    }

    /// A value written with one timestamp is read as absent one iteration
    /// later at the same batch place, though nothing cleared it, and as
    /// absent for any other iteration whatever.
    pub proof fn lemma_written_value_expires(
        before: Self,
        after: Self,
        value: T,
        written: Timestamp,
        asked: Timestamp,
    )
        requires
            written.item_within_iteration < MAX_BATCH_SIZE,
            written.cfr_iteration < u32::MAX,
            after.is_written(before, value, written),
        ensures
            after.spec_get(written) == Some(value),
            !after.spec_ready(written.following()),
            after.spec_get(written.following()) is None,
            asked.item_within_iteration == written.item_within_iteration && asked.cfr_iteration
                != written.cfr_iteration ==> !after.spec_ready(asked),
            asked.item_within_iteration != written.item_within_iteration ==> after.spec_get(asked)
                == before.spec_get(asked),
    {
    }
}

impl DataPerBatchItem<UtilityForAllPlayers> {
    /// Unwritten slots holding zero payoffs.
    pub fn const_default_utility() -> (slots: Self)
        ensures
            slots.untouched(),
            forall|i: int| 0 <= i < MAX_BATCH_SIZE ==> (#[trigger] slots.data@[i]).is_zero(),
    {
        let zero = UtilityForAllPlayers::const_default();
        Self { updated_iteration_per_work_item: [0, 0, 0, 0], data: [zero, zero, zero, zero] }
    }
}

impl<T> DataPerBatchItem<Option<T>> {
    /// Unwritten slots holding nothing.
    pub fn const_default_option() -> (slots: Self)
        ensures
            slots.untouched(),
            forall|i: int| 0 <= i < MAX_BATCH_SIZE ==> #[trigger] slots.data@[i] is None,
    {
        Self { updated_iteration_per_work_item: [0, 0, 0, 0], data: [None, None, None, None] }
    }
}

} // verus!
