//! The statistics a solve keeps for every information set it has met.

use vstd::prelude::*;
use crate::cfr::game_model::VisibleInfo;
use crate::cfr::strategy_generation::workspace_data::data_for_infoset::{
    DataForInfoSet, InfoSetStatistics,
};
use crate::cfr::strategy_generation::workspace_data::data_for_known_infosets::DataForKnownInfosets;
use crate::cfr::strategy_generation::workspace_data::timestamp::Timestamp;
use crossbeam::queue::SegQueue;

pub mod batch_item_data;
pub mod data_for_infoset;
pub mod data_for_known_infosets;
pub mod data_for_move;
pub mod move_data;
pub mod timestamp;

verus! {

/// `crossbeam::queue::SegQueue`, a queue without a bound. Nothing is
/// claimed of what is inside it; `queued` names what waits in it.
#[verifier::external_type_specification]
#[verifier::external_body]
#[verifier::reject_recursive_types(T)]
pub struct ExSegQueue<T>(SegQueue<T>);

/// The items waiting in a queue of indices, the one that leaves next first.
pub uninterp spec fn queued(queue: SegQueue<usize>) -> Seq<usize>;

/// `SegQueue::new`: a queue in which nothing waits.
#[verifier::external_body]
fn queue_new() -> (queue: SegQueue<usize>)
    ensures
        queued(queue) == Seq::<usize>::empty(),
{
    SegQueue::new()
}

/// `SegQueue::push`: `value` joins the queue behind all that wait in it.
#[verifier::external_body]
fn queue_push(queue: &mut SegQueue<usize>, value: usize)
    ensures
        queued(*final(queue)) == queued(*old(queue)).push(value),
{
    queue.push(value)
}

/// `SegQueue::pop`: the item at the head leaves the queue and is returned;
/// `None`, and nothing changes, where nothing waits.
#[verifier::external_body]
fn queue_pop(queue: &mut SegQueue<usize>) -> (head: Option<usize>)
    ensures
        match head {
            Some(value) => {
                &&& queued(*old(queue)).len() > 0
                &&& value == queued(*old(queue))[0]
                &&& queued(*final(queue)) == queued(*old(queue)).subrange(
                    1,
                    queued(*old(queue)).len() as int,
                )
            },
            None => queued(*old(queue)).len() == 0 && queued(*final(queue)) == queued(*old(queue)),
        },
{
    queue.pop()
}

/// All that a solve has learnt so far: the table of information sets, and
/// the queue of those whose strategy awaits recomputing.
#[verifier::reject_recursive_types(INFO)]
pub struct StrategyGenerationProgress<INFO: VisibleInfo> {
    pub data_for_known_infosets: DataForKnownInfosets<INFO>,
    pub updated_infosets: SegQueue<usize>,
}

impl<INFO: VisibleInfo> StrategyGenerationProgress<INFO> {
    /// The statistics at index `i` of the table.
    pub open spec fn entry(&self, i: int) -> InfoSetStatistics<INFO> {
        self.data_for_known_infosets.entry(i)
    }

    /// The number of known information sets.
    pub open spec fn len(&self) -> nat {
        self.data_for_known_infosets.len()
    }

    /// The indices queued for the strategy update, in queue order.
    pub open spec fn dirty(&self) -> Seq<usize> {
        queued(self.updated_infosets)
    }

    /// The queue holds, once each, exactly the entries that completed a
    /// value in `iteration`.
    pub open spec fn dirty_consistent(&self, iteration: u32) -> bool {
        &&& self.dirty().no_duplicates()
        &&& forall|i: usize|
            self.dirty().contains(i) <==> i < self.len() && (#[trigger] self.entry(
                i as int,
            )).global_updated_iteration == iteration
    }

    pub open spec fn wf(&self) -> bool {
        self.data_for_known_infosets.wf()
    }

    pub fn new() -> (progress: Self)
        ensures
            progress.wf(),
            progress.len() == 0,
            progress.dirty() == Seq::<usize>::empty(),
    {
        Self { data_for_known_infosets: DataForKnownInfosets::new(), updated_infosets: queue_new() }
    }

    /// Notes that the entry at `index` completed a value at `timestamp`, and
    /// queues it for the strategy update unless this iteration already did.
    pub fn mark_as_completed(&mut self, index: usize, timestamp: Timestamp)
        requires
            old(self).wf(),
            index < old(self).len(),
            old(self).dirty_consistent(timestamp.cfr_iteration),
        ensures
            final(self).wf(),
            final(self).dirty_consistent(timestamp.cfr_iteration),
            final(self).data_for_known_infosets.infoset_data == old(self).data_for_known_infosets.infoset_data,
            final(self).len() == old(self).len(),
            forall|j: int|
                0 <= j < old(self).len() && j != index ==> #[trigger] final(self).data_for_known_infosets.arena@[j] == old(self).data_for_known_infosets.arena@[j],
            final(self).entry(index as int) == (InfoSetStatistics {
                global_updated_iteration: timestamp.cfr_iteration,
                ..old(self).entry(index as int)
            }),
            final(self).dirty() == (if old(self).entry(index as int).global_updated_iteration
                == timestamp.cfr_iteration {
                old(self).dirty()
            } else {
                old(self).dirty().push(index)
            }),
    {
        let first = self.data_for_known_infosets.arena[index].check_for_writeback(timestamp);
        if first {
            queue_push(&mut self.updated_infosets, index);
        }
        proof {
            let before = old(self);
            assert(self.data_for_known_infosets.arena@.len() == before.len());
            assert forall|j: int| 0 <= j < before.len() && j != index implies self.entry(j)
                == before.entry(j) by {
                assert(self.data_for_known_infosets.arena@[j]
                    == before.data_for_known_infosets.arena@[j]);
            }
            assert forall|j: int| 0 <= j < self.len() implies (
            #[trigger] self.data_for_known_infosets.entry(j)).wf() by {
                if j != index {
                    assert(self.entry(j) == before.entry(j));
                } else {
                    assert(before.entry(j).wf());
                }
            }
            assert forall|k: INFO| #[trigger]
                self.data_for_known_infosets.index().contains_key(k) implies {
                &&& k.valid()
                &&& self.data_for_known_infosets.index()[k] < self.len()
                &&& self.entry(self.data_for_known_infosets.index()[k] as int).describes(k)
            } by {
                let j = self.data_for_known_infosets.index()[k] as int;
                assert(before.data_for_known_infosets.index().contains_key(k));
                assert(before.entry(j).describes(k));
                if j != index {
                    assert(self.entry(j) == before.entry(j));
                }
            }
            let iteration = timestamp.cfr_iteration;
            assert forall|i: usize|
                self.dirty().contains(i) <==> i < self.len() && (#[trigger] self.entry(
                    i as int,
                )).global_updated_iteration == iteration by {
                if i < self.len() && i != index {
                    assert(self.entry(i as int) == before.entry(i as int));
                }
                assert(before.dirty().contains(i) <==> i < before.len() && before.entry(
                    i as int,
                ).global_updated_iteration == iteration);
                if first {
                    let d = before.dirty();
                    assert(d.push(index)[d.len() as int] == index);
                    if d.push(index).contains(i) && i != index {
                        let w = choose|w: int| 0 <= w < d.push(index).len() && d.push(index)[w] == i;
                        assert(d[w] == i);
                    }
                    if d.contains(i) {
                        let w = choose|w: int| 0 <= w < d.len() && d[w] == i;
                        assert(d.push(index)[w] == i);
                    }
                }
            }
            if first {
                let d = before.dirty();
                assert(!d.contains(index));
                assert forall|a: int, b: int|
                    0 <= a < d.push(index).len() && 0 <= b < d.push(index).len() && a
                        != b implies d.push(index)[a] != d.push(index)[b] by {
                    if a < d.len() && b < d.len() {
                        assert(d[a] != d[b]);
                    } else if a < d.len() {
                        assert(d.contains(d[a]));
                    } else if b < d.len() {
                        assert(d.contains(d[b]));
                    }
                }
            }
        }
    }

    /// The index of the entry of `data`, made first where `data` is new.
    pub fn get_data_for_infoset(&mut self, data: INFO) -> (i: usize)
        requires
            old(self).wf(),
            data.valid(),
        ensures
            final(self).wf(),
            final(self).data_for_known_infosets.extends(&old(self).data_for_known_infosets),
            final(self).data_for_known_infosets.index() == old(self).data_for_known_infosets.index().insert(data, i),
            i < final(self).len(),
            final(self).dirty() == old(self).dirty(),
            forall|j: int|
                0 <= j < old(self).len() ==> #[trigger] final(self).data_for_known_infosets.arena@[j]
                    == old(self).data_for_known_infosets.arena@[j],
            old(self).data_for_known_infosets.index().contains_key(data) ==> final(self).len()
                == old(self).len(),
            !old(self).data_for_known_infosets.index().contains_key(data) ==> {
                &&& i == old(self).len()
                &&& final(self).len() == old(self).len() + 1
                &&& final(self).data_for_known_infosets.entry(i as int).fresh()
            },
    {
        self.data_for_known_infosets.data_for_infoset(data)
    }

    /// The next entry that awaits its strategy update, if any is left.
    pub fn pop_updated_infoset(&mut self) -> (head: Option<usize>)
        ensures
            final(self).data_for_known_infosets == old(self).data_for_known_infosets,
            head is None <==> old(self).dirty().len() == 0,
            head matches Some(i) ==> i == old(self).dirty()[0] && final(self).dirty() == old(self).dirty().subrange(1, old(self).dirty().len() as int),
            head is None ==> final(self).dirty() == old(self).dirty(),
    {
        queue_pop(&mut self.updated_infosets)
    }

    pub fn into_infoset_data(self) -> (store: DataForKnownInfosets<INFO>)
        ensures
            store == self.data_for_known_infosets,
    {
        self.data_for_known_infosets
    }
}

/// The stack one traversal works from: entries of the table, each with the
/// state of the game it was reached in.
pub struct ThreadLocalWorkStack<G> {
    pub stack: Vec<(usize, G)>,
}

impl<G> ThreadLocalWorkStack<G> {
    pub fn new() -> (s: Self)
        ensures
            s.stack@.len() == 0,
    {
        Self { stack: Vec::new() }
    }

    pub fn push(&mut self, data_for_info_set: usize, gamestate: G)
        ensures
            final(self).stack@ == old(self).stack@.push((data_for_info_set, gamestate)),
    {
        self.stack.push((data_for_info_set, gamestate));
    }

    pub fn pop(&mut self) -> (top: Option<(usize, G)>)
        ensures
            match top {
                Some(t) => old(self).stack@.len() > 0 && t == old(self).stack@.last() && final(self).stack@ == old(self).stack@.drop_last(),
                None => old(self).stack@.len() == 0 && final(self).stack@ == old(self).stack@,
            },
    {
        self.stack.pop()
    }

    pub fn len(&self) -> (n: usize)
        ensures
            n == self.stack@.len(),
    {
        self.stack.len()
    }
}

impl<G> Default for ThreadLocalWorkStack<G> {
    fn default() -> (s: Self)
        ensures
            s.stack@.len() == 0,
    {
        Self::new()
    }
}

} // verus!
