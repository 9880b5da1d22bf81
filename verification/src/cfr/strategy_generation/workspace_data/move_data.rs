//! The moves of an information set, each with its statistics.

use vstd::prelude::*;
use crate::cfr::game_model::VisibleInfo;
use crate::cfr::strategy_generation::workspace_data::data_for_move::DataForMove;

verus! {

/// A move together with what is known about it.
pub struct MoveWithData<INFO: VisibleInfo> {
    pub m: INFO::Move,
    pub d: DataForMove,
}

/// Collects the moves of an information set as they are reported, giving
/// each the statistics of a move nothing is known about.
pub struct MoveWithDataAllocation<INFO: VisibleInfo> {
    pub v: Vec<MoveWithData<INFO>>,
}

/// The moves of `entries`, in order.
pub open spec fn moves_of<INFO: VisibleInfo>(entries: Seq<MoveWithData<INFO>>) -> Seq<INFO::Move> {
    Seq::new(entries.len(), |i: int| entries[i].m)
}

/// None of `entries` holds any statistics yet.
pub open spec fn all_fresh<INFO: VisibleInfo>(entries: Seq<MoveWithData<INFO>>) -> bool {
    forall|i: int| 0 <= i < entries.len() ==> (#[trigger] entries[i]).d.fresh()
}

/// All of `entries` hold statistics within their bounds.
pub open spec fn all_wf<INFO: VisibleInfo>(entries: Seq<MoveWithData<INFO>>) -> bool {
    forall|i: int| 0 <= i < entries.len() ==> (#[trigger] entries[i]).d.wf()
}

impl<INFO: VisibleInfo> MoveWithDataAllocation<INFO> {
    #[must_use]
    pub fn new() -> (a: Self)
        ensures
            a.v@.len() == 0,
    {
        Self { v: Vec::new() }
    }

    pub fn push(&mut self, m: INFO::Move)
        requires
            all_fresh(old(self).v@),
            all_wf(old(self).v@),
        ensures
            moves_of(final(self).v@) == moves_of(old(self).v@).push(m),
            all_fresh(final(self).v@),
            all_wf(final(self).v@),
    {
        let move_with_data = MoveWithData { m, d: DataForMove::new() };
        self.v.push(move_with_data);
        assert(moves_of(self.v@) =~= moves_of(old(self).v@).push(m));
    }

    pub fn into_vec(self) -> (v: Vec<MoveWithData<INFO>>)
        ensures
            v == self.v,
    {
        self.v
    }
}

} // verus!
