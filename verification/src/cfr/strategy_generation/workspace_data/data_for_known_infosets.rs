//! The table of every information set a solve has met.

use vstd::prelude::*;
use crate::cfr::game_model::VisibleInfo;
use crate::cfr::strategy_generation::workspace_data::data_for_infoset::{
    DataForInfoSet, InfoSetStatistics,
};
use rustc_hash::FxBuildHasher;
use std::collections::HashMap;

verus! {

/// `rustc_hash::FxBuildHasher`, the source of the hashers of the table.
/// Nothing is claimed of what is inside it.
#[verifier::external_type_specification]
#[verifier::external_body]
pub struct ExFxBuildHasher(FxBuildHasher);

/// `BuildHasher::hash_one` of a `rustc_hash::FxBuildHasher`: a digest of
/// `info`. Nothing is claimed of it: the table uses it to find an entry
/// fast, and holds what it finds against the information set itself.
#[verifier::external_body]
fn digest<INFO: VisibleInfo>(info: &INFO) -> (d: u64) {
    std::hash::BuildHasher::hash_one(&FxBuildHasher, info)
}

/// The information sets that are known, each with its index. An
/// information set is found by its digest: for each digest the index made
/// last is kept, and with each index the one made before it for the same
/// digest.
#[verifier::reject_recursive_types(INFO)]
pub struct KnownInfosets<INFO: VisibleInfo> {
    pub heads: HashMap<u64, usize, FxBuildHasher>,
    pub links: Vec<usize>,
    /// The information set of each index.
    pub infos: Vec<INFO>,
    /// The index of each information set.
    pub index: Ghost<Map<INFO, usize>>,
}

impl<INFO: VisibleInfo> View for KnownInfosets<INFO> {
    type V = Map<INFO, usize>;

    open spec fn view(&self) -> Map<INFO, usize> {
        self.index@
    }
}

impl<INFO: VisibleInfo> KnownInfosets<INFO> {
    /// Every index has its information set, and every information set
    /// that is known its index.
    pub open spec fn wf(&self) -> bool {
        &&& self.links@.len() == self.infos@.len()
        &&& forall|k: INFO| #[trigger]
            self@.contains_key(k) ==> self@[k] < self.infos@.len() && self.infos@[self@[k] as int]
                == k
        &&& forall|i: int|
            0 <= i < self.infos@.len() ==> self@.contains_key(#[trigger] self.infos@[i])
                && self@[self.infos@[i]] == i
    }

    pub fn new() -> (known: Self)
        ensures
            known.wf(),
            known@ == Map::<INFO, usize>::empty(),
            known.infos@.len() == 0,
    {
        Self {
            heads: HashMap::default(),
            links: Vec::new(),
            infos: Vec::new(),
            index: Ghost(Map::empty()),
        }
    }

    /// The index of `info`, if it is known: looked for where its digest
    /// points, and, where it is not found there, among all that is known.
    pub fn find(&self, info: &INFO) -> (found: Option<usize>)
        requires
            self.wf(),
        ensures
            found matches Some(i) ==> self@.contains_key(*info) && self@[*info] == i,
            found is None ==> !self@.contains_key(*info),
    {
        let h = digest(info);
        let mut at: usize = match self.heads.get(&h) {
            Some(i) => *i,
            None => usize::MAX,
        };
        while at < self.infos.len()
            invariant
                self.wf(),
            decreases at,
        {
            if INFO::same_info(&self.infos[at], info) {
                return Some(at);
            }
            let next = self.links[at];
            if next >= at {
                break ;
            }
            at = next;
        }
        let mut i: usize = 0;
        while i < self.infos.len()
            invariant
                self.wf(),
                i <= self.infos@.len(),
                forall|j: int| 0 <= j < i ==> self.infos@[j] != *info,
            decreases self.infos@.len() - i,
        {
            if INFO::same_info(&self.infos[i], info) {
                return Some(i);
            }
            i += 1;
        }
        None
    }

    /// Makes `info`, which is not known yet, known at the next index.
    pub fn add(&mut self, info: INFO) -> (i: usize)
        requires
            old(self).wf(),
            !old(self)@.contains_key(info),
        ensures
            final(self).wf(),
            i == old(self).infos@.len(),
            final(self).infos@.len() == old(self).infos@.len() + 1,
            final(self)@ == old(self)@.insert(info, i),
    {
        let i = self.infos.len();
        let h = digest(&info);
        let before = match self.heads.get(&h) {
            Some(p) => *p,
            None => usize::MAX,
        };
        self.heads.insert(h, i);
        self.links.push(before);
        proof {
            self.index = Ghost(self.index@.insert(info, i));
        }
        self.infos.push(info);
        proof {
            assert forall|k: INFO| #[trigger] self@.contains_key(k) implies self@[k]
                < self.infos@.len() && self.infos@[self@[k] as int] == k by {
                if k != info {
                    assert(old(self)@.contains_key(k));
                }
            }
            assert forall|j: int| 0 <= j < self.infos@.len() implies self@.contains_key(
                #[trigger] self.infos@[j],
            ) && self@[self.infos@[j]] == j by {
                if j < i {
                    assert(self.infos@[j] == old(self).infos@[j]);
                    assert(old(self)@.contains_key(old(self).infos@[j]));
                }
            }
        }
        i
    }
}

/// The statistics of all known information sets. Entries are made on first
/// request, keep their index for good, and are never removed.
#[verifier::reject_recursive_types(INFO)]
pub struct DataForKnownInfosets<INFO: VisibleInfo> {
    /// Where in `arena` the entry of each known information set lies.
    pub infoset_data: KnownInfosets<INFO>,
    pub arena: Vec<DataForInfoSet<INFO>>,
}

impl<INFO: VisibleInfo> DataForKnownInfosets<INFO> {
    /// The number of entries.
    pub open spec fn len(&self) -> nat {
        self.arena@.len()
    }

    /// The statistics at index `i`.
    pub open spec fn entry(&self, i: int) -> InfoSetStatistics<INFO> {
        self.arena@[i]@
    }

    /// The index of each known information set.
    pub open spec fn index(&self) -> Map<INFO, usize> {
        self.infoset_data@
    }

    pub open spec fn wf(&self) -> bool {
        &&& self.infoset_data.wf()
        &&& self.infoset_data.infos@.len() == self.arena@.len()
        &&& forall|k: INFO| #[trigger]
            self.index().contains_key(k) ==> {
                &&& k.valid()
                &&& self.index()[k] < self.len()
                &&& self.entry(self.index()[k] as int).describes(k)
            }
        &&& forall|i: int| 0 <= i < self.len() ==> (#[trigger] self.entry(i)).wf()
    }

    /// Whether `self` holds all that `before` held, at the same indices,
    /// and what it holds besides beyond them.
    pub open spec fn extends(&self, before: &Self) -> bool {
        &&& before.len() <= self.len()
        &&& forall|k: INFO| #[trigger]
            before.index().contains_key(k) ==> self.index().contains_key(k) && self.index()[k]
                == before.index()[k]
        &&& forall|k: INFO| #[trigger]
            self.index().contains_key(k) && !before.index().contains_key(k) ==> self.index()[k]
                >= before.len()
    }

    pub fn new() -> (store: Self)
        ensures
            store.wf(),
            store.len() == 0,
            store.index() == Map::<INFO, usize>::empty(),
    {
        Self { infoset_data: KnownInfosets::new(), arena: Vec::new() }
    }

    /// The index of the entry of `info`, if there is one.
    pub fn lookup(&self, info: &INFO) -> (found: Option<usize>)
        requires
            self.wf(),
        ensures
            found matches Some(i) ==> self.index().contains_key(*info) && self.index()[*info] == i
                && i < self.len(),
            found is None ==> !self.index().contains_key(*info),
    {
        self.infoset_data.find(info)
    }

    /// The index of the entry of `info`, which is made first where `info`
    /// is met for the first time.
    pub fn data_for_infoset(&mut self, info: INFO) -> (i: usize)
        requires
            old(self).wf(),
            info.valid(),
        ensures
            final(self).wf(),
            final(self).extends(old(self)),
            final(self).index() == old(self).index().insert(info, i),
            i < final(self).len(),
            forall|j: int|
                0 <= j < old(self).len() ==> #[trigger] final(self).arena@[j] == old(self).arena@[j],
            old(self).index().contains_key(info) ==> {
                &&& i == old(self).index()[info]
                &&& final(self).len() == old(self).len()
            },
            !old(self).index().contains_key(info) ==> {
                &&& i == old(self).len()
                &&& final(self).len() == old(self).len() + 1
                &&& final(self).entry(i as int).fresh()
            },
    {
        match self.infoset_data.find(&info) {
            Some(i) => {
                assert(self.index() =~= old(self).index().insert(info, i));
                i
            },
            None => {
                let data = DataForInfoSet::new(&info);
                self.arena.push(data);
                let i: usize = self.infoset_data.add(info);
                assert forall|k: INFO| #[trigger] self.index().contains_key(k) implies {
                    &&& k.valid()
                    &&& self.index()[k] < self.len()
                    &&& self.entry(self.index()[k] as int).describes(k)
                } by {
                    if k != info {
                        assert(old(self).index().contains_key(k));
                        assert(self.entry(self.index()[k] as int) == old(self).entry(
                            self.index()[k] as int,
                        ));
                    }
                }
                assert forall|j: int| 0 <= j < self.len() implies (#[trigger] self.entry(j)).wf() by {
                    if j < old(self).len() {
                        assert(self.entry(j) == old(self).entry(j));
                    }
                }
                i
            },
        }
    }

    /// The entry at index `i`.
    pub fn get(&self, i: usize) -> (data: &DataForInfoSet<INFO>)
        requires
            i < self.len(),
        ensures
            *data == self.arena@[i as int],
    {
        &self.arena[i]
    }
}

} // verus!
