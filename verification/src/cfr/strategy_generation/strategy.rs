//! Reading a strategy: the probabilities of the moves of an information
//! set, and drawing a move by them.

use vstd::prelude::*;
use crate::cfr::game_model::{Probability, VisibleInfo, MAX_MOVES, PROBABILITY_ONE};
use crate::cfr::strategy_generation::workspace_data::data_for_infoset;
use crate::cfr::strategy_generation::workspace_data::data_for_infoset::{
    DataForInfoSet, InfoSetStatistics,
};
use crate::cfr::strategy_generation::workspace_data::data_for_known_infosets::DataForKnownInfosets;
use crate::cfr::strategy_generation::workspace_data::move_data;
use crate::cfr::strategy_generation::workspace_data::move_data::MoveWithData;

verus! {

/// `fastrand::shuffle`: puts the items in a random order; the same items
/// are there afterwards, each as often as before.
#[verifier::external_body]
fn shuffle<T>(items: &mut Vec<T>)
    ensures
        final(items)@.to_multiset() == old(items)@.to_multiset(),
{
    fastrand::shuffle(items.as_mut_slice())
}

/// `fastrand::u64` over the range from zero up to `bound`, `bound` itself
/// left out: some number of that range.
#[verifier::external_body]
fn random_below(bound: u64) -> (drawn: u64)
    requires
        bound > 0,
    ensures
        drawn < bound,
{
    fastrand::u64(0..bound)
}

/// The sum of the probabilities of the first `k` of `moves`.
pub open spec fn cumulative<M>(moves: Seq<(M, Probability)>, k: int) -> int
    decreases k,
{
    if k <= 0 {
        0
    } else {
        cumulative(moves, k - 1) + moves[k - 1].1
    }
}

/// Whether the move at `k` is the first of `moves` at which the
/// accumulated probability exceeds `mark`.
pub open spec fn first_beyond<M>(moves: Seq<(M, Probability)>, mark: u64, k: int) -> bool {
    &&& 0 <= k < moves.len()
    &&& cumulative(moves, k) <= mark < cumulative(moves, k + 1)
}

/// Accumulated probability never shrinks along the moves.
pub proof fn lemma_cumulative_monotone<M>(moves: Seq<(M, Probability)>, k: int, n: int)
    requires
        0 <= k <= n <= moves.len(),
    ensures
        0 <= cumulative(moves, k) <= cumulative(moves, n),
    decreases n,
{
    if n > 0 {
        if k < n {
            lemma_cumulative_monotone(moves, k, n - 1);
        } else {
            lemma_cumulative_monotone(moves, k - 1, n - 1);
        }
    }
}

/// Walks `moves`, accumulating their probabilities, and returns the first
/// move at which the accumulated probability exceeds `mark`; `None` where
/// all the probabilities together do not exceed it.
pub fn pick_from<M: Copy>(moves: &Vec<(M, Probability)>, mark: u64) -> (picked: Option<M>)
    requires
        forall|i: int| 0 <= i < moves.len() ==> (#[trigger] moves[i]).1 <= PROBABILITY_ONE,
    ensures
        picked is Some <==> mark < cumulative(moves@, moves.len() as int),
        picked matches Some(m) ==> exists|k: int|
            #![auto]
            first_beyond(moves@, mark, k) && moves[k].0 == m && moves[k].1 > 0,
{
    let mut sum: u128 = 0;
    let mut i: usize = 0;
    while i < moves.len()
        invariant
            i <= moves.len(),
            sum == cumulative(moves@, i as int),
            sum <= mark,
            sum <= i * PROBABILITY_ONE,
            forall|j: int| 0 <= j < moves.len() ==> (#[trigger] moves[j]).1 <= PROBABILITY_ONE,
        decreases moves.len() - i,
    {
        let (m, prob) = moves[i];
        proof {
            assert(moves[i as int].1 <= PROBABILITY_ONE);
            assert((i + 1) * PROBABILITY_ONE == i * PROBABILITY_ONE + PROBABILITY_ONE)
                by (nonlinear_arith);
        }
        let next: u128 = sum + prob as u128;
        if (mark as u128) < next {
            proof {
                lemma_cumulative_monotone(moves@, i + 1, moves.len() as int);
                assert(first_beyond(moves@, mark, i as int));
            }
            return Some(m);
        }
        sum = next;
        i += 1;
    }
    None
}

/// The strategy at one information set: its moves, each with the
/// probability of playing it.
pub struct StrategyForInfoView<INFO: VisibleInfo> {
    pub is_terminal: bool,
    pub moves: Vec<(INFO::Move, Probability)>,
}

impl<INFO: VisibleInfo> StrategyForInfoView<INFO> {
    /// Where play goes on there are moves, and their probabilities add up
    /// to one, short of it by less than one billionth for each move.
    pub open spec fn wf(&self) -> bool {
        &&& self.is_terminal ==> self.moves@.len() == 0
        &&& !self.is_terminal ==> {
            &&& 0 < self.moves@.len() <= MAX_MOVES
            &&& PROBABILITY_ONE - self.moves@.len() < cumulative(
                self.moves@,
                self.moves@.len() as int,
            ) <= PROBABILITY_ONE
        }
        &&& forall|i: int| 0 <= i < self.moves@.len() ==> (#[trigger] self.moves@[i]).1 <= PROBABILITY_ONE
    }

    /// Whether this is the strategy that `entry` holds.
    pub open spec fn shows(&self, entry: InfoSetStatistics<INFO>) -> bool {
        &&& self.is_terminal == entry.terminal_utility is Some
        &&& self.moves@.len() == entry.moves.len()
        &&& forall|i: int|
            0 <= i < entry.moves.len() ==> {
                &&& (#[trigger] self.moves@[i]).0 == entry.moves[i].m
                &&& self.moves@[i].1 == entry.moves[i].d.spec_probability(entry.moves.len() as int)
            }
    }

    pub fn new(data_for_info_set: &DataForInfoSet<INFO>) -> (view: Self)
        requires
            data_for_info_set@.wf(),
        ensures
            view.wf(),
            view.shows(data_for_info_set@),
    {
        let ghost entry = data_for_info_set@;
        let n = data_for_info_set.moves().len();
        let mut moves: Vec<(INFO::Move, Probability)> = Vec::new();
        let mut i: usize = 0;
        while i < n
            invariant
                i <= n,
                n == entry.moves.len(),
                entry == data_for_info_set@,
                entry.wf(),
                moves@.len() == i,
                forall|j: int|
                    0 <= j < i ==> {
                        &&& (#[trigger] moves@[j]).0 == entry.moves[j].m
                        &&& moves@[j].1 == entry.moves[j].d.spec_probability(n as int)
                    },
            decreases n - i,
        {
            proof {
                assert(entry.moves[i as int].d.wf());
            }
            let move_with_data = &data_for_info_set.moves()[i];
            let p = move_with_data.d.load_move_probability(n);
            moves.push((move_with_data.m, p));
            i += 1;
        }
        let view = Self { is_terminal: data_for_info_set.is_terminal(), moves };
        proof {
            lemma_view_total(view.moves@, entry.moves, n as int);
            assert forall|i: int| 0 <= i < view.moves@.len() implies (#[trigger] view.moves@[i]).1
                <= PROBABILITY_ONE by {
                assert(entry.moves[i].d.wf());
                let len = n as int;
                assert(PROBABILITY_ONE as int / len <= PROBABILITY_ONE) by (nonlinear_arith)
                    requires
                        len > 0,
                ;
            }
        }
        view
    }

    pub fn move_count(&self) -> (n: usize)
        ensures
            n == self.moves@.len(),
    {
        self.moves.len()
    }

    /// The probability of the move `m`, which must be a move of this
    /// information set.
    pub fn move_probability(&self, m: &INFO::Move) -> (p: Probability)
        requires
            exists|i: int| 0 <= i < self.moves@.len() && (#[trigger] self.moves@[i]).0 == *m,
        ensures
            exists|i: int|
                0 <= i < self.moves@.len() && (#[trigger] self.moves@[i]).0 == *m && self.moves@[i].1
                    == p && forall|j: int| 0 <= j < i ==> (#[trigger] self.moves@[j]).0 != *m,
    {
        let mut i: usize = 0;
        while i < self.moves.len()
            invariant
                i <= self.moves.len(),
                forall|j: int| 0 <= j < i ==> (#[trigger] self.moves@[j]).0 != *m,
                exists|k: int| 0 <= k < self.moves@.len() && (#[trigger] self.moves@[k]).0 == *m,
            decreases self.moves.len() - i,
        {
            let (candidate, p) = self.moves[i];
            if INFO::same_move(&candidate, m) {
                return p;
            }
            i += 1;
        }
        proof {
            let k = choose|k: int| 0 <= k < self.moves@.len() && (#[trigger] self.moves@[k]).0 == *m;
            assert(self.moves@[k].0 != *m);
        }
        0
    }

    /// The moves, in the order the game reports them, each with its
    /// probability.
    pub fn move_probabilities(&self) -> (moves: &Vec<(INFO::Move, Probability)>)
        ensures
            *moves == self.moves,
    {
        &self.moves
    }

    /// Draws a move by the probabilities of this view: `None` where play
    /// has ended, else a move that the strategy plays with a probability
    /// above zero.
    pub fn pick_move(&self) -> (picked: Option<INFO::Move>)
        requires
            self.wf(),
        ensures
            picked is None <==> self.is_terminal,
            picked matches Some(m) ==> exists|i: int|
                0 <= i < self.moves@.len() && (#[trigger] self.moves@[i]).0 == m && self.moves@[i].1
                    > 0,
    {
        if self.is_terminal {
            return None;
        }
        let n = self.moves.len();
        let mut moves: Vec<(INFO::Move, Probability)> = Vec::new();
        let mut i: usize = 0;
        while i < n
            invariant
                i <= n,
                n == self.moves@.len(),
                moves@ == self.moves@.subrange(0, i as int),
            decreases n - i,
        {
            moves.push(self.moves[i]);
            i += 1;
            assert(self.moves@.subrange(0, i as int) =~= self.moves@.subrange(0, i - 1).push(
                self.moves@[i - 1],
            ));
        }
        proof {
            assert(self.moves@.subrange(0, n as int) =~= self.moves@);
        }
        shuffle(&mut moves);
        proof {
            moves@.to_multiset_ensures();
            self.moves@.to_multiset_ensures();
            assert forall|j: int| 0 <= j < moves@.len() implies (#[trigger] moves@[j]).1
                <= PROBABILITY_ONE && self.moves@.contains(moves@[j]) by {
                assert(moves@.contains(moves@[j]));
                assert(self.moves@.to_multiset().count(moves@[j]) > 0);
                assert(self.moves@.contains(moves@[j]));
            }
        }
        let mut total: u64 = 0;
        let mut k: usize = 0;
        proof {
            assert(n * PROBABILITY_ONE <= 1000 * PROBABILITY_ONE) by (nonlinear_arith)
                requires
                    n <= 1000,
            ;
        }
        while k < n
            invariant
                k <= n,
                n == moves@.len(),
                n <= MAX_MOVES,
                total == cumulative(moves@, k as int),
                total <= k * PROBABILITY_ONE,
                forall|j: int| 0 <= j < moves@.len() ==> (#[trigger] moves@[j]).1 <= PROBABILITY_ONE,
            decreases n - k,
        {
            proof {
                assert(moves@[k as int].1 <= PROBABILITY_ONE);
                assert((k + 1) * PROBABILITY_ONE == k * PROBABILITY_ONE + PROBABILITY_ONE)
                    by (nonlinear_arith);
                assert((k + 1) * PROBABILITY_ONE <= 1000 * PROBABILITY_ONE) by (nonlinear_arith)
                    requires
                        k + 1 <= 1000,
                ;
            }
            total = total + moves[k].1;
            k += 1;
        }
        proof {
            // some move has a probability above zero, and the shuffle kept it
            lemma_some_positive(self.moves@, n as int);
            let w = choose|w: int| 0 <= w < self.moves@.len() && (#[trigger] self.moves@[w]).1 > 0;
            assert(self.moves@.contains(self.moves@[w]));
            assert(moves@.to_multiset().count(self.moves@[w]) > 0);
            assert(moves@.contains(self.moves@[w]));
            let v = choose|v: int| 0 <= v < moves@.len() && moves@[v] == self.moves@[w];
            lemma_cumulative_monotone(moves@, v + 1, n as int);
            lemma_cumulative_monotone(moves@, v, v + 1);
        }
        let mark = random_below(total);
        let picked = pick_from(&moves, mark);
        proof {
            let m = picked->0;
            let at = choose|at: int|
                #![auto]
                first_beyond(moves@, mark, at) && moves@[at].0 == m && moves@[at].1 > 0;
            assert(self.moves@.contains(moves@[at]));
            let i = choose|i: int| 0 <= i < self.moves@.len() && self.moves@[i] == moves@[at];
            assert(self.moves@[i].0 == m && self.moves@[i].1 > 0);
        }
        picked
    }
}

/// Probabilities that add up to more than nothing are not all zero.
pub proof fn lemma_some_positive<M>(moves: Seq<(M, Probability)>, k: int)
    requires
        0 <= k <= moves.len(),
        cumulative(moves, k) > 0,
    ensures
        exists|w: int| 0 <= w < k && (#[trigger] moves[w]).1 > 0,
    decreases k,
{
    if k > 0 {
        if moves[k - 1].1 > 0 {
        } else {
            lemma_some_positive(moves, k - 1);
        }
    }
}

/// A view adds up to what the entry it shows adds up to.
pub proof fn lemma_view_total<INFO: VisibleInfo>(
    view: Seq<(INFO::Move, Probability)>,
    moves: Seq<MoveWithData<INFO>>,
    k: int,
)
    requires
        view.len() == moves.len(),
        0 <= k <= moves.len(),
        forall|i: int|
            0 <= i < k ==> (#[trigger] view[i]).1 == moves[i].d.spec_probability(moves.len() as int),
    ensures
        cumulative(view, k) == data_for_infoset::probability_sum(moves, k),
    decreases k,
{
    if k > 0 {
        lemma_view_total::<INFO>(view, moves, k - 1);
        assert(view[k - 1].1 == moves[k - 1].d.spec_probability(moves.len() as int));
    }
}

/// The probabilities of the moves of an information set where play goes
/// on add up to one within a millionth: no more than one, and short of it
/// by less than a thousand billionths.
pub proof fn lemma_probabilities_sum_to_one<INFO: VisibleInfo>(entry: InfoSetStatistics<INFO>)
    requires
        entry.wf(),
        entry.terminal_utility is None,
    ensures
        PROBABILITY_ONE - 1000 < data_for_infoset::probability_sum(
            entry.moves,
            entry.moves.len() as int,
        ) <= PROBABILITY_ONE,
{
}

/// Where an information set has one move, that move is played with
/// probability one, whatever the solve has met.
pub proof fn lemma_single_move_is_certain<INFO: VisibleInfo>(entry: InfoSetStatistics<INFO>)
    requires
        entry.wf(),
        entry.terminal_utility is None,
        entry.moves.len() == 1,
    ensures
        entry.moves[0].d.spec_probability(1) == PROBABILITY_ONE,
{
    assert(data_for_infoset::probability_sum(entry.moves, 1) == data_for_infoset::probability_sum(
        entry.moves,
        0,
    ) + entry.moves[0].d.spec_probability(1));
    assert(entry.moves[0].d.wf());
}

/// A finished strategy: for every information set the solve has met, the
/// probabilities of its moves.
#[verifier::reject_recursive_types(INFO)]
pub struct Strategy<INFO: VisibleInfo> {
    pub infosets: DataForKnownInfosets<INFO>,
}

impl<INFO: VisibleInfo> Strategy<INFO> {
    pub open spec fn wf(&self) -> bool {
        self.infosets.wf()
    }

    /// The strategy at `info`: what the table holds for it, and even
    /// probabilities over its moves where the solve never met it.
    pub fn get_move_probabilities(&self, info: INFO) -> (view: StrategyForInfoView<INFO>)
        requires
            self.wf(),
            info.valid(),
        ensures
            view.wf(),
            view.is_terminal == info.terminal_utility() is Some,
            !view.is_terminal ==> view.moves@.len() == info.legal_moves().len(),
            forall|i: int|
                0 <= i < view.moves@.len() ==> (#[trigger] view.moves@[i]).0 == info.legal_moves()[i],
            self.infosets.index().contains_key(info) ==> view.shows(
                self.infosets.entry(self.infosets.index()[info] as int),
            ),
            !self.infosets.index().contains_key(info) ==> forall|i: int|
                0 <= i < view.moves@.len() ==> (#[trigger] view.moves@[i]).1 == PROBABILITY_ONE
                    / (view.moves@.len() as u64),
    {
        match self.infosets.lookup(&info) {
            Some(i) => {
                let data = self.infosets.get(i);
                proof {
                    assert(self.infosets.entry(i as int).wf());
                    assert(self.infosets.entry(i as int).describes(info));
                }
                let view = StrategyForInfoView::new(data);
                proof {
                    let entry = self.infosets.entry(i as int);
                    assert forall|j: int| 0 <= j < view.moves@.len() implies (
                    #[trigger] view.moves@[j]).0 == info.legal_moves()[j] by {
                        assert(move_data::moves_of(entry.moves)[j] == entry.moves[j].m);
                    }
                    if !view.is_terminal {
                        assert(move_data::moves_of(entry.moves).len() == entry.moves.len());
                    }
                }
                view
            },
            None => {
                let data = DataForInfoSet::new(&info);
                let view = StrategyForInfoView::new(&data);
                proof {
                    let entry = data@;
                    assert forall|j: int| 0 <= j < view.moves@.len() implies (
                    #[trigger] view.moves@[j]).0 == info.legal_moves()[j] && view.moves@[j].1
                        == PROBABILITY_ONE / (view.moves@.len() as u64) by {
                        assert(move_data::moves_of(entry.moves)[j] == entry.moves[j].m);
                        assert(entry.moves[j].d.fresh());
                    }
                    if !view.is_terminal {
                        assert(move_data::moves_of(entry.moves).len() == entry.moves.len());
                    }
                }
                view
            },
        }
    }

    /// Draws a move at `info` by the strategy: `None` where play has
    /// ended, else one of the legal moves.
    pub fn pick_move(&self, info: INFO) -> (picked: Option<INFO::Move>)
        requires
            self.wf(),
            info.valid(),
        ensures
            picked is None <==> info.terminal_utility() is Some,
            picked matches Some(m) ==> info.legal_moves().contains(m),
    {
        let ghost legal = info.legal_moves();
        let move_probabilities = self.get_move_probabilities(info);
        let picked = move_probabilities.pick_move();
        proof {
            if picked is Some {
                let m = picked->0;
                let i = choose|i: int|
                    0 <= i < move_probabilities.moves@.len() && (
                    #[trigger] move_probabilities.moves@[i]).0 == m && move_probabilities.moves@[i].1
                        > 0;
                assert(legal[i] == m);
            }
        }
        picked
    }
}

} // verus!
