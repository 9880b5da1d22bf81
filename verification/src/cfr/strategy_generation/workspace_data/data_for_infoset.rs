//! What a solve knows about one information set.

use vstd::prelude::*;
use crate::cfr::game_model::utility;
use crate::cfr::game_model::utility::scale;
use crate::cfr::game_model::{
    PlayerNumber, Probability, UtilityForAllPlayers, VisibleInfo, MAX_MOVES, MAX_PLAYERS,
    MAX_UTILITY, PROBABILITY_ONE,
};
use crate::cfr::strategy_generation::workspace_data::batch_item_data::DataPerBatchItem;
use crate::cfr::strategy_generation::workspace_data::data_for_move::DataForMove;
use crate::cfr::strategy_generation::workspace_data::move_data;
use crate::cfr::strategy_generation::workspace_data::move_data::{
    MoveWithData, MoveWithDataAllocation,
};
use crate::cfr::strategy_generation::workspace_data::timestamp::{Timestamp, MAX_BATCH_SIZE};

verus! {

/// The statistics of one information set. They are made when a traversal
/// first meets the information set and live as long as the solve.
pub struct DataForInfoSet<INFO: VisibleInfo> {
    pub turn_player: PlayerNumber,
    /// The final payoffs where play has ended; such an entry has no moves.
    pub terminal_utility: Option<UtilityForAllPlayers>,
    /// How often a value of this information set has been completed.
    pub counterfactual_n: u64,
    /// The running average of the completed values.
    pub cumulative_counterfactual: UtilityForAllPlayers,
    /// The value of this information set in the running iteration, per batch
    /// place.
    pub counterfactual_for_current_iteration: DataPerBatchItem<UtilityForAllPlayers>,
    /// The last iteration in which a value was completed here.
    pub global_updated_iteration: u32,
    pub move_data: Vec<MoveWithData<INFO>>,
}

/// The mathematical content of a `DataForInfoSet`.
pub struct InfoSetStatistics<INFO: VisibleInfo> {
    pub turn_player: PlayerNumber,
    pub terminal_utility: Option<UtilityForAllPlayers>,
    pub counterfactual_n: u64,
    pub cumulative_counterfactual: UtilityForAllPlayers,
    pub counterfactual_for_current_iteration: DataPerBatchItem<UtilityForAllPlayers>,
    pub global_updated_iteration: u32,
    pub moves: Seq<MoveWithData<INFO>>,
}

/// The sum of the probabilities of the first `k` of `moves`.
pub open spec fn probability_sum<INFO: VisibleInfo>(moves: Seq<MoveWithData<INFO>>, k: int) -> int
    decreases k,
{
    if k <= 0 {
        0
    } else {
        probability_sum(moves, k - 1) + moves[k - 1].d.spec_probability(moves.len() as int)
    }
}

/// What the strategy is worth to `player` over the first `k` of `moves`:
/// the payoffs that followed each move at `timestamp`, each weighted by the
/// probability of its move.
pub open spec fn strategy_value<INFO: VisibleInfo>(
    moves: Seq<MoveWithData<INFO>>,
    timestamp: Timestamp,
    player: int,
    k: int,
) -> int
    decreases k,
{
    if k <= 0 {
        0
    } else {
        strategy_value(moves, timestamp, player, k - 1) + utility::scaled(
            moves[k - 1].d.cached(timestamp)@[player] as int,
            moves[k - 1].d.spec_probability(moves.len() as int),
        )
    }
}

/// The running average `average` of `n` values after one more value,
/// `contribution`, rounded toward zero.
pub open spec fn average_after(average: int, n: int, contribution: int) -> int {
    utility::div_toward_zero(average * n + contribution, n + 1)
}

/// A count of visits after one more visit; it stops at the largest count.
pub open spec fn visits_after(n: int) -> int {
    if n < u64::MAX {
        n + 1
    } else {
        n
    }
}

/// A running average within the payoff bound stays within it.
pub proof fn lemma_average_bound(average: int, n: int, contribution: int)
    requires
        -MAX_UTILITY <= average <= MAX_UTILITY,
        -MAX_UTILITY <= contribution <= MAX_UTILITY,
        0 <= n,
    ensures
        -MAX_UTILITY <= average_after(average, n, contribution) <= MAX_UTILITY,
{
    let m = MAX_UTILITY as int;
    let total = average * n + contribution;
    assert(-(m * (n + 1)) <= total <= m * (n + 1)) by (nonlinear_arith)
        requires
            -m <= average <= m,
            -m <= contribution <= m,
            0 <= n,
            total == average * n + contribution,
    ;
    if total >= 0 {
        assert(total / (n + 1) <= m) by (nonlinear_arith)
            requires
                0 <= total <= m * (n + 1),
                0 <= n,
        ;
        assert(total / (n + 1) >= 0) by (nonlinear_arith)
            requires
                0 <= total,
                0 <= n,
        ;
    } else {
        assert((-total) / (n + 1) <= m) by (nonlinear_arith)
            requires
                0 <= -total <= m * (n + 1),
                0 <= n,
        ;
        assert((-total) / (n + 1) >= 0) by (nonlinear_arith)
            requires
                0 <= -total,
                0 <= n,
        ;
    }
}

/// Over moves that all hold an even share, the shares of the first `k` add
/// up to `k` shares.
pub proof fn lemma_even_shares<INFO: VisibleInfo>(moves: Seq<MoveWithData<INFO>>, k: int)
    requires
        move_data::all_fresh(moves),
        0 <= k <= moves.len(),
    ensures
        probability_sum(moves, k) == k * (PROBABILITY_ONE as int / moves.len() as int),
    decreases k,
{
    let share = PROBABILITY_ONE as int / moves.len() as int;
    if k > 0 {
        lemma_even_shares(moves, k - 1);
        assert(moves[k - 1].d.fresh());
        assert(k * share == (k - 1) * share + share) by (nonlinear_arith);
    } else {
        assert(k * share == 0) by (nonlinear_arith)
            requires
                k == 0,
        ;
    }
}

/// Even shares of `n > 0` moves add up to one, short of it by less than `n`
/// billionths.
pub proof fn lemma_even_shares_total(n: int)
    requires
        n > 0,
    ensures
        PROBABILITY_ONE - n < n * (PROBABILITY_ONE as int / n) <= PROBABILITY_ONE,
{
    let one = PROBABILITY_ONE as int;
    assert(one - n < n * (one / n) <= one) by (nonlinear_arith)
        requires
            n > 0,
            one >= 0,
    ;
}

impl<INFO: VisibleInfo> InfoSetStatistics<INFO> {
    pub open spec fn wf(&self) -> bool {
        &&& self.terminal_utility matches Some(u) ==> u.bounded() && self.moves.len() == 0
        &&& self.terminal_utility is None ==> 0 < self.moves.len() <= MAX_MOVES
        &&& move_data::all_wf(self.moves)
        &&& self.terminal_utility is None ==> PROBABILITY_ONE - self.moves.len() < probability_sum(
            self.moves,
            self.moves.len() as int,
        ) <= PROBABILITY_ONE
        &&& self.cumulative_counterfactual.bounded()
        &&& forall|i: int|
            0 <= i < MAX_BATCH_SIZE ==> (
            #[trigger] self.counterfactual_for_current_iteration.data@[i]).bounded()
    }

    /// The statistics of an information set nothing is known about yet.
    pub open spec fn fresh(&self) -> bool {
        &&& self.counterfactual_n == 0
        &&& self.cumulative_counterfactual.is_zero()
        &&& self.counterfactual_for_current_iteration.untouched()
        &&& forall|i: int|
            0 <= i < MAX_BATCH_SIZE ==> (
            #[trigger] self.counterfactual_for_current_iteration.data@[i]).is_zero()
        &&& self.global_updated_iteration == 0
        &&& move_data::all_fresh(self.moves)
    }

    /// Whether these are the statistics of `info`: its mover, its final
    /// payoffs if play has ended, its legal moves otherwise.
    pub open spec fn describes(&self, info: INFO) -> bool {
        &&& self.turn_player == info.spec_turn()
        &&& self.terminal_utility == info.terminal_utility()
        &&& self.terminal_utility is None ==> move_data::moves_of(self.moves) == info.legal_moves()
    }

    pub open spec fn spec_is_ready(&self, timestamp: Timestamp) -> bool {
        self.counterfactual_for_current_iteration.spec_ready(timestamp)
    }

    /// The value of this information set at `timestamp`.
    pub open spec fn value(&self, timestamp: Timestamp) -> UtilityForAllPlayers {
        self.counterfactual_for_current_iteration.data@[timestamp.item_within_iteration as int]
    }

    /// Whether `self` is `before` after a completed value was recorded:
    /// `ready_value` became the value of generation `timestamp`, and
    /// `ready_value` weighted by `weight` entered the running average.
    pub open spec fn is_recorded(
        &self,
        before: Self,
        ready_value: UtilityForAllPlayers,
        weight: Probability,
        timestamp: Timestamp,
    ) -> bool {
        &&& self.turn_player == before.turn_player
        &&& self.terminal_utility == before.terminal_utility
        &&& self.moves == before.moves
        &&& self.global_updated_iteration == before.global_updated_iteration
        &&& self.counterfactual_n == visits_after(before.counterfactual_n as int)
        &&& forall|p: int|
            0 <= p < MAX_PLAYERS ==> #[trigger] self.cumulative_counterfactual@[p] == average_after(
                before.cumulative_counterfactual@[p] as int,
                before.counterfactual_n as int,
                utility::scaled(ready_value@[p] as int, weight as int),
            )
        &&& self.counterfactual_for_current_iteration.is_written(
            before.counterfactual_for_current_iteration,
            ready_value,
            timestamp,
        )
    }
}

impl<INFO: VisibleInfo> View for DataForInfoSet<INFO> {
    type V = InfoSetStatistics<INFO>;

    open spec fn view(&self) -> InfoSetStatistics<INFO> {
        InfoSetStatistics {
            turn_player: self.turn_player,
            terminal_utility: self.terminal_utility,
            counterfactual_n: self.counterfactual_n,
            cumulative_counterfactual: self.cumulative_counterfactual,
            counterfactual_for_current_iteration: self.counterfactual_for_current_iteration,
            global_updated_iteration: self.global_updated_iteration,
            moves: self.move_data@,
        }
    }
}

impl<INFO: VisibleInfo> DataForInfoSet<INFO> {
    /// The statistics of `info` before anything is known about it.
    pub fn new(info: &INFO) -> (d: Self)
        requires
            info.valid(),
        ensures
            d@.wf(),
            d@.fresh(),
            d@.describes(*info),
    {
        let mut reported: Vec<INFO::Move> = Vec::new();
        let terminal_utility = info.run_for_moves(&mut reported);
        let mut allocation = MoveWithDataAllocation::<INFO>::new();
        let mut i: usize = 0;
        while i < reported.len()
            invariant
                i <= reported.len(),
                move_data::all_fresh(allocation.v@),
                move_data::all_wf(allocation.v@),
                move_data::moves_of(allocation.v@) == reported@.subrange(0, i as int),
            decreases reported.len() - i,
        {
            allocation.push(reported[i]);
            i += 1;
            assert(reported@.subrange(0, i as int) =~= reported@.subrange(0, i - 1).push(
                reported@[i - 1],
            ));
        }
        assert(reported@.subrange(0, i as int) =~= reported@);
        let zero = UtilityForAllPlayers::const_default();
        let d = Self {
            turn_player: info.turn(),
            terminal_utility,
            move_data: allocation.into_vec(),
            counterfactual_n: 0,
            cumulative_counterfactual: zero,
            counterfactual_for_current_iteration: DataPerBatchItem::const_default_utility(),
            global_updated_iteration: 0,
        };
        proof {
            assert(move_data::moves_of(d@.moves).len() == d@.moves.len());
            assert forall|i: int| 0 <= i < MAX_BATCH_SIZE implies (
            #[trigger] d@.counterfactual_for_current_iteration.data@[i]).bounded() by {
                assert(d@.counterfactual_for_current_iteration.data@[i].is_zero());
            }
            if terminal_utility is None {
                let n = d@.moves.len() as int;
                lemma_even_shares(d@.moves, n);
                lemma_even_shares_total(n);
            }
        }
        d
    }

    pub fn turn(&self) -> (t: PlayerNumber)
        ensures
            t == self@.turn_player,
    {
        self.turn_player
    }

    /// Whether the value of this information set is known for `timestamp`.
    pub fn is_ready(&self, timestamp: Timestamp) -> (r: bool)
        requires
            timestamp.item_within_iteration < MAX_BATCH_SIZE,
        ensures
            r == self@.spec_is_ready(timestamp),
    {
        self.counterfactual_for_current_iteration.ready(timestamp)
    }

    /// Completes the value `util` of this information set for `timestamp`:
    /// `util` becomes its value of that generation, and `util` weighted by
    /// `gamestate_probablity` enters the running average.
    pub fn ready_with_counterfactual(
        &mut self,
        util: UtilityForAllPlayers,
        gamestate_probablity: Probability,
        timestamp: Timestamp,
    )
        requires
            old(self)@.wf(),
            util.bounded(),
            gamestate_probablity <= PROBABILITY_ONE,
            timestamp.item_within_iteration < MAX_BATCH_SIZE,
        ensures
            final(self)@.wf(),
            final(self)@.is_recorded(old(self)@, util, gamestate_probablity, timestamp),
    {
        let prev_n: u64 = self.counterfactual_n;
        if prev_n < u64::MAX {
            self.counterfactual_n = prev_n + 1;
        }
        let ghost before = self.cumulative_counterfactual;
        let mut p: usize = 0;
        while p < MAX_PLAYERS
            invariant
                p <= MAX_PLAYERS,
                before.bounded(),
                util.bounded(),
                gamestate_probablity <= PROBABILITY_ONE,
                forall|j: int|
                    0 <= j < p ==> #[trigger] self.cumulative_counterfactual@[j] == average_after(
                        before@[j] as int,
                        prev_n as int,
                        utility::scaled(util@[j] as int, gamestate_probablity as int),
                    ),
                forall|j: int|
                    p <= j < MAX_PLAYERS ==> #[trigger] self.cumulative_counterfactual@[j]
                        == before@[j],
                self.turn_player == old(self).turn_player,
                self.terminal_utility == old(self).terminal_utility,
                self.move_data == old(self).move_data,
                self.global_updated_iteration == old(self).global_updated_iteration,
                self.counterfactual_for_current_iteration
                    == old(self).counterfactual_for_current_iteration,
                self.counterfactual_n == visits_after(prev_n as int),
            decreases MAX_PLAYERS - p,
        {
            let ghost current = self.cumulative_counterfactual;
            assert(self.cumulative_counterfactual@[p as int] == before@[p as int]);
            assert(-MAX_UTILITY <= before@[p as int] <= MAX_UTILITY);
            assert(-MAX_UTILITY <= util@[p as int] <= MAX_UTILITY);
            proof {
                utility::lemma_scaled_bound(
                    util@[p as int] as int,
                    gamestate_probablity as int,
                    MAX_UTILITY as int,
                );
            }
            let contribution: i128 = scale(util.util[p], gamestate_probablity);
            let average: i128 = self.cumulative_counterfactual.util[p] as i128;
            let n: i128 = prev_n as i128;
            assert(-MAX_UTILITY * 0xffff_ffff_ffff_ffff <= average * n <= MAX_UTILITY
                * 0xffff_ffff_ffff_ffff) by (nonlinear_arith)
                requires
                    -MAX_UTILITY <= average <= MAX_UTILITY,
                    0 <= n <= 0xffff_ffff_ffff_ffff,
            ;
            let total: i128 = average * n + contribution;
            let next: i128 = if total >= 0 {
                total / (n + 1)
            } else {
                -((-total) / (n + 1))
            };
            proof {
                lemma_average_bound(average as int, n as int, contribution as int);
            }
            self.cumulative_counterfactual.util[p] = next as i64;
            assert(self.cumulative_counterfactual@ == current@.update(p as int, next as i64));
            p += 1;
        }
        self.counterfactual_for_current_iteration.set(util, timestamp);
        proof {
            let after = self@;
            assert forall|i: int| 0 <= i < MAX_BATCH_SIZE implies (
            #[trigger] after.counterfactual_for_current_iteration.data@[i]).bounded() by {
                if i != timestamp.item_within_iteration {
                    assert(old(self)@.counterfactual_for_current_iteration.data@[i].bounded());
                }
            }
            assert forall|j: int| 0 <= j < MAX_PLAYERS implies -MAX_UTILITY
                <= #[trigger] after.cumulative_counterfactual@[j] <= MAX_UTILITY by {
                utility::lemma_scaled_bound(
                    util@[j] as int,
                    gamestate_probablity as int,
                    MAX_UTILITY as int,
                );
                lemma_average_bound(
                    before@[j] as int,
                    prev_n as int,
                    utility::scaled(util@[j] as int, gamestate_probablity as int),
                );
            }
        }
    }

    pub fn move_count(&self) -> (n: usize)
        ensures
            n == self@.moves.len(),
    {
        self.move_data.len()
    }

    pub fn moves(&self) -> (moves: &Vec<MoveWithData<INFO>>)
        ensures
            moves@ == self@.moves,
    {
        &self.move_data
    }

    /// Where play has ended here, completes the final payoffs, weighted by
    /// the probability of the sampled state, as the value for `timestamp`
    /// and returns `true`. Otherwise changes nothing and returns `false`.
    pub fn increment_terminal_counterfactual(
        &mut self,
        gamestate_probablity: Probability,
        timestamp: Timestamp,
    ) -> (terminal: bool)
        requires
            old(self)@.wf(),
            gamestate_probablity <= PROBABILITY_ONE,
            timestamp.item_within_iteration < MAX_BATCH_SIZE,
        ensures
            final(self)@.wf(),
            terminal == old(self)@.terminal_utility is Some,
            !terminal ==> final(self)@ == old(self)@,
            old(self)@.terminal_utility matches Some(u) ==> {
                &&& final(self)@.value(timestamp).is_reduction(u, gamestate_probablity)
                &&& final(self)@.is_recorded(
                    old(self)@,
                    final(self)@.value(timestamp),
                    PROBABILITY_ONE,
                    timestamp,
                )
            },
    {
        match self.terminal_utility {
            Some(x) => {
                let mut value = x;
                proof {
                    assert forall|i: int| 0 <= i < MAX_PLAYERS implies i64::MIN <= utility::scaled(
                        (#[trigger] value@[i]) as int,
                        gamestate_probablity as int,
                    ) <= i64::MAX by {
                        utility::lemma_scaled_bound(
                            value@[i] as int,
                            gamestate_probablity as int,
                            MAX_UTILITY as int,
                        );
                    }
                }
                value.reduce(gamestate_probablity);
                proof {
                    assert forall|i: int| 0 <= i < MAX_PLAYERS implies -MAX_UTILITY
                        <= #[trigger] value@[i] <= MAX_UTILITY by {
                        utility::lemma_scaled_bound(
                            x@[i] as int,
                            gamestate_probablity as int,
                            MAX_UTILITY as int,
                        );
                    }
                }
                self.ready_with_counterfactual(value, PROBABILITY_ONE, timestamp);
                true
            },
            None => false,
        }
    }

    /// Marks `timestamp`'s iteration as the last one that completed a value
    /// here; `true` the first time within an iteration.
    pub fn check_for_writeback(&mut self, timestamp: Timestamp) -> (first: bool)
        ensures
            first == (old(self)@.global_updated_iteration != timestamp.cfr_iteration),
            final(self)@ == (InfoSetStatistics {
                global_updated_iteration: timestamp.cfr_iteration,
                ..old(self)@
            }),
    {
        let current_iteration = timestamp.cfr_iteration;
        let old_iter = self.global_updated_iteration;
        self.global_updated_iteration = current_iteration;
        old_iter != current_iteration
    }

    pub fn get_iteration_utility_if_ready(&self, timestamp: Timestamp) -> (value: Option<
        UtilityForAllPlayers,
    >)
        requires
            timestamp.item_within_iteration < MAX_BATCH_SIZE,
        ensures
            value == self@.counterfactual_for_current_iteration.spec_get(timestamp),
    {
        match self.counterfactual_for_current_iteration.get(timestamp) {
            Some(x) => Some(*x),
            None => None,
        }
    }

    pub fn get_cumulative_counterfactual(&self) -> (average: UtilityForAllPlayers)
        ensures
            average == self@.cumulative_counterfactual,
    {
        self.cumulative_counterfactual
    }

    pub fn is_terminal(&self) -> (terminal: bool)
        ensures
            terminal == self@.terminal_utility is Some,
    {
        self.terminal_utility.is_some()
    }
}

} // verus!
