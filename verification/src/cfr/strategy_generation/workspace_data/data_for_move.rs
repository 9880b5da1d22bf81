//! What a solve knows about one move of one information set.

use vstd::prelude::*;
use crate::cfr::game_model::{
    OracleGamestate, PlayerNumber, Probability, UtilityForAllPlayers, VisibleInfo, PROBABILITY_ONE,
};
use crate::cfr::strategy_generation::workspace_data::batch_item_data::DataPerBatchItem;
use crate::cfr::strategy_generation::workspace_data::timestamp::{Timestamp, MAX_BATCH_SIZE};
use crate::cfr::strategy_generation::workspace_data::StrategyGenerationProgress;

verus! {

/// Stands for a computed probability of zero in
/// `DataForMove::move_selection_probability`, where a plain zero means that
/// no probability was computed yet.
pub const ZERO_PROBABILITY: u64 = 0xffff_ffff_ffff_ffff;

/// Where cumulative regret stops growing.
pub const MAX_REGRET: u128 = 100_000_000_000_000_000_000_000_000_000;

/// The regret of having played the strategy, worth `before` to the mover,
/// where a move worth `after` was at hand: the gain forgone, never negative,
/// times the weight of the iteration.
pub open spec fn positive_regret(after: int, before: int, weight: int) -> int {
    if after > before {
        (after - before) * weight
    } else {
        0
    }
}

/// Cumulative regret `regret` grown by `addition`, held at `MAX_REGRET`.
pub open spec fn accumulated_regret(regret: int, addition: int) -> int {
    if regret + addition > MAX_REGRET {
        MAX_REGRET as int
    } else {
        regret + addition
    }
}

/// The statistics of one move: its cumulative regret, the probability the
/// current strategy plays it with, and, per batch place, the payoffs that
/// followed it in the running iteration.
#[derive(Debug)]
pub struct DataForMove {
    pub move_selection_probability: u64,
    pub cumulative_move_regret: u128,
    pub utility_after_move: DataPerBatchItem<UtilityForAllPlayers>,
}

impl DataForMove {
    pub open spec fn wf(&self) -> bool {
        &&& (self.move_selection_probability <= PROBABILITY_ONE || self.move_selection_probability
            == ZERO_PROBABILITY)
        &&& self.cumulative_move_regret <= MAX_REGRET
        &&& forall|i: int|
            0 <= i < MAX_BATCH_SIZE ==> (#[trigger] self.utility_after_move.data@[i]).bounded()
    }

    /// The state of a move nothing is known about.
    pub open spec fn fresh(&self) -> bool {
        &&& self.move_selection_probability == 0
        &&& self.cumulative_move_regret == 0
        &&& self.utility_after_move.untouched()
        &&& forall|i: int|
            0 <= i < MAX_BATCH_SIZE ==> (#[trigger] self.utility_after_move.data@[i]).is_zero()
    }

    /// The probability of this move among `n_moves`: an even share until a
    /// probability has been computed.
    pub open spec fn spec_probability(&self, n_moves: int) -> int {
        if self.move_selection_probability == 0 {
            PROBABILITY_ONE as int / n_moves
        } else if self.move_selection_probability == ZERO_PROBABILITY {
            0
        } else {
            self.move_selection_probability as int
        }
    }

    /// The payoffs that followed this move at `timestamp`.
    pub open spec fn cached(&self, timestamp: Timestamp) -> UtilityForAllPlayers {
        self.utility_after_move.data@[timestamp.item_within_iteration as int]
    }

    /// The regret this move gains at `timestamp`, where the strategy was
    /// worth `strategy_utility`, for the player `turn`.
    pub open spec fn regret_gain(
        &self,
        timestamp: Timestamp,
        turn: PlayerNumber,
        strategy_utility: UtilityForAllPlayers,
        weight: int,
    ) -> int {
        positive_regret(
            self.cached(timestamp).spec_get(turn as int),
            strategy_utility.spec_get(turn as int),
            weight,
        )
    }

    pub fn new() -> (d: DataForMove)
        ensures
            d.fresh(),
            d.wf(),
    {
        let d = DataForMove {
            cumulative_move_regret: 0,
            move_selection_probability: 0,
            utility_after_move: DataPerBatchItem::const_default_utility(),
        };
        assert forall|i: int| 0 <= i < MAX_BATCH_SIZE implies (
        #[trigger] d.utility_after_move.data@[i]).bounded() by {
            assert(d.utility_after_move.data@[i].is_zero());
        }
        d
    }

    /// Whether the payoffs after this move are known for `timestamp`.
    pub fn ready(&self, timestamp: Timestamp) -> (r: bool)
        requires
            timestamp.item_within_iteration < MAX_BATCH_SIZE,
        ensures
            r == self.utility_after_move.spec_ready(timestamp),
    {
        self.utility_after_move.ready(timestamp)
    }

    pub fn load_move_probability(&self, n_moves: usize) -> (p: Probability)
        requires
            self.wf(),
            n_moves > 0,
        ensures
            p == self.spec_probability(n_moves as int),
            p <= PROBABILITY_ONE,
    {
        let res = self.move_selection_probability;
        if res == 0 {
            PROBABILITY_ONE / (n_moves as u64)
        } else if res == ZERO_PROBABILITY {
            0
        } else {
            res
        }
    }

    /// The stored probability as it is encoded: zero where none was computed
    /// yet, `ZERO_PROBABILITY` for a computed zero.
    pub fn load_move_probability_unchecked(&self) -> (raw: u64)
        ensures
            raw == self.move_selection_probability,
    {
        self.move_selection_probability
    }

    pub fn write_move_probability(&mut self, p: Probability)
        requires
            old(self).wf(),
            p <= PROBABILITY_ONE,
        ensures
            final(self).wf(),
            forall|n: int| #[trigger] final(self).spec_probability(n) == p,
            final(self).move_selection_probability == (if p == 0 {
                ZERO_PROBABILITY
            } else {
                p
            }),
            final(self).cumulative_move_regret == old(self).cumulative_move_regret,
            final(self).utility_after_move == old(self).utility_after_move,
    {
        if p == 0 {
            self.move_selection_probability = ZERO_PROBABILITY;
        } else {
            self.move_selection_probability = p;
        }
    }

    pub fn utility_after_move(&self) -> (slots: &DataPerBatchItem<UtilityForAllPlayers>)
        ensures
            *slots == self.utility_after_move,
    {
        &self.utility_after_move
    }

    /// The state after the move `m` in `gamestate_before_move`, with the
    /// index of the entry of what its mover observes; the entry is made
    /// where that information set is new.
    pub fn get_post_move_infoset<INFO: VisibleInfo, G: OracleGamestate<INFO>>(
        strategy_generation_progress: &mut StrategyGenerationProgress<INFO>,
        gamestate_before_move: &G,
        m: &INFO::Move,
    ) -> (after: (usize, G))
        requires
            old(strategy_generation_progress).wf(),
            gamestate_before_move.valid(),
            gamestate_before_move.spec_info().terminal_utility() is None,
            gamestate_before_move.spec_info().legal_moves().contains(*m),
        ensures
            final(strategy_generation_progress).wf(),
            after.1 == gamestate_before_move.spec_advance(*m),
            after.1.valid(),
            after.1.remaining() < gamestate_before_move.remaining(),
            final(strategy_generation_progress).data_for_known_infosets.extends(
                &old(strategy_generation_progress).data_for_known_infosets,
            ),
            final(strategy_generation_progress).data_for_known_infosets.index() == old(strategy_generation_progress).data_for_known_infosets.index().insert(after.1.spec_info(), after.0),
            after.0 < final(strategy_generation_progress).len(),
            final(strategy_generation_progress).dirty() == old(strategy_generation_progress).dirty(),
            forall|j: int|
                0 <= j < old(strategy_generation_progress).len() ==> #[trigger] final(strategy_generation_progress).data_for_known_infosets.arena@[j] == old(strategy_generation_progress).data_for_known_infosets.arena@[j],
            old(strategy_generation_progress).data_for_known_infosets.index().contains_key(
                after.1.spec_info(),
            ) ==> final(strategy_generation_progress).len() == old(strategy_generation_progress).len(),
            !old(strategy_generation_progress).data_for_known_infosets.index().contains_key(
                after.1.spec_info(),
            ) ==> {
                &&& after.0 == old(strategy_generation_progress).len()
                &&& final(strategy_generation_progress).len() == old(strategy_generation_progress).len() + 1
                &&& final(strategy_generation_progress).data_for_known_infosets.entry(
                    after.0 as int,
                ).fresh()
            },
    {
        let state_after_move = gamestate_before_move.advance(m);
        let info_after_move = state_after_move.info_for_turn_player();
        let data_for_info_after_move =
            strategy_generation_progress.data_for_known_infosets.data_for_infoset(info_after_move);
        (data_for_info_after_move, state_after_move)
    }

    /// Adds to the cumulative regret what this move would have gained over
    /// the strategy at `timestamp`. Regret only ever grows.
    pub fn accumulate_regret(
        &mut self,
        timestamp: Timestamp,
        turn: PlayerNumber,
        strategy_utility: &UtilityForAllPlayers,
        weight: u32,
    )
        requires
            old(self).wf(),
            timestamp.item_within_iteration < MAX_BATCH_SIZE,
            old(self).utility_after_move.spec_ready(timestamp),
        ensures
            final(self).wf(),
            final(self).cumulative_move_regret == accumulated_regret(
                old(self).cumulative_move_regret as int,
                old(self).regret_gain(timestamp, turn, *strategy_utility, weight as int),
            ),
            final(self).cumulative_move_regret >= old(self).cumulative_move_regret,
            final(self).move_selection_probability == old(self).move_selection_probability,
            final(self).utility_after_move == old(self).utility_after_move,
    {
        let counterfactual_before: i128 = strategy_utility.get(turn) as i128;
        let counterfactual_after: i128 = match self.utility_after_move.get(timestamp) {
            Some(u) => u.get(turn) as i128,
            None => 0,
        };
        if counterfactual_after > counterfactual_before {
            let gain: u128 = (counterfactual_after - counterfactual_before) as u128;
            let w: u128 = weight as u128;
            assert(0 <= gain * w <= 0x1_0000_0000_0000_0000 * 0xffff_ffff) by (nonlinear_arith)
                requires
                    0 <= gain <= 0x1_0000_0000_0000_0000,
                    0 <= w <= 0xffff_ffff,
            ;
            let weighted_regret: u128 = gain * w;
            let sum: u128 = self.cumulative_move_regret + weighted_regret;
            if sum > MAX_REGRET {
                self.cumulative_move_regret = MAX_REGRET;
            } else {
                self.cumulative_move_regret = sum;
            }
        }
    }

    pub fn regret(&self) -> (r: u128)
        ensures
            r == self.cumulative_move_regret,
    {
        self.cumulative_move_regret
    }
}

} // verus!
