//! Per-player payoffs in fixed point.

use vstd::prelude::*;
use crate::cfr::game_model::{PlayerNumber, Probability, PROBABILITY_ONE};

verus! {

/// A payoff in billionths of a unit.
pub type Utility = i64;

/// The largest number of players a game may have.
pub const MAX_PLAYERS: usize = 4;

/// Bound on the magnitude of every payoff the solver handles.
pub const MAX_UTILITY: i64 = 1_000_000_000_000_000;

/// `numerator / denominator`, rounded toward zero.
pub open spec fn div_toward_zero(numerator: int, denominator: int) -> int {
    if numerator >= 0 {
        numerator / denominator
    } else {
        -((-numerator) / denominator)
    }
}

/// `value * weight / PROBABILITY_ONE`, rounded toward zero: the payoff
/// `value` weighted by the probability `weight`.
pub open spec fn scaled(value: int, weight: int) -> int {
    div_toward_zero(value * weight, PROBABILITY_ONE as int)
}

/// Weighting by a probability never grows a payoff, and keeps its sign.
pub proof fn lemma_scaled_bound(value: int, weight: int, bound: int)
    requires
        -bound <= value <= bound,
        0 <= weight <= PROBABILITY_ONE,
    ensures
        -bound <= scaled(value, weight) <= bound,
        scaled(value, weight) * PROBABILITY_ONE <= bound * weight,
        -(bound * weight) <= scaled(value, weight) * PROBABILITY_ONE,
        value >= 0 ==> scaled(value, weight) >= 0,
        value <= 0 ==> scaled(value, weight) <= 0,
{
    let p = value * weight;
    let one = PROBABILITY_ONE as int;
    assert(-(bound * weight) <= p <= bound * weight) by (nonlinear_arith)
        requires
            -bound <= value <= bound,
            0 <= weight,
            p == value * weight,
    ;
    assert(bound * weight <= bound * one) by (nonlinear_arith)
        requires
            0 <= bound,
            0 <= weight <= one,
    ;
    assert(value >= 0 ==> p >= 0) by (nonlinear_arith)
        requires
            0 <= weight,
            p == value * weight,
    ;
    assert(value <= 0 ==> p <= 0) by (nonlinear_arith)
        requires
            0 <= weight,
            p == value * weight,
    ;
    if p >= 0 {
        assert(0 <= (p / one) * one <= p) by (nonlinear_arith)
            requires
                p >= 0,
                one == 1_000_000_000,
        ;
    } else {
        assert(0 <= ((-p) / one) * one <= -p) by (nonlinear_arith)
            requires
                p < 0,
                one == 1_000_000_000,
        ;
    }
}

/// Computes `scaled` without intermediate overflow.
pub fn scale(value: Utility, weight: Probability) -> (r: i128)
    ensures
        r == scaled(value as int, weight as int),
{
    let v: i128 = value as i128;
    let w: i128 = weight as i128;
    assert(-0x8000_0000_0000_0000 * 0xffff_ffff_ffff_ffff <= v * w <= 0x8000_0000_0000_0000
        * 0xffff_ffff_ffff_ffff) by (nonlinear_arith)
        requires
            -0x8000_0000_0000_0000 <= v < 0x8000_0000_0000_0000,
            0 <= w <= 0xffff_ffff_ffff_ffff,
    ;
    let product: i128 = v * w;
    if product >= 0 {
        product / 1_000_000_000
    } else {
        -((-product) / 1_000_000_000)
    }
}

/// One payoff for each of up to `MAX_PLAYERS` players; players beyond those
/// playing hold zero.
#[derive(Debug, Clone, Copy, PartialEq, Eq)]
pub struct UtilityForAllPlayers {
    pub util: [Utility; 4],
}

impl View for UtilityForAllPlayers {
    type V = Seq<Utility>;

    /// The payoffs by player number.
    open spec fn view(&self) -> Seq<Utility> {
        self.util@
    }
}

impl UtilityForAllPlayers {
    /// The payoff of `player`, zero for a player number out of range.
    pub open spec fn spec_get(&self, player: int) -> int {
        if 0 <= player < MAX_PLAYERS {
            self@[player] as int
        } else {
            0
        }
    }

    /// Every payoff is zero.
    pub open spec fn is_zero(&self) -> bool {
        forall|i: int| 0 <= i < MAX_PLAYERS ==> #[trigger] self@[i] == 0
    }

    /// Every payoff lies within `MAX_UTILITY` of zero.
    pub open spec fn bounded(&self) -> bool {
        forall|i: int| 0 <= i < MAX_PLAYERS ==> -MAX_UTILITY <= #[trigger] self@[i] <= MAX_UTILITY
    }

    /// Whether `self` is `before` with `scaled(other, discount)` added to each payoff.
    pub open spec fn is_accumulation(
        &self,
        before: UtilityForAllPlayers,
        other: UtilityForAllPlayers,
        discount: Probability,
    ) -> bool {
        forall|i: int|
            0 <= i < MAX_PLAYERS ==> #[trigger] self@[i] == before@[i] + scaled(
                other@[i] as int,
                discount as int,
            )
    }

    /// Whether `self` is `before` with each payoff weighted by `discount`.
    pub open spec fn is_reduction(&self, before: UtilityForAllPlayers, discount: Probability) -> bool {
        forall|i: int|
            0 <= i < MAX_PLAYERS ==> #[trigger] self@[i] == scaled(before@[i] as int, discount as int)
    }

    pub fn get(&self, player_number: PlayerNumber) -> (u: Utility)
        ensures
            u == self.spec_get(player_number as int),
    {
        if player_number < MAX_PLAYERS {
            self.util[player_number]
        } else {
            0
        }
    }

    /// Adds `other`, weighted by `discount`, to `self`.
    pub fn accumulate(&mut self, other: &UtilityForAllPlayers, discount: Probability)
        requires
            forall|i: int|
                0 <= i < MAX_PLAYERS ==> i64::MIN <= (#[trigger] old(self)@[i]) + scaled(
                    other@[i] as int,
                    discount as int,
                ) <= i64::MAX,
        ensures
            final(self).is_accumulation(*old(self), *other, discount),
    {
        let ghost before = *self;
        let mut i: usize = 0;
        while i < MAX_PLAYERS
            invariant
                i <= MAX_PLAYERS,
                forall|j: int|
                    0 <= j < MAX_PLAYERS ==> i64::MIN <= (#[trigger] before@[j]) + scaled(
                        other@[j] as int,
                        discount as int,
                    ) <= i64::MAX,
                forall|j: int|
                    0 <= j < i ==> #[trigger] self@[j] == before@[j] + scaled(
                        other@[j] as int,
                        discount as int,
                    ),
                forall|j: int| i <= j < MAX_PLAYERS ==> #[trigger] self@[j] == before@[j],
            decreases MAX_PLAYERS - i,
        {
            let ghost current = *self;
            assert(self@[i as int] == before@[i as int]);
            assert(i64::MIN <= before@[i as int] + scaled(other@[i as int] as int, discount as int)
                <= i64::MAX);
            let addend: i128 = scale(other.util[i], discount);
            let sum: i128 = self.util[i] as i128 + addend;
            self.util[i] = sum as i64;
            assert(self@ == current@.update(i as int, sum as i64));
            i += 1;
        }
    }

    /// Weights every payoff by `discount`.
    pub fn reduce(&mut self, discount: Probability)
        requires
            forall|i: int|
                0 <= i < MAX_PLAYERS ==> i64::MIN <= scaled(
                    (#[trigger] old(self)@[i]) as int,
                    discount as int,
                ) <= i64::MAX,
        ensures
            final(self).is_reduction(*old(self), discount),
    {
        let ghost before = *self;
        let mut i: usize = 0;
        while i < MAX_PLAYERS
            invariant
                i <= MAX_PLAYERS,
                forall|j: int|
                    0 <= j < MAX_PLAYERS ==> i64::MIN <= scaled(
                        (#[trigger] before@[j]) as int,
                        discount as int,
                    ) <= i64::MAX,
                forall|j: int|
                    0 <= j < i ==> #[trigger] self@[j] == scaled(before@[j] as int, discount as int),
                forall|j: int| i <= j < MAX_PLAYERS ==> #[trigger] self@[j] == before@[j],
            decreases MAX_PLAYERS - i,
        {
            let ghost current = *self;
            assert(self@[i as int] == before@[i as int]);
            let weighted: i128 = scale(self.util[i], discount);
            self.util[i] = weighted as i64;
            assert(self@ == current@.update(i as int, weighted as i64));
            i += 1;
        }
    }

    /// The all-zero payoff.
    pub fn const_default() -> (u: UtilityForAllPlayers)
        ensures
            u.is_zero(),
            u.bounded(),
    {
        UtilityForAllPlayers { util: [0, 0, 0, 0] }
    }
}

impl Default for UtilityForAllPlayers {
    fn default() -> (u: UtilityForAllPlayers)
        ensures
            u.is_zero(),
            u.bounded(),
    {
        UtilityForAllPlayers::const_default()
    }
}

} // verus!
