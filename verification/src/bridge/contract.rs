//! The contract that is played, and what it scores.

use vstd::prelude::*;
use crate::bridge::card::{Card, Suit};

verus! {

#[derive(Clone, Copy, Debug, Hash, Eq, PartialEq, Structural)]
pub enum Doubling {
    Undoubled,
    Doubled,
    Redoubled,
}

/// A contract: the declaring side undertakes to win `6 + n` tricks with
/// `trump` as trumps, or with no trumps.
#[derive(Clone, Copy, Debug, Hash, Eq, PartialEq, Structural)]
pub struct Contract {
    pub trump: Option<Suit>,
    pub n: i32,
    pub doubling: Doubling,
    pub declarer_vulnerable: bool,
    pub defender_vulnerable: bool,
}

impl Contract {
    /// The level is one of the seven there are.
    pub open spec fn wf(&self) -> bool {
        1 <= self.n <= 7
    }

    /// Whether `new_card` beats `current_winner`, the card that wins the
    /// trick so far: a trump beats any card that is no trump, and within
    /// a suit the higher rank wins. A card of another suit that is no
    /// trump never wins.
    pub open spec fn spec_card_defeats_card(&self, current_winner: Card, new_card: Card) -> bool {
        let current_is_trump = Some(current_winner.spec_suit()) == self.trump;
        let new_is_trump = Some(new_card.spec_suit()) == self.trump;
        let outranked = new_card.spec_rank().spec_n() > current_winner.spec_rank().spec_n();
        if current_is_trump {
            new_is_trump && outranked
        } else if new_is_trump {
            true
        } else {
            new_card.spec_suit() == current_winner.spec_suit() && outranked
        }
    }

    /// The factor doubling puts on the trick score.
    pub open spec fn spec_multiplier(&self) -> int {
        match self.doubling {
            Doubling::Undoubled => 1,
            Doubling::Doubled => 2,
            Doubling::Redoubled => 4,
        }
    }

    /// The score for the tricks bid: in no trumps forty for the first and
    /// thirty for each further one, in a major suit thirty each, in a
    /// minor suit twenty each, times the factor of doubling.
    pub open spec fn spec_base_trick_score(&self, multiplier: int) -> int {
        match self.trump {
            None => if self.n >= 1 {
                40 * multiplier + 30 * (self.n - 1) * multiplier
            } else {
                0
            },
            Some(Suit::Clubs) | Some(Suit::Diamonds) => 20 * self.n * multiplier,
            Some(Suit::Hearts) | Some(Suit::Spades) => 30 * self.n * multiplier,
        }
    }

    /// The score for `delta_tricks` tricks won beyond those bid.
    pub open spec fn spec_overtrick_points(&self, delta_tricks: int) -> int {
        if delta_tricks <= 0 {
            0
        } else {
            match self.doubling {
                Doubling::Undoubled => (match self.trump {
                    None => 30int,
                    Some(Suit::Clubs) | Some(Suit::Diamonds) => 20int,
                    Some(Suit::Hearts) | Some(Suit::Spades) => 30int,
                }) * delta_tricks,
                Doubling::Doubled => (if self.declarer_vulnerable {
                    200int
                } else {
                    100int
                }) * delta_tricks,
                Doubling::Redoubled => (if self.declarer_vulnerable {
                    400int
                } else {
                    200int
                }) * delta_tricks,
            }
        }
    }

    /// The bonus for making a doubled or redoubled contract.
    pub open spec fn spec_insult_bonus(&self) -> int {
        match self.doubling {
            Doubling::Undoubled => 0,
            Doubling::Doubled => 50,
            Doubling::Redoubled => 100,
        }
    }

    /// The bonus for the contract made: for a small or a grand slam, for a
    /// game, where the trick score reaches a hundred, or for a part score.
    pub open spec fn spec_contract_bonus(&self, base_trick_score: int) -> int {
        if self.n == 6 {
            if self.declarer_vulnerable {
                1250
            } else {
                800
            }
        } else if self.n == 7 {
            if self.declarer_vulnerable {
                2000
            } else {
                1300
            }
        } else if base_trick_score >= 100 {
            if self.declarer_vulnerable {
                500
            } else {
                300
            }
        } else {
            50
        }
    }

    /// What the declaring side loses for falling `undertricks` tricks
    /// short.
    pub open spec fn spec_undertrick_penalty(&self, undertricks: int) -> int {
        match self.doubling {
            Doubling::Undoubled => (if self.declarer_vulnerable {
                100int
            } else {
                50int
            }) * undertricks,
            Doubling::Doubled => if self.declarer_vulnerable {
                200 * undertricks
            } else if undertricks == 1 {
                100
            } else if undertricks == 2 {
                300
            } else if undertricks == 3 {
                500
            } else {
                500 + 300 * (undertricks - 3)
            },
            Doubling::Redoubled => if self.declarer_vulnerable {
                400 * undertricks
            } else if undertricks == 1 {
                200
            } else if undertricks == 2 {
                600
            } else if undertricks == 3 {
                1000
            } else {
                1000 + 600 * (undertricks - 3)
            },
        }
    }

    /// What the declaring side scores for winning `tricks_made` tricks:
    /// the scores and bonuses of the contract made, or the penalty, taken
    /// negative, of the contract lost.
    pub open spec fn spec_declarer_points(&self, tricks_made: int) -> int {
        let delta_tricks = tricks_made - (6 + self.n);
        if delta_tricks >= 0 {
            let base_trick_score = self.spec_base_trick_score(self.spec_multiplier());
            base_trick_score + self.spec_overtrick_points(delta_tricks) + self.spec_insult_bonus()
                + self.spec_contract_bonus(base_trick_score)
        } else {
            -self.spec_undertrick_penalty(-delta_tricks)
        }
    }

    pub fn card_defeats_card(&self, current_winner: Card, new_card: Card) -> (defeats: bool)
        requires
            current_winner.wf(),
            new_card.wf(),
        ensures
            defeats == self.spec_card_defeats_card(current_winner, new_card),
    {
        let current_is_trump = match self.trump {
            Some(t) => t == current_winner.suit(),
            None => false,
        };
        let new_is_trump = match self.trump {
            Some(t) => t == new_card.suit(),
            None => false,
        };
        let outranked = new_card.rank().n() > current_winner.rank().n();
        if current_is_trump {
            return new_is_trump && outranked;
        }
        if new_is_trump {
            return true;
        }
        new_card.suit() == current_winner.suit() && outranked
    }

    pub fn declarer_points(&self, tricks_made: i32) -> (points: i32)
        requires
            self.wf(),
            0 <= tricks_made <= 13,
        ensures
            points == self.spec_declarer_points(tricks_made as int),
            -7600 <= points <= 7600,
    {
        let contract_tricks = 6 + self.n;
        let delta_tricks = tricks_made - contract_tricks;
        if delta_tricks >= 0 {
            let multiplier = self.calculate_multiplier();
            let base_trick_score = self.calculate_base_trick_score(multiplier);
            let overtrick_points = self.calculate_overtrick_points(delta_tricks);
            let insult_bonus = self.calculate_insult_bonus();
            let bonus = self.calculate_contract_bonus(base_trick_score);
            base_trick_score + overtrick_points + insult_bonus + bonus
        } else {
            let undertricks = -delta_tricks;
            let penalty = self.calculate_undertrick_penalty(undertricks);
            -penalty
        }
    }

    pub fn calculate_multiplier(&self) -> (multiplier: i32)
        ensures
            multiplier == self.spec_multiplier(),
            1 <= multiplier <= 4,
    {
        match self.doubling {
            Doubling::Undoubled => 1,
            Doubling::Doubled => 2,
            Doubling::Redoubled => 4,
        }
    }

    pub fn calculate_base_trick_score(&self, multiplier: i32) -> (score: i32)
        requires
            self.wf(),
            1 <= multiplier <= 4,
        ensures
            score == self.spec_base_trick_score(multiplier as int),
            0 <= score <= 880,
    {
        assert(self.n * multiplier <= 28 && (self.n - 1) * multiplier <= 24 && self.n * multiplier
            >= 1 && (self.n - 1) * multiplier >= 0) by (nonlinear_arith)
            requires
                1 <= self.n <= 7,
                1 <= multiplier <= 4,
        ;
        match self.trump {
            None => {
                if self.n >= 1 {
                    let first_trick_value = 40 * multiplier;
                    assert(30 * (self.n - 1) * multiplier == 30 * ((self.n - 1) * multiplier))
                        by (nonlinear_arith);
                    let subsequent_tricks_value = 30 * (self.n - 1) * multiplier;
                    first_trick_value + subsequent_tricks_value
                } else {
                    0
                }
            },
            Some(Suit::Clubs) | Some(Suit::Diamonds) => {
                assert(20 * self.n * multiplier == 20 * (self.n * multiplier)) by (nonlinear_arith);
                20 * self.n * multiplier
            },
            Some(Suit::Hearts) | Some(Suit::Spades) => {
                assert(30 * self.n * multiplier == 30 * (self.n * multiplier)) by (nonlinear_arith);
                30 * self.n * multiplier
            },
        }
    }

    pub fn calculate_overtrick_points(&self, delta_tricks: i32) -> (points: i32)
        requires
            delta_tricks <= 6,
        ensures
            points == self.spec_overtrick_points(delta_tricks as int),
            0 <= points <= 2400,
    {
        if delta_tricks <= 0 {
            return 0;
        }
        match self.doubling {
            Doubling::Undoubled => {
                let overtrick_value = match self.trump {
                    None => 30,
                    Some(Suit::Clubs) | Some(Suit::Diamonds) => 20,
                    Some(Suit::Hearts) | Some(Suit::Spades) => 30,
                };
                overtrick_value * delta_tricks
            },
            Doubling::Doubled => {
                let value_per_trick = if self.declarer_vulnerable {
                    200
                } else {
                    100
                };
                value_per_trick * delta_tricks
            },
            Doubling::Redoubled => {
                let value_per_trick = if self.declarer_vulnerable {
                    400
                } else {
                    200
                };
                value_per_trick * delta_tricks
            },
        }
    }

    pub fn calculate_insult_bonus(&self) -> (bonus: i32)
        ensures
            bonus == self.spec_insult_bonus(),
            0 <= bonus <= 100,
    {
        match self.doubling {
            Doubling::Undoubled => 0,
            Doubling::Doubled => 50,
            Doubling::Redoubled => 100,
        }
    }

    pub fn calculate_contract_bonus(&self, base_trick_score: i32) -> (bonus: i32)
        ensures
            bonus == self.spec_contract_bonus(base_trick_score as int),
            50 <= bonus <= 2000,
    {
        match self.n {
            6 => {
                if self.declarer_vulnerable {
                    1250
                } else {
                    800
                }
            },
            7 => {
                if self.declarer_vulnerable {
                    2000
                } else {
                    1300
                }
            },
            _ => {
                if base_trick_score >= 100 {
                    if self.declarer_vulnerable {
                        500
                    } else {
                        300
                    }
                } else {
                    50
                }
            },
        }
    }

    pub fn calculate_undertrick_penalty(&self, undertricks: i32) -> (penalty: i32)
        requires
            1 <= undertricks <= 13,
        ensures
            penalty == self.spec_undertrick_penalty(undertricks as int),
            50 <= penalty <= 7600,
    {
        match self.doubling {
            Doubling::Undoubled => {
                let undertrick_value = if self.declarer_vulnerable {
                    100
                } else {
                    50
                };
                undertrick_value * undertricks
            },
            Doubling::Doubled => {
                if self.declarer_vulnerable {
                    200 * undertricks
                } else {
                    match undertricks {
                        1 => 100,
                        2 => 300,
                        3 => 500,
                        _ => 500 + 300 * (undertricks - 3),
                    }
                }
            },
            Doubling::Redoubled => {
                if self.declarer_vulnerable {
                    400 * undertricks
                } else {
                    match undertricks {
                        1 => 200,
                        2 => 600,
                        3 => 1000,
                        _ => 1000 + 600 * (undertricks - 3),
                    }
                }
            },
        }
    }
}

} // verus!
