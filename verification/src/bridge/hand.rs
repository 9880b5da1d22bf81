//! Sets of cards, held as bits.

use vstd::prelude::*;
use crate::bridge::card::{Card, Suit};
use crate::bridge::ranking;

verus! {

/// Whether bit `n` of `bits` is set.
pub open spec fn bit_is_set(bits: u64, n: u8) -> bool {
    n < 64 && bits & (1u64 << (n as u64)) != 0
}

/// The number of set bits among the lowest `k` bits of `bits`.
pub open spec fn count_below(bits: u64, k: int) -> nat
    decreases k,
{
    if k <= 0 {
        0
    } else {
        count_below(bits, k - 1) + (if bit_is_set(bits, (k - 1) as u8) {
            1nat
        } else {
            0nat
        })
    }
}

/// The cards whose bits are set among the lowest `k` bits of `bits`, in
/// the order of their numbers.
pub open spec fn cards_below(bits: u64, k: int) -> Seq<Card>
    decreases k,
{
    if k <= 0 {
        Seq::empty()
    } else if bit_is_set(bits, (k - 1) as u8) {
        cards_below(bits, k - 1).push(Card { n: (k - 1) as u8 })
    } else {
        cards_below(bits, k - 1)
    }
}

/// Those of `cards` that are of the suit `suit`, in the same order.
pub open spec fn of_suit(cards: Seq<Card>, suit: Suit) -> Seq<Card> {
    cards.filter(|c: Card| c.spec_suit() == suit)
}

pub proof fn lemma_single_bit(m: u64, n: u64)
    by (bit_vector)
    requires
        m < 64,
        n < 64,
    ensures
        ((1u64 << m) & (1u64 << n) != 0) == (m == n),
        m < 52 ==> (1u64 << m) < 0x10_0000_0000_0000u64,
{
}

pub proof fn lemma_or_bits(a: u64, b: u64, n: u64)
    by (bit_vector)
    requires
        n < 64,
    ensures
        ((a | b) & (1u64 << n) != 0) == ((a & (1u64 << n) != 0) || (b & (1u64 << n) != 0)),
        a < 0x10_0000_0000_0000u64 && b < 0x10_0000_0000_0000u64 ==> (a | b)
            < 0x10_0000_0000_0000u64,
{
}

pub proof fn lemma_and_bits(a: u64, b: u64, n: u64)
    by (bit_vector)
    requires
        n < 64,
    ensures
        ((a & b) & (1u64 << n) != 0) == ((a & (1u64 << n) != 0) && (b & (1u64 << n) != 0)),
        a < 0x10_0000_0000_0000u64 ==> (a & b) < 0x10_0000_0000_0000u64,
{
}

pub proof fn lemma_and_not_bits(a: u64, b: u64, n: u64)
    by (bit_vector)
    requires
        n < 64,
    ensures
        ((a & !b) & (1u64 << n) != 0) == ((a & (1u64 << n) != 0) && !(b & (1u64 << n) != 0)),
        a < 0x10_0000_0000_0000u64 ==> (a & !b) < 0x10_0000_0000_0000u64,
{
}

/// Bits that are not all clear have one that is set.
pub proof fn lemma_some_bit(bits: u64)
    by (bit_vector)
    requires
        bits != 0,
    ensures
        ({
            ||| bits & (1u64 << 0u64) != 0
            ||| bits & (1u64 << 1u64) != 0
            ||| bits & (1u64 << 2u64) != 0
            ||| bits & (1u64 << 3u64) != 0
            ||| bits & (1u64 << 4u64) != 0
            ||| bits & (1u64 << 5u64) != 0
            ||| bits & (1u64 << 6u64) != 0
            ||| bits & (1u64 << 7u64) != 0
            ||| bits & (1u64 << 8u64) != 0
            ||| bits & (1u64 << 9u64) != 0
            ||| bits & (1u64 << 10u64) != 0
            ||| bits & (1u64 << 11u64) != 0
            ||| bits & (1u64 << 12u64) != 0
            ||| bits & (1u64 << 13u64) != 0
            ||| bits & (1u64 << 14u64) != 0
            ||| bits & (1u64 << 15u64) != 0
            ||| bits & (1u64 << 16u64) != 0
            ||| bits & (1u64 << 17u64) != 0
            ||| bits & (1u64 << 18u64) != 0
            ||| bits & (1u64 << 19u64) != 0
            ||| bits & (1u64 << 20u64) != 0
            ||| bits & (1u64 << 21u64) != 0
            ||| bits & (1u64 << 22u64) != 0
            ||| bits & (1u64 << 23u64) != 0
            ||| bits & (1u64 << 24u64) != 0
            ||| bits & (1u64 << 25u64) != 0
            ||| bits & (1u64 << 26u64) != 0
            ||| bits & (1u64 << 27u64) != 0
            ||| bits & (1u64 << 28u64) != 0
            ||| bits & (1u64 << 29u64) != 0
            ||| bits & (1u64 << 30u64) != 0
            ||| bits & (1u64 << 31u64) != 0
            ||| bits & (1u64 << 32u64) != 0
            ||| bits & (1u64 << 33u64) != 0
            ||| bits & (1u64 << 34u64) != 0
            ||| bits & (1u64 << 35u64) != 0
            ||| bits & (1u64 << 36u64) != 0
            ||| bits & (1u64 << 37u64) != 0
            ||| bits & (1u64 << 38u64) != 0
            ||| bits & (1u64 << 39u64) != 0
            ||| bits & (1u64 << 40u64) != 0
            ||| bits & (1u64 << 41u64) != 0
            ||| bits & (1u64 << 42u64) != 0
            ||| bits & (1u64 << 43u64) != 0
            ||| bits & (1u64 << 44u64) != 0
            ||| bits & (1u64 << 45u64) != 0
            ||| bits & (1u64 << 46u64) != 0
            ||| bits & (1u64 << 47u64) != 0
            ||| bits & (1u64 << 48u64) != 0
            ||| bits & (1u64 << 49u64) != 0
            ||| bits & (1u64 << 50u64) != 0
            ||| bits & (1u64 << 51u64) != 0
            ||| bits & (1u64 << 52u64) != 0
            ||| bits & (1u64 << 53u64) != 0
            ||| bits & (1u64 << 54u64) != 0
            ||| bits & (1u64 << 55u64) != 0
            ||| bits & (1u64 << 56u64) != 0
            ||| bits & (1u64 << 57u64) != 0
            ||| bits & (1u64 << 58u64) != 0
            ||| bits & (1u64 << 59u64) != 0
            ||| bits & (1u64 << 60u64) != 0
            ||| bits & (1u64 << 61u64) != 0
            ||| bits & (1u64 << 62u64) != 0
            ||| bits & (1u64 << 63u64) != 0
        }),
{
}

/// A number below two to the fifty-second whose lowest fifty-two bits are
/// clear is zero.
pub proof fn lemma_no_card_is_empty(bits: u64)
    by (bit_vector)
    requires
        bits < 0x10_0000_0000_0000u64,
        bits & (1u64 << 0u64) == 0,
        bits & (1u64 << 1u64) == 0,
        bits & (1u64 << 2u64) == 0,
        bits & (1u64 << 3u64) == 0,
        bits & (1u64 << 4u64) == 0,
        bits & (1u64 << 5u64) == 0,
        bits & (1u64 << 6u64) == 0,
        bits & (1u64 << 7u64) == 0,
        bits & (1u64 << 8u64) == 0,
        bits & (1u64 << 9u64) == 0,
        bits & (1u64 << 10u64) == 0,
        bits & (1u64 << 11u64) == 0,
        bits & (1u64 << 12u64) == 0,
        bits & (1u64 << 13u64) == 0,
        bits & (1u64 << 14u64) == 0,
        bits & (1u64 << 15u64) == 0,
        bits & (1u64 << 16u64) == 0,
        bits & (1u64 << 17u64) == 0,
        bits & (1u64 << 18u64) == 0,
        bits & (1u64 << 19u64) == 0,
        bits & (1u64 << 20u64) == 0,
        bits & (1u64 << 21u64) == 0,
        bits & (1u64 << 22u64) == 0,
        bits & (1u64 << 23u64) == 0,
        bits & (1u64 << 24u64) == 0,
        bits & (1u64 << 25u64) == 0,
        bits & (1u64 << 26u64) == 0,
        bits & (1u64 << 27u64) == 0,
        bits & (1u64 << 28u64) == 0,
        bits & (1u64 << 29u64) == 0,
        bits & (1u64 << 30u64) == 0,
        bits & (1u64 << 31u64) == 0,
        bits & (1u64 << 32u64) == 0,
        bits & (1u64 << 33u64) == 0,
        bits & (1u64 << 34u64) == 0,
        bits & (1u64 << 35u64) == 0,
        bits & (1u64 << 36u64) == 0,
        bits & (1u64 << 37u64) == 0,
        bits & (1u64 << 38u64) == 0,
        bits & (1u64 << 39u64) == 0,
        bits & (1u64 << 40u64) == 0,
        bits & (1u64 << 41u64) == 0,
        bits & (1u64 << 42u64) == 0,
        bits & (1u64 << 43u64) == 0,
        bits & (1u64 << 44u64) == 0,
        bits & (1u64 << 45u64) == 0,
        bits & (1u64 << 46u64) == 0,
        bits & (1u64 << 47u64) == 0,
        bits & (1u64 << 48u64) == 0,
        bits & (1u64 << 49u64) == 0,
        bits & (1u64 << 50u64) == 0,
        bits & (1u64 << 51u64) == 0,
    ensures
        bits == 0,
{
}

/// `u64::count_ones`: the number of bits that are set.
#[verifier::external_body]
fn count_ones(bits: u64) -> (n: u32)
    ensures
        n == count_below(bits, 64),
{
    bits.count_ones()
}

/// A set of cards.
#[derive(Clone, Copy, Debug, Hash, Eq, PartialEq, Structural)]
pub struct Hand {
    pub bitset: u64,
}

impl View for Hand {
    type V = Set<u8>;

    /// The numbers of the cards in the hand.
    open spec fn view(&self) -> Set<u8> {
        Set::new(|n: u8| bit_is_set(self.bitset, n))
    }
}

impl Hand {
    /// Only bits that stand for cards are set.
    pub open spec fn wf(&self) -> bool {
        self.bitset < 0x10_0000_0000_0000u64
    }

    /// The cards of the hand, in the order of their numbers.
    pub open spec fn spec_cards(&self) -> Seq<Card> {
        cards_below(self.bitset, 52)
    }

    /// The hand that holds `cards`.
    pub fn new(cards: &[Card]) -> (hand: Hand)
        requires
            forall|i: int| 0 <= i < cards@.len() ==> (#[trigger] cards@[i]).wf(),
        ensures
            hand.wf(),
            forall|n: u8|
                hand@.contains(n) <==> exists|i: int|
                    0 <= i < cards@.len() && (#[trigger] cards@[i]).n == n,
    {
        let mut res = Hand { bitset: 0 };
        let mut i: usize = 0;
        assert(res.wf() && forall|n: u8| !res@.contains(n)) by {
            assert forall|n: u8| !bit_is_set(0u64, n) by {
                if n < 64 {
                    let k = n as u64;
                    assert(0u64 & (1u64 << k) == 0) by (bit_vector);
                }
            }
        }
        while i < cards.len()
            invariant
                i <= cards@.len(),
                res.wf(),
                forall|j: int| 0 <= j < cards@.len() ==> (#[trigger] cards@[j]).wf(),
                forall|n: u8|
                    res@.contains(n) <==> exists|j: int| 0 <= j < i && (#[trigger] cards@[j]).n == n,
            decreases cards@.len() - i,
        {
            let ghost before = res;
            res.add_assign(cards[i]);
            proof {
                assert forall|n: u8|
                    res@.contains(n) <==> exists|j: int|
                        0 <= j < i + 1 && (#[trigger] cards@[j]).n == n by {
                    if res@.contains(n) {
                        if n == cards@[i as int].n {
                        } else {
                            assert(before@.contains(n));
                            let j = choose|j: int| 0 <= j < i && (#[trigger] cards@[j]).n == n;
                            assert(0 <= j < i + 1 && cards@[j].n == n);
                        }
                    }
                    if exists|j: int| 0 <= j < i + 1 && (#[trigger] cards@[j]).n == n {
                        let j = choose|j: int| 0 <= j < i + 1 && (#[trigger] cards@[j]).n == n;
                        if j < i {
                            assert(before@.contains(n));
                        }
                    }
                }
            }
            i += 1;
        }
        res
    }

    /// The hand that holds no card.
    pub fn empty() -> (hand: Hand)
        ensures
            hand.wf(),
            hand.bitset == 0,
            hand@ == Set::<u8>::empty(),
    {
        let hand = Hand { bitset: 0 };
        proof {
            assert forall|n: u8| !bit_is_set(0u64, n) by {
                if n < 64 {
                    let k = n as u64;
                    assert(0u64 & (1u64 << k) == 0) by (bit_vector);
                }
            }
            assert(hand@ =~= Set::<u8>::empty());
        }
        hand
    }

    /// The number of cards in the hand.
    pub fn len(&self) -> (n: u32)
        ensures
            n == count_below(self.bitset, 64),
    {
        count_ones(self.bitset)
    }

    pub fn is_empty(&self) -> (empty: bool)
        ensures
            empty == (self.bitset == 0),
            empty <==> self@ == Set::<u8>::empty(),
    {
        proof {
            let bits = self.bitset;
            if bits == 0 {
                assert forall|n: u8| !bit_is_set(bits, n) by {
                    if n < 64 {
                        let k = n as u64;
                        assert(0u64 & (1u64 << k) == 0) by (bit_vector);
                    }
                }
                assert(self@ =~= Set::<u8>::empty());
            } else {
                lemma_some_bit(bits);
                lemma_bit_named(bits);
                let n = choose|n: u8| bit_is_set(bits, n);
                assert(self@.contains(n));
            }
        }
        self.bitset == 0
    }

    pub fn contains(&self, card: Card) -> (held: bool)
        requires
            card.wf(),
        ensures
            held == self@.contains(card.n),
    {
        (self.bitset & (1u64 << (card.n as u64))) > 0
    }

    /// The hand with `card` put in.
    pub open spec fn spec_with(&self, card: Card) -> Hand {
        Hand { bitset: self.bitset | (1u64 << (card.n as u64)) }
    }

    /// The hand with `card` taken out.
    pub open spec fn spec_without(&self, card: Card) -> Hand {
        Hand { bitset: self.bitset & !(1u64 << (card.n as u64)) }
    }

    /// Whether the hands have no card in common.
    pub open spec fn disjoint(&self, other: Hand) -> bool {
        self.bitset & other.bitset == 0
    }

    /// Puts `rhs` into the hand.
    pub fn add_assign(&mut self, rhs: Card)
        requires
            rhs.wf(),
        ensures
            *final(self) == old(self).spec_with(rhs),
            final(self)@ == old(self)@.insert(rhs.n),
            old(self).wf() ==> final(self).wf(),
    {
        let bit: u64 = 1u64 << (rhs.n as u64);
        proof {
            let a = self.bitset;
            let m = rhs.n as u64;
            lemma_single_bit(m, m);
            assert forall|n: u8| bit_is_set(a | bit, n) == (bit_is_set(a, n) || n == rhs.n) by {
                if n < 64 {
                    lemma_or_bits(a, bit, n as u64);
                    lemma_single_bit(m, n as u64);
                }
            }
            lemma_or_bits(a, bit, 0);
        }
        self.bitset = self.bitset | bit;
        proof {
            assert forall|n: u8| self@.contains(n) == old(self)@.insert(rhs.n).contains(n) by {
                assert(bit_is_set(old(self).bitset | bit, n) == (bit_is_set(old(self).bitset, n)
                    || n == rhs.n));
            }
            assert(self@ =~= old(self)@.insert(rhs.n));
        }
    }

    /// The hand with `rhs` put in.
    pub fn with_card(self, rhs: Card) -> (hand: Hand)
        requires
            rhs.wf(),
        ensures
            hand@ == self@.insert(rhs.n),
            self.wf() ==> hand.wf(),
    {
        let mut res = self;
        res.add_assign(rhs);
        res
    }

    /// Takes `rhs` out of the hand.
    pub fn sub_assign(&mut self, rhs: Card)
        requires
            rhs.wf(),
        ensures
            *final(self) == old(self).spec_without(rhs),
            final(self)@ == old(self)@.remove(rhs.n),
            old(self).wf() ==> final(self).wf(),
    {
        let bit: u64 = 1u64 << (rhs.n as u64);
        proof {
            let a = self.bitset;
            let m = rhs.n as u64;
            assert forall|n: u8| bit_is_set(a & !bit, n) == (bit_is_set(a, n) && n != rhs.n) by {
                if n < 64 {
                    lemma_and_not_bits(a, bit, n as u64);
                    lemma_single_bit(m, n as u64);
                }
            }
            lemma_and_not_bits(a, bit, 0);
        }
        self.bitset = self.bitset & !bit;
        proof {
            assert(self@ =~= old(self)@.remove(rhs.n));
        }
    }

    /// The hand with `rhs` taken out.
    pub fn without_card(self, rhs: Card) -> (hand: Hand)
        requires
            rhs.wf(),
        ensures
            hand@ == self@.remove(rhs.n),
            self.wf() ==> hand.wf(),
    {
        let mut res = self;
        res.sub_assign(rhs);
        res
    }

    /// The cards of this hand that `rhs` does not hold.
    pub fn minus(self, rhs: Hand) -> (hand: Hand)
        ensures
            hand == self.spec_minus(rhs),
            hand@ == self@.difference(rhs@),
            self.wf() ==> hand.wf(),
    {
        let hand = Hand { bitset: self.bitset & !rhs.bitset };
        proof {
            assert forall|n: u8|
                bit_is_set(hand.bitset, n) == (bit_is_set(self.bitset, n) && !bit_is_set(
                    rhs.bitset,
                    n,
                )) by {
                if n < 64 {
                    lemma_and_not_bits(self.bitset, rhs.bitset, n as u64);
                }
            }
            lemma_and_not_bits(self.bitset, rhs.bitset, 0);
            assert(hand@ =~= self@.difference(rhs@));
        }
        hand
    }

    /// Puts all of `cards` into the hand.
    pub fn extend(&mut self, cards: &[Card])
        requires
            forall|i: int| 0 <= i < cards@.len() ==> (#[trigger] cards@[i]).wf(),
        ensures
            final(self)@ == old(self)@.union(Hand::spec_of(cards@)),
            old(self).wf() ==> final(self).wf(),
    {
        let mut i: usize = 0;
        proof {
            assert(self@ =~= old(self)@.union(Hand::spec_of(cards@.subrange(0, 0))));
        }
        while i < cards.len()
            invariant
                i <= cards@.len(),
                forall|j: int| 0 <= j < cards@.len() ==> (#[trigger] cards@[j]).wf(),
                self@ == old(self)@.union(Hand::spec_of(cards@.subrange(0, i as int))),
                old(self).wf() ==> self.wf(),
            decreases cards@.len() - i,
        {
            self.add_assign(cards[i]);
            proof {
                let before = cards@.subrange(0, i as int);
                let after = cards@.subrange(0, i + 1);
                assert(after =~= before.push(cards@[i as int]));
                assert forall|n: u8|
                    Hand::spec_of(after).contains(n) == (Hand::spec_of(before).contains(n) || n
                        == cards@[i as int].n) by {
                    if Hand::spec_of(after).contains(n) {
                        let j = choose|j: int| 0 <= j < after.len() && (#[trigger] after[j]).n == n;
                        if j < i {
                            assert(before[j].n == n);
                        }
                    }
                    if Hand::spec_of(before).contains(n) {
                        let j = choose|j: int| 0 <= j < before.len() && (#[trigger] before[j]).n == n;
                        assert(after[j].n == n);
                    }
                    if n == cards@[i as int].n {
                        assert(after[i as int].n == n);
                    }
                }
                assert(self@ =~= old(self)@.union(Hand::spec_of(after)));
            }
            i += 1;
        }
        proof {
            assert(cards@.subrange(0, cards@.len() as int) =~= cards@);
        }
    }

    /// The numbers of `cards`.
    pub open spec fn spec_of(cards: Seq<Card>) -> Set<u8> {
        Set::new(|n: u8| exists|i: int| 0 <= i < cards.len() && (#[trigger] cards[i]).n == n)
    }

    /// Keeps the cards that `rhs` holds too.
    pub fn bitand_assign(&mut self, rhs: Hand)
        ensures
            final(self)@ == old(self)@.intersect(rhs@),
            old(self).wf() ==> final(self).wf(),
    {
        proof {
            assert forall|n: u8|
                bit_is_set(self.bitset & rhs.bitset, n) == (bit_is_set(self.bitset, n) && bit_is_set(
                    rhs.bitset,
                    n,
                )) by {
                if n < 64 {
                    lemma_and_bits(self.bitset, rhs.bitset, n as u64);
                }
            }
            lemma_and_bits(self.bitset, rhs.bitset, 0);
        }
        self.bitset = self.bitset & rhs.bitset;
        proof {
            assert forall|n: u8| self@.contains(n) == old(self)@.intersect(rhs@).contains(n) by {
                if n < 64 {
                    lemma_and_bits(old(self).bitset, rhs.bitset, n as u64);
                }
            }
            assert(self@ =~= old(self)@.intersect(rhs@));
        }
    }

    /// The cards that both hands hold.
    pub fn bitand(self, rhs: Hand) -> (hand: Hand)
        ensures
            hand@ == self@.intersect(rhs@),
            self.wf() ==> hand.wf(),
    {
        let mut res = self;
        res.bitand_assign(rhs);
        res
    }

    /// Puts the cards of `rhs` into the hand.
    pub fn bitor_assign(&mut self, rhs: Hand)
        ensures
            *final(self) == old(self).spec_union(rhs),
            final(self)@ == old(self)@.union(rhs@),
            old(self).wf() && rhs.wf() ==> final(self).wf(),
    {
        proof {
            assert forall|n: u8|
                bit_is_set(self.bitset | rhs.bitset, n) == (bit_is_set(self.bitset, n) || bit_is_set(
                    rhs.bitset,
                    n,
                )) by {
                if n < 64 {
                    lemma_or_bits(self.bitset, rhs.bitset, n as u64);
                }
            }
            lemma_or_bits(self.bitset, rhs.bitset, 0);
        }
        self.bitset = self.bitset | rhs.bitset;
        proof {
            assert forall|n: u8| self@.contains(n) == old(self)@.union(rhs@).contains(n) by {
                if n < 64 {
                    lemma_or_bits(old(self).bitset, rhs.bitset, n as u64);
                }
            }
            assert(self@ =~= old(self)@.union(rhs@));
        }
    }

    /// The cards that either hand holds.
    pub open spec fn spec_union(&self, other: Hand) -> Hand {
        Hand { bitset: self.bitset | other.bitset }
    }

    /// The hand as it ranks with `played_cards` out of play.
    pub open spec fn spec_reduce(&self, played_cards: Hand) -> Hand {
        Hand { bitset: climbed(self.bitset, (played_cards.bitset & !TWOS_BITS) >> 1) }
    }

    /// The hand as it was before it was ranked with `played_cards` out of
    /// play.
    pub open spec fn spec_unreduce(&self, played_cards: Hand) -> Hand {
        Hand { bitset: sunk(self.bitset, played_cards.bitset & !TWOS_BITS) }
    }

    /// The cards that either hand holds.
    pub fn bitor(self, rhs: Hand) -> (hand: Hand)
        ensures
            hand == self.spec_union(rhs),
            hand@ == self@.union(rhs@),
            self.wf() && rhs.wf() ==> hand.wf(),
    {
        let mut res = self;
        res.bitor_assign(rhs);
        res
    }

    /// Appends the cards of the hand to `cards`, in the order of their
    /// numbers.
    pub fn run_for_cards(&self, cards: &mut Vec<Card>)
        ensures
            final(cards)@ == old(cards)@ + self.spec_cards(),
    {
        let mut i: u8 = 0;
        while i < 52
            invariant
                i <= 52,
                cards@ == old(cards)@ + cards_below(self.bitset, i as int),
            decreases 52 - i,
        {
            let card = Card { n: i };
            if self.contains(card) {
                cards.push(card);
            }
            i += 1;
        }
    }

    /// The cards of the hand, in the order of their numbers.
    pub fn cards(&self) -> (cards: Vec<Card>)
        ensures
            cards@ == self.spec_cards(),
    {
        let mut res: Vec<Card> = Vec::new();
        self.run_for_cards(&mut res);
        res
    }

    /// The cards of the hand that are of the suit `suit`, in the order of
    /// their numbers.
    pub fn cards_for_suit(&self, suit: Suit) -> (cards: Vec<Card>)
        ensures
            cards@ == of_suit(self.spec_cards(), suit),
    {
        let mut res: Vec<Card> = Vec::new();
        let mut i: u8 = 0;
        proof {
            assert(cards_below(self.bitset, 0).filter(|c: Card| c.spec_suit() == suit)
                =~= Seq::<Card>::empty());
        }
        while i < 52
            invariant
                i <= 52,
                res@ == of_suit(cards_below(self.bitset, i as int), suit),
            decreases 52 - i,
        {
            let card = Card { n: i };
            proof {
                let before = cards_below(self.bitset, i as int);
                let pred = |c: Card| c.spec_suit() == suit;
                if bit_is_set(self.bitset, i) {
                    assert(before.push(card).drop_last() =~= before);
                    reveal(Seq::filter);
                }
            }
            if self.contains(card) && card.suit() == suit {
                res.push(card);
            }
            i += 1;
        }
        res
    }

    /// The card of the hand with the lowest number.
    pub fn first(&self) -> (card: Card)
        requires
            self.wf(),
            self.bitset != 0,
        ensures
            card.wf(),
            self@.contains(card.n),
            forall|n: u8| self@.contains(n) ==> card.n <= n,
    {
        let mut i: u8 = 0;
        while i < 52
            invariant
                i <= 52,
                self.wf(),
                self.bitset != 0,
                forall|n: u8| n < i ==> !self@.contains(n),
            decreases 52 - i,
        {
            let card = Card { n: i };
            if self.contains(card) {
                return card;
            }
            i += 1;
        }
        proof {
            assert forall|n: u8| n < 52 implies !bit_is_set(self.bitset, n) by {
                assert(!self@.contains(n));
            }
            lemma_no_card_set(self.bitset);
            assert(false);
        }
        Card { n: 0 }
    }
}

/// Where one of the sixty-four bits is set, `bit_is_set` tells which.
pub proof fn lemma_bit_named(bits: u64)
    requires
        ({
            ||| bits & (1u64 << 0u64) != 0
            ||| bits & (1u64 << 1u64) != 0
            ||| bits & (1u64 << 2u64) != 0
            ||| bits & (1u64 << 3u64) != 0
            ||| bits & (1u64 << 4u64) != 0
            ||| bits & (1u64 << 5u64) != 0
            ||| bits & (1u64 << 6u64) != 0
            ||| bits & (1u64 << 7u64) != 0
            ||| bits & (1u64 << 8u64) != 0
            ||| bits & (1u64 << 9u64) != 0
            ||| bits & (1u64 << 10u64) != 0
            ||| bits & (1u64 << 11u64) != 0
            ||| bits & (1u64 << 12u64) != 0
            ||| bits & (1u64 << 13u64) != 0
            ||| bits & (1u64 << 14u64) != 0
            ||| bits & (1u64 << 15u64) != 0
            ||| bits & (1u64 << 16u64) != 0
            ||| bits & (1u64 << 17u64) != 0
            ||| bits & (1u64 << 18u64) != 0
            ||| bits & (1u64 << 19u64) != 0
            ||| bits & (1u64 << 20u64) != 0
            ||| bits & (1u64 << 21u64) != 0
            ||| bits & (1u64 << 22u64) != 0
            ||| bits & (1u64 << 23u64) != 0
            ||| bits & (1u64 << 24u64) != 0
            ||| bits & (1u64 << 25u64) != 0
            ||| bits & (1u64 << 26u64) != 0
            ||| bits & (1u64 << 27u64) != 0
            ||| bits & (1u64 << 28u64) != 0
            ||| bits & (1u64 << 29u64) != 0
            ||| bits & (1u64 << 30u64) != 0
            ||| bits & (1u64 << 31u64) != 0
            ||| bits & (1u64 << 32u64) != 0
            ||| bits & (1u64 << 33u64) != 0
            ||| bits & (1u64 << 34u64) != 0
            ||| bits & (1u64 << 35u64) != 0
            ||| bits & (1u64 << 36u64) != 0
            ||| bits & (1u64 << 37u64) != 0
            ||| bits & (1u64 << 38u64) != 0
            ||| bits & (1u64 << 39u64) != 0
            ||| bits & (1u64 << 40u64) != 0
            ||| bits & (1u64 << 41u64) != 0
            ||| bits & (1u64 << 42u64) != 0
            ||| bits & (1u64 << 43u64) != 0
            ||| bits & (1u64 << 44u64) != 0
            ||| bits & (1u64 << 45u64) != 0
            ||| bits & (1u64 << 46u64) != 0
            ||| bits & (1u64 << 47u64) != 0
            ||| bits & (1u64 << 48u64) != 0
            ||| bits & (1u64 << 49u64) != 0
            ||| bits & (1u64 << 50u64) != 0
            ||| bits & (1u64 << 51u64) != 0
            ||| bits & (1u64 << 52u64) != 0
            ||| bits & (1u64 << 53u64) != 0
            ||| bits & (1u64 << 54u64) != 0
            ||| bits & (1u64 << 55u64) != 0
            ||| bits & (1u64 << 56u64) != 0
            ||| bits & (1u64 << 57u64) != 0
            ||| bits & (1u64 << 58u64) != 0
            ||| bits & (1u64 << 59u64) != 0
            ||| bits & (1u64 << 60u64) != 0
            ||| bits & (1u64 << 61u64) != 0
            ||| bits & (1u64 << 62u64) != 0
            ||| bits & (1u64 << 63u64) != 0
        }),
    ensures
        exists|n: u8| bit_is_set(bits, n),
{
    if bits & (1u64 << 0u64) != 0 {
        assert(bit_is_set(bits, 0u8));
    }
    if bits & (1u64 << 1u64) != 0 {
        assert(bit_is_set(bits, 1u8));
    }
    if bits & (1u64 << 2u64) != 0 {
        assert(bit_is_set(bits, 2u8));
    }
    if bits & (1u64 << 3u64) != 0 {
        assert(bit_is_set(bits, 3u8));
    }
    if bits & (1u64 << 4u64) != 0 {
        assert(bit_is_set(bits, 4u8));
    }
    if bits & (1u64 << 5u64) != 0 {
        assert(bit_is_set(bits, 5u8));
    }
    if bits & (1u64 << 6u64) != 0 {
        assert(bit_is_set(bits, 6u8));
    }
    if bits & (1u64 << 7u64) != 0 {
        assert(bit_is_set(bits, 7u8));
    }
    if bits & (1u64 << 8u64) != 0 {
        assert(bit_is_set(bits, 8u8));
    }
    if bits & (1u64 << 9u64) != 0 {
        assert(bit_is_set(bits, 9u8));
    }
    if bits & (1u64 << 10u64) != 0 {
        assert(bit_is_set(bits, 10u8));
    }
    if bits & (1u64 << 11u64) != 0 {
        assert(bit_is_set(bits, 11u8));
    }
    if bits & (1u64 << 12u64) != 0 {
        assert(bit_is_set(bits, 12u8));
    }
    if bits & (1u64 << 13u64) != 0 {
        assert(bit_is_set(bits, 13u8));
    }
    if bits & (1u64 << 14u64) != 0 {
        assert(bit_is_set(bits, 14u8));
    }
    if bits & (1u64 << 15u64) != 0 {
        assert(bit_is_set(bits, 15u8));
    }
    if bits & (1u64 << 16u64) != 0 {
        assert(bit_is_set(bits, 16u8));
    }
    if bits & (1u64 << 17u64) != 0 {
        assert(bit_is_set(bits, 17u8));
    }
    if bits & (1u64 << 18u64) != 0 {
        assert(bit_is_set(bits, 18u8));
    }
    if bits & (1u64 << 19u64) != 0 {
        assert(bit_is_set(bits, 19u8));
    }
    if bits & (1u64 << 20u64) != 0 {
        assert(bit_is_set(bits, 20u8));
    }
    if bits & (1u64 << 21u64) != 0 {
        assert(bit_is_set(bits, 21u8));
    }
    if bits & (1u64 << 22u64) != 0 {
        assert(bit_is_set(bits, 22u8));
    }
    if bits & (1u64 << 23u64) != 0 {
        assert(bit_is_set(bits, 23u8));
    }
    if bits & (1u64 << 24u64) != 0 {
        assert(bit_is_set(bits, 24u8));
    }
    if bits & (1u64 << 25u64) != 0 {
        assert(bit_is_set(bits, 25u8));
    }
    if bits & (1u64 << 26u64) != 0 {
        assert(bit_is_set(bits, 26u8));
    }
    if bits & (1u64 << 27u64) != 0 {
        assert(bit_is_set(bits, 27u8));
    }
    if bits & (1u64 << 28u64) != 0 {
        assert(bit_is_set(bits, 28u8));
    }
    if bits & (1u64 << 29u64) != 0 {
        assert(bit_is_set(bits, 29u8));
    }
    if bits & (1u64 << 30u64) != 0 {
        assert(bit_is_set(bits, 30u8));
    }
    if bits & (1u64 << 31u64) != 0 {
        assert(bit_is_set(bits, 31u8));
    }
    if bits & (1u64 << 32u64) != 0 {
        assert(bit_is_set(bits, 32u8));
    }
    if bits & (1u64 << 33u64) != 0 {
        assert(bit_is_set(bits, 33u8));
    }
    if bits & (1u64 << 34u64) != 0 {
        assert(bit_is_set(bits, 34u8));
    }
    if bits & (1u64 << 35u64) != 0 {
        assert(bit_is_set(bits, 35u8));
    }
    if bits & (1u64 << 36u64) != 0 {
        assert(bit_is_set(bits, 36u8));
    }
    if bits & (1u64 << 37u64) != 0 {
        assert(bit_is_set(bits, 37u8));
    }
    if bits & (1u64 << 38u64) != 0 {
        assert(bit_is_set(bits, 38u8));
    }
    if bits & (1u64 << 39u64) != 0 {
        assert(bit_is_set(bits, 39u8));
    }
    if bits & (1u64 << 40u64) != 0 {
        assert(bit_is_set(bits, 40u8));
    }
    if bits & (1u64 << 41u64) != 0 {
        assert(bit_is_set(bits, 41u8));
    }
    if bits & (1u64 << 42u64) != 0 {
        assert(bit_is_set(bits, 42u8));
    }
    if bits & (1u64 << 43u64) != 0 {
        assert(bit_is_set(bits, 43u8));
    }
    if bits & (1u64 << 44u64) != 0 {
        assert(bit_is_set(bits, 44u8));
    }
    if bits & (1u64 << 45u64) != 0 {
        assert(bit_is_set(bits, 45u8));
    }
    if bits & (1u64 << 46u64) != 0 {
        assert(bit_is_set(bits, 46u8));
    }
    if bits & (1u64 << 47u64) != 0 {
        assert(bit_is_set(bits, 47u8));
    }
    if bits & (1u64 << 48u64) != 0 {
        assert(bit_is_set(bits, 48u8));
    }
    if bits & (1u64 << 49u64) != 0 {
        assert(bit_is_set(bits, 49u8));
    }
    if bits & (1u64 << 50u64) != 0 {
        assert(bit_is_set(bits, 50u8));
    }
    if bits & (1u64 << 51u64) != 0 {
        assert(bit_is_set(bits, 51u8));
    }
    if bits & (1u64 << 52u64) != 0 {
        assert(bit_is_set(bits, 52u8));
    }
    if bits & (1u64 << 53u64) != 0 {
        assert(bit_is_set(bits, 53u8));
    }
    if bits & (1u64 << 54u64) != 0 {
        assert(bit_is_set(bits, 54u8));
    }
    if bits & (1u64 << 55u64) != 0 {
        assert(bit_is_set(bits, 55u8));
    }
    if bits & (1u64 << 56u64) != 0 {
        assert(bit_is_set(bits, 56u8));
    }
    if bits & (1u64 << 57u64) != 0 {
        assert(bit_is_set(bits, 57u8));
    }
    if bits & (1u64 << 58u64) != 0 {
        assert(bit_is_set(bits, 58u8));
    }
    if bits & (1u64 << 59u64) != 0 {
        assert(bit_is_set(bits, 59u8));
    }
    if bits & (1u64 << 60u64) != 0 {
        assert(bit_is_set(bits, 60u8));
    }
    if bits & (1u64 << 61u64) != 0 {
        assert(bit_is_set(bits, 61u8));
    }
    if bits & (1u64 << 62u64) != 0 {
        assert(bit_is_set(bits, 62u8));
    }
    if bits & (1u64 << 63u64) != 0 {
        assert(bit_is_set(bits, 63u8));
    }
}

/// A hand of cards all of whose fifty-two bits are set holds every card.
pub proof fn lemma_every_card_set(bits: u64)
    requires
        bits < 0x10_0000_0000_0000u64,
        forall|n: u8| n < 52 ==> #[trigger] bit_is_set(bits, n),
    ensures
        bits == 0xf_ffff_ffff_ffffu64,
{
    assert(bit_is_set(bits, 0u8));
    assert(bit_is_set(bits, 1u8));
    assert(bit_is_set(bits, 2u8));
    assert(bit_is_set(bits, 3u8));
    assert(bit_is_set(bits, 4u8));
    assert(bit_is_set(bits, 5u8));
    assert(bit_is_set(bits, 6u8));
    assert(bit_is_set(bits, 7u8));
    assert(bit_is_set(bits, 8u8));
    assert(bit_is_set(bits, 9u8));
    assert(bit_is_set(bits, 10u8));
    assert(bit_is_set(bits, 11u8));
    assert(bit_is_set(bits, 12u8));
    assert(bit_is_set(bits, 13u8));
    assert(bit_is_set(bits, 14u8));
    assert(bit_is_set(bits, 15u8));
    assert(bit_is_set(bits, 16u8));
    assert(bit_is_set(bits, 17u8));
    assert(bit_is_set(bits, 18u8));
    assert(bit_is_set(bits, 19u8));
    assert(bit_is_set(bits, 20u8));
    assert(bit_is_set(bits, 21u8));
    assert(bit_is_set(bits, 22u8));
    assert(bit_is_set(bits, 23u8));
    assert(bit_is_set(bits, 24u8));
    assert(bit_is_set(bits, 25u8));
    assert(bit_is_set(bits, 26u8));
    assert(bit_is_set(bits, 27u8));
    assert(bit_is_set(bits, 28u8));
    assert(bit_is_set(bits, 29u8));
    assert(bit_is_set(bits, 30u8));
    assert(bit_is_set(bits, 31u8));
    assert(bit_is_set(bits, 32u8));
    assert(bit_is_set(bits, 33u8));
    assert(bit_is_set(bits, 34u8));
    assert(bit_is_set(bits, 35u8));
    assert(bit_is_set(bits, 36u8));
    assert(bit_is_set(bits, 37u8));
    assert(bit_is_set(bits, 38u8));
    assert(bit_is_set(bits, 39u8));
    assert(bit_is_set(bits, 40u8));
    assert(bit_is_set(bits, 41u8));
    assert(bit_is_set(bits, 42u8));
    assert(bit_is_set(bits, 43u8));
    assert(bit_is_set(bits, 44u8));
    assert(bit_is_set(bits, 45u8));
    assert(bit_is_set(bits, 46u8));
    assert(bit_is_set(bits, 47u8));
    assert(bit_is_set(bits, 48u8));
    assert(bit_is_set(bits, 49u8));
    assert(bit_is_set(bits, 50u8));
    assert(bit_is_set(bits, 51u8));
    lemma_every_card_is_full(bits);
}

/// A hand of cards none of whose fifty-two bits is set holds nothing.
pub proof fn lemma_no_card_set(bits: u64)
    requires
        bits < 0x10_0000_0000_0000u64,
        forall|n: u8| n < 52 ==> !bit_is_set(bits, n),
    ensures
        bits == 0,
{
    assert(!bit_is_set(bits, 0u8));
    assert(!bit_is_set(bits, 1u8));
    assert(!bit_is_set(bits, 2u8));
    assert(!bit_is_set(bits, 3u8));
    assert(!bit_is_set(bits, 4u8));
    assert(!bit_is_set(bits, 5u8));
    assert(!bit_is_set(bits, 6u8));
    assert(!bit_is_set(bits, 7u8));
    assert(!bit_is_set(bits, 8u8));
    assert(!bit_is_set(bits, 9u8));
    assert(!bit_is_set(bits, 10u8));
    assert(!bit_is_set(bits, 11u8));
    assert(!bit_is_set(bits, 12u8));
    assert(!bit_is_set(bits, 13u8));
    assert(!bit_is_set(bits, 14u8));
    assert(!bit_is_set(bits, 15u8));
    assert(!bit_is_set(bits, 16u8));
    assert(!bit_is_set(bits, 17u8));
    assert(!bit_is_set(bits, 18u8));
    assert(!bit_is_set(bits, 19u8));
    assert(!bit_is_set(bits, 20u8));
    assert(!bit_is_set(bits, 21u8));
    assert(!bit_is_set(bits, 22u8));
    assert(!bit_is_set(bits, 23u8));
    assert(!bit_is_set(bits, 24u8));
    assert(!bit_is_set(bits, 25u8));
    assert(!bit_is_set(bits, 26u8));
    assert(!bit_is_set(bits, 27u8));
    assert(!bit_is_set(bits, 28u8));
    assert(!bit_is_set(bits, 29u8));
    assert(!bit_is_set(bits, 30u8));
    assert(!bit_is_set(bits, 31u8));
    assert(!bit_is_set(bits, 32u8));
    assert(!bit_is_set(bits, 33u8));
    assert(!bit_is_set(bits, 34u8));
    assert(!bit_is_set(bits, 35u8));
    assert(!bit_is_set(bits, 36u8));
    assert(!bit_is_set(bits, 37u8));
    assert(!bit_is_set(bits, 38u8));
    assert(!bit_is_set(bits, 39u8));
    assert(!bit_is_set(bits, 40u8));
    assert(!bit_is_set(bits, 41u8));
    assert(!bit_is_set(bits, 42u8));
    assert(!bit_is_set(bits, 43u8));
    assert(!bit_is_set(bits, 44u8));
    assert(!bit_is_set(bits, 45u8));
    assert(!bit_is_set(bits, 46u8));
    assert(!bit_is_set(bits, 47u8));
    assert(!bit_is_set(bits, 48u8));
    assert(!bit_is_set(bits, 49u8));
    assert(!bit_is_set(bits, 50u8));
    assert(!bit_is_set(bits, 51u8));
    lemma_no_card_is_empty(bits);
}

/// A hand that holds every card is the hand of all cards.
pub proof fn lemma_every_card_is_full(bits: u64)
    by (bit_vector)
    requires
        bits < 0x10_0000_0000_0000u64,
        bits & (1u64 << 0u64) != 0,
        bits & (1u64 << 1u64) != 0,
        bits & (1u64 << 2u64) != 0,
        bits & (1u64 << 3u64) != 0,
        bits & (1u64 << 4u64) != 0,
        bits & (1u64 << 5u64) != 0,
        bits & (1u64 << 6u64) != 0,
        bits & (1u64 << 7u64) != 0,
        bits & (1u64 << 8u64) != 0,
        bits & (1u64 << 9u64) != 0,
        bits & (1u64 << 10u64) != 0,
        bits & (1u64 << 11u64) != 0,
        bits & (1u64 << 12u64) != 0,
        bits & (1u64 << 13u64) != 0,
        bits & (1u64 << 14u64) != 0,
        bits & (1u64 << 15u64) != 0,
        bits & (1u64 << 16u64) != 0,
        bits & (1u64 << 17u64) != 0,
        bits & (1u64 << 18u64) != 0,
        bits & (1u64 << 19u64) != 0,
        bits & (1u64 << 20u64) != 0,
        bits & (1u64 << 21u64) != 0,
        bits & (1u64 << 22u64) != 0,
        bits & (1u64 << 23u64) != 0,
        bits & (1u64 << 24u64) != 0,
        bits & (1u64 << 25u64) != 0,
        bits & (1u64 << 26u64) != 0,
        bits & (1u64 << 27u64) != 0,
        bits & (1u64 << 28u64) != 0,
        bits & (1u64 << 29u64) != 0,
        bits & (1u64 << 30u64) != 0,
        bits & (1u64 << 31u64) != 0,
        bits & (1u64 << 32u64) != 0,
        bits & (1u64 << 33u64) != 0,
        bits & (1u64 << 34u64) != 0,
        bits & (1u64 << 35u64) != 0,
        bits & (1u64 << 36u64) != 0,
        bits & (1u64 << 37u64) != 0,
        bits & (1u64 << 38u64) != 0,
        bits & (1u64 << 39u64) != 0,
        bits & (1u64 << 40u64) != 0,
        bits & (1u64 << 41u64) != 0,
        bits & (1u64 << 42u64) != 0,
        bits & (1u64 << 43u64) != 0,
        bits & (1u64 << 44u64) != 0,
        bits & (1u64 << 45u64) != 0,
        bits & (1u64 << 46u64) != 0,
        bits & (1u64 << 47u64) != 0,
        bits & (1u64 << 48u64) != 0,
        bits & (1u64 << 49u64) != 0,
        bits & (1u64 << 50u64) != 0,
        bits & (1u64 << 51u64) != 0,
    ensures
        bits == 0xf_ffff_ffff_ffffu64,
{
}

/// Taking the cards of the empty hand out of a hand leaves the hand.
pub proof fn lemma_minus_nothing(bits: u64)
    by (bit_vector)
    ensures
        bits & !0u64 == bits,
{
}

/// The empty hand has no card in common with any hand.
pub proof fn lemma_empty_disjoint(other: u64)
    by (bit_vector)
    ensures
        0u64 & other == 0,
        other & 0u64 == 0,
{
}

/// Having no card in common does not depend on the order the hands are
/// named in.
pub proof fn lemma_disjoint_symmetric(a: u64, b: u64)
    by (bit_vector)
    ensures
        (a & b == 0) == (b & a == 0),
{
}

/// What moving a card that one hand holds to another hand does to hands
/// that had no card in common with either.
pub proof fn lemma_move_card(from: u64, to: u64, other: u64, n: u64)
    by (bit_vector)
    requires
        n < 52,
        from & (1u64 << n) != 0,
        from & to == 0,
        from & other == 0,
        to & other == 0,
        from < 0x10_0000_0000_0000u64,
        to < 0x10_0000_0000_0000u64,
    ensures
        to & (1u64 << n) == 0,
        other & (1u64 << n) == 0,
        (from & !(1u64 << n)) & (to | (1u64 << n)) == 0,
        (from & !(1u64 << n)) & other == 0,
        other & (from & !(1u64 << n)) == 0,
        (to | (1u64 << n)) & other == 0,
        other & (to | (1u64 << n)) == 0,
        (from & !(1u64 << n)) < 0x10_0000_0000_0000u64,
        (to | (1u64 << n)) < 0x10_0000_0000_0000u64,
{
}

/// Among the lowest `k` bits no more than `k` are set, and the cards that
/// stand for them are as many.
pub proof fn lemma_count_below(bits: u64, k: int)
    requires
        0 <= k <= 64,
    ensures
        count_below(bits, k) <= k,
        cards_below(bits, k).len() == count_below(bits, k),
        forall|i: int|
            0 <= i < cards_below(bits, k).len() ==> {
                &&& (#[trigger] cards_below(bits, k)[i]).n < k
                &&& bit_is_set(bits, cards_below(bits, k)[i].n)
            },
        forall|n: u8| n < k && bit_is_set(bits, n) ==> cards_below(bits, k).contains(Card { n }),
        forall|i: int, j: int|
            0 <= i < j < cards_below(bits, k).len() ==> (#[trigger] cards_below(bits, k)[i]).n < (
            #[trigger] cards_below(bits, k)[j]).n,
    decreases k,
{
    if k > 0 {
        lemma_count_below(bits, k - 1);
        let fewer = cards_below(bits, k - 1);
        let all = cards_below(bits, k);
        assert forall|i: int, j: int| 0 <= i < j < all.len() implies (#[trigger] all[i]).n < (
        #[trigger] all[j]).n by {
            if j < fewer.len() {
                assert(all[i] == fewer[i] && all[j] == fewer[j]);
            } else {
                assert(all[i] == fewer[i]);
            }
        }
        assert forall|i: int| 0 <= i < all.len() implies {
            &&& (#[trigger] all[i]).n < k
            &&& bit_is_set(bits, all[i].n)
        } by {
            if i < fewer.len() {
                assert(all[i] == fewer[i]);
            }
        }
        assert forall|n: u8| n < k && bit_is_set(bits, n) implies all.contains(Card { n }) by {
            if n < k - 1 {
                assert(fewer.contains(Card { n }));
                let i = choose|i: int| 0 <= i < fewer.len() && fewer[i] == (Card { n });
                assert(all[i] == (Card { n }));
            } else {
                assert(all[all.len() - 1] == (Card { n }));
            }
        }
    }
}

/// The counts of set bits of two numbers that differ in bit `m` alone
/// differ by one, where `m` is among the bits counted.
pub proof fn lemma_count_with_bit(bits: u64, more: u64, m: u8, k: int)
    requires
        0 <= k <= 64,
        m < 64,
        !bit_is_set(bits, m),
        forall|n: u8| bit_is_set(more, n) == (bit_is_set(bits, n) || n == m),
    ensures
        count_below(more, k) == count_below(bits, k) + (if m < k {
            1nat
        } else {
            0nat
        }),
    decreases k,
{
    if k > 0 {
        lemma_count_with_bit(bits, more, m, k - 1);
        assert(bit_is_set(more, (k - 1) as u8) == (bit_is_set(bits, (k - 1) as u8) || (k - 1) as u8
            == m));
    }
}

/// A hand of cards has no bit set beyond those of the cards.
pub proof fn lemma_no_high_bits(bits: u64, n: u64)
    by (bit_vector)
    requires
        bits < 0x10_0000_0000_0000u64,
        52 <= n < 64,
    ensures
        bits & (1u64 << n) == 0,
{
}

/// In a hand of cards, counting all bits counts the cards.
pub proof fn lemma_count_cards(bits: u64, k: int)
    requires
        bits < 0x10_0000_0000_0000u64,
        52 <= k <= 64,
    ensures
        count_below(bits, k) == count_below(bits, 52),
    decreases k,
{
    if k > 52 {
        lemma_count_cards(bits, k - 1);
        lemma_no_high_bits(bits, (k - 1) as u64);
        assert(!bit_is_set(bits, (k - 1) as u8));
    }
}

impl Hand {
    /// The number of cards in the hand.
    pub open spec fn spec_len(&self) -> nat {
        count_below(self.bitset, 52)
    }

    /// The hand of all fifty-two cards.
    pub open spec fn spec_full() -> Hand {
        Hand { bitset: 0xf_ffff_ffff_ffffu64 }
    }

    /// The cards of this hand that `other` does not hold.
    pub open spec fn spec_minus(&self, other: Hand) -> Hand {
        Hand { bitset: self.bitset & !other.bitset }
    }

    /// The hand of all fifty-two cards.
    pub fn full() -> (hand: Hand)
        ensures
            hand == Hand::spec_full(),
            hand.wf(),
            forall|n: u8| n < 52 ==> #[trigger] bit_is_set(hand.bitset, n),
    {
        let cards = crate::bridge::card::all_cards();
        let hand = Hand::new(cards.as_slice());
        proof {
            assert forall|n: u8| n < 52 implies #[trigger] bit_is_set(hand.bitset, n) by {
                assert(cards@[n as int].n == n);
                assert(hand@.contains(n));
            }
            lemma_every_card_set(hand.bitset);
        }
        hand
    }
}

impl Default for Hand {
    fn default() -> (hand: Hand)
        ensures
            hand.wf(),
            hand.bitset == 0,
    {
        Hand { bitset: 0 }
    }
}

/// Numbers with the same bits are the same number.
pub proof fn lemma_same_bits(a: u64, b: u64)
    requires
        forall|n: u8| n < 64 ==> bit_is_set(a, n) == bit_is_set(b, n),
    ensures
        a == b,
{
    let d = a ^ b;
    if d != 0 {
        lemma_some_bit(d);
        lemma_bit_named(d);
        let n = choose|n: u8| bit_is_set(d, n);
        lemma_xor_bits(a, b, n as u64);
        assert(bit_is_set(a, n) == bit_is_set(b, n));
    }
    assert(a == b) by (bit_vector)
        requires
            a ^ b == 0,
    ;
}

pub proof fn lemma_xor_bits(a: u64, b: u64, n: u64)
    by (bit_vector)
    requires
        n < 64,
    ensures
        ((a ^ b) & (1u64 << n) != 0) == ((a & (1u64 << n) != 0) != (b & (1u64 << n) != 0)),
{
}

/// A hand that holds one card, and no other, is the bit of that card.
pub proof fn lemma_single_card_hand(hand: Hand, card: Card)
    requires
        card.n < 64,
        forall|n: u8| hand@.contains(n) <==> n == card.n,
    ensures
        hand.bitset == 1u64 << (card.n as u64),
{
    let single = 1u64 << (card.n as u64);
    assert forall|n: u8| n < 64 implies bit_is_set(hand.bitset, n) == bit_is_set(single, n) by {
        assert(hand@.contains(n) == bit_is_set(hand.bitset, n));
        lemma_single_bit(card.n as u64, n as u64);
    }
    lemma_same_bits(hand.bitset, single);
}

/// A hand without one of its cards holds one card fewer.
pub proof fn lemma_one_card_fewer(hand: Hand, card: Card)
    requires
        card.n < 52,
        bit_is_set(hand.bitset, card.n),
    ensures
        hand.spec_without(card).spec_len() + 1 == hand.spec_len(),
        !bit_is_set(hand.spec_without(card).bitset, card.n),
{
    let less = hand.spec_without(card).bitset;
    assert forall|n: u8| bit_is_set(less, n) == (bit_is_set(hand.bitset, n) && n != card.n) by {
        if n < 64 {
            lemma_and_not_bits(hand.bitset, 1u64 << (card.n as u64), n as u64);
            lemma_single_bit(card.n as u64, n as u64);
        }
    }
    assert forall|n: u8| bit_is_set(hand.bitset, n) == (bit_is_set(less, n) || n == card.n) by {}
    lemma_count_with_bit(less, hand.bitset, card.n, 52);
}

/// A hand with a card put in that it did not hold holds one card more.
pub proof fn lemma_one_card_more(hand: Hand, card: Card)
    requires
        card.n < 52,
        !bit_is_set(hand.bitset, card.n),
    ensures
        hand.spec_with(card).spec_len() == hand.spec_len() + 1,
        bit_is_set(hand.spec_with(card).bitset, card.n),
{
    let more = hand.spec_with(card).bitset;
    assert forall|n: u8| bit_is_set(more, n) == (bit_is_set(hand.bitset, n) || n == card.n) by {
        if n < 64 {
            lemma_or_bits(hand.bitset, 1u64 << (card.n as u64), n as u64);
            lemma_single_bit(card.n as u64, n as u64);
        }
    }
    lemma_count_with_bit(hand.bitset, more, card.n, 52);
}

/// The hand of all cards holds every card.
pub proof fn lemma_all_cards(n: u8)
    requires
        n < 52,
    ensures
        bit_is_set(Hand::spec_full().bitset, n),
{
    let k = n as u64;
    assert(0xf_ffff_ffff_ffffu64 & (1u64 << k) != 0) by (bit_vector)
        requires
            k < 52,
    ;
}

/// Hands with no card in common hold, together, as many cards as the
/// one and the other.
pub proof fn lemma_count_of_union(a: u64, b: u64, k: int)
    requires
        a & b == 0,
        0 <= k <= 64,
    ensures
        count_below(a | b, k) == count_below(a, k) + count_below(b, k),
    decreases k,
{
    if k > 0 {
        lemma_count_of_union(a, b, k - 1);
        let n = (k - 1) as u8;
        lemma_or_bits(a, b, n as u64);
        lemma_cards_of_disjoint(a, b, n);
    }
}

/// Where all of the lowest `k` bits are set, they are `k`.
pub proof fn lemma_count_of_all(bits: u64, k: int)
    requires
        0 <= k <= 64,
        forall|n: u8| n < k ==> #[trigger] bit_is_set(bits, n),
    ensures
        count_below(bits, k) == k,
    decreases k,
{
    if k > 0 {
        lemma_count_of_all(bits, k - 1);
        assert(bit_is_set(bits, (k - 1) as u8));
    }
}

/// A hand that holds no card has no card to count, and a hand that holds
/// a card has one.
pub proof fn lemma_empty_counts_nothing(hand: Hand)
    requires
        hand.wf(),
    ensures
        hand.bitset == 0 <==> hand.spec_len() == 0,
{
    lemma_count_below(hand.bitset, 52);
    if hand.bitset != 0 {
        if hand.spec_len() == 0 {
            assert forall|n: u8| n < 52 implies !bit_is_set(hand.bitset, n) by {
                if bit_is_set(hand.bitset, n) {
                    assert(cards_below(hand.bitset, 52).contains(Card { n }));
                }
            }
            lemma_no_card_set(hand.bitset);
        }
    } else {
        lemma_nothing_counted(52);
    }
}

/// None of the bits of zero is set.
pub proof fn lemma_nothing_counted(k: int)
    requires
        0 <= k <= 64,
    ensures
        count_below(0, k) == 0,
    decreases k,
{
    if k > 0 {
        lemma_nothing_counted(k - 1);
        let n = (k - 1) as u64;
        assert(0u64 & (1u64 << n) == 0) by (bit_vector);
    }
}

/// Hands that hold no card in common have no bit in common.
pub proof fn lemma_disjoint_by_cards(a: u64, b: u64)
    requires
        forall|n: u8| !(bit_is_set(a, n) && bit_is_set(b, n)),
    ensures
        a & b == 0,
        b & a == 0,
{
    let both = a & b;
    if both != 0 {
        lemma_some_bit(both);
        lemma_bit_named(both);
        let n = choose|n: u8| bit_is_set(both, n);
        lemma_and_bits(a, b, n as u64);
        assert(bit_is_set(a, n) && bit_is_set(b, n));
    }
    lemma_disjoint_symmetric(a, b);
}

/// Hands with no bit in common hold no card in common.
pub proof fn lemma_cards_of_disjoint(a: u64, b: u64, n: u8)
    requires
        a & b == 0,
    ensures
        !(bit_is_set(a, n) && bit_is_set(b, n)),
{
    if n < 64 {
        lemma_and_bits(a, b, n as u64);
        let k = n as u64;
        assert(0u64 & (1u64 << k) == 0) by (bit_vector);
    }
}

/// `bits` with the order of its sixty-four bits turned round.
pub open spec fn mirrored(bits: u64) -> u64 {
    let a = ((bits >> 1) & 0x5555_5555_5555_5555u64) | ((bits & 0x5555_5555_5555_5555u64) << 1);
    let b = ((a >> 2) & 0x3333_3333_3333_3333u64) | ((a & 0x3333_3333_3333_3333u64) << 2);
    let c = ((b >> 4) & 0x0f0f_0f0f_0f0f_0f0fu64) | ((b & 0x0f0f_0f0f_0f0f_0f0fu64) << 4);
    let d = ((c >> 8) & 0x00ff_00ff_00ff_00ffu64) | ((c & 0x00ff_00ff_00ff_00ffu64) << 8);
    let e = ((d >> 16) & 0x0000_ffff_0000_ffffu64) | ((d & 0x0000_ffff_0000_ffffu64) << 16);
    (e >> 32) | (e << 32)
}

/// `a + b` within sixty-four bits: what is carried beyond them is lost.
pub open spec fn wrapped_sum(a: u64, b: u64) -> u64 {
    if a + b > u64::MAX {
        (a + b - 0x1_0000_0000_0000_0000) as u64
    } else {
        (a + b) as u64
    }
}

/// Adding to a number those of its bits that a mask picks clears the lowest
/// bit picked and leaves the bits below it: turned round, the number gets
/// smaller.
pub proof fn lemma_climb_decreases(res: u64, mask: u64)
    by (bit_vector)
    requires
        res & mask != 0,
    ensures
        mirrored(wrapped_sum(res, res & mask)) < mirrored(res),
{
}

/// Taking from a number bits that lie one below bits of it, where the
/// number has none, makes it smaller.
pub proof fn lemma_sink_decreases(res: u64, mask: u64)
    by (bit_vector)
    requires
        ((res & mask) >> 1) & !res != 0,
    ensures
        ((res & mask) >> 1) & !res <= res,
        res - (((res & mask) >> 1) & !res) < res,
{
}

/// The bits of the four twos.
pub const TWOS_BITS: u64 = 0x80_0400_2001;

/// The bits of the four aces.
pub const ACES_BITS: u64 = 0x8_0040_0200_1000;

/// The places the cards at `res` come to rest at when every card goes up
/// one place, time and again, as long as the place above it is picked by
/// `mask`.
pub open spec fn climbed(res: u64, mask: u64) -> u64
    decreases mirrored(res),
{
    if res & mask == 0 {
        res
    } else {
        proof {
            lemma_climb_decreases(res, mask);
        }
        climbed(wrapped_sum(res, res & mask), mask)
    }
}

/// The places the cards at `res` come to rest at when every card at a
/// place picked by `mask` goes down one place, time and again, as long as
/// the place below it is free; where no card can go down, all stay.
pub open spec fn sunk(res: u64, mask: u64) -> u64
    decreases res,
{
    let step = ((res & mask) >> 1) & !res;
    if res & mask == 0 || step == 0 {
        res
    } else {
        proof {
            lemma_sink_decreases(res, mask);
        }
        sunk((res - step) as u64, mask)
    }
}

impl Hand {
    /// The four twos.
    pub fn twos() -> (hand: Hand)
        ensures
            hand.bitset == TWOS_BITS,
    {
        Hand { bitset: TWOS_BITS }
    }

    /// The four aces.
    pub fn aces() -> (hand: Hand)
        ensures
            hand.bitset == ACES_BITS,
    {
        Hand { bitset: ACES_BITS }
    }

    /// The hand as it ranks once `played_cards` are out of play: every
    /// card goes up through the places of played cards that lie right
    /// above it. A two that was played makes no room: no card goes up into
    /// the place of a two. Where the hand holds none of the played cards,
    /// `unreduce` gives it back.
    pub fn reduce(&self, played_cards: Hand) -> (hand: Hand)
        ensures
            hand == self.spec_reduce(played_cards),
            self.wf() && played_cards.wf() && self.disjoint(played_cards) ==> hand.wf()
                && ranking::is_ranked(
                hand.bitset,
                self.bitset,
                played_cards.bitset & !TWOS_BITS,
            ) && hand.spec_unreduce(played_cards) == *self && hand.spec_len() == self.spec_len(),
    {
        proof {
            if self.wf() && played_cards.wf() && self.disjoint(played_cards) {
                lemma_ranked_hand(*self, played_cards);
            }
        }
        let mut res = self.bitset;
        // Removing a two doesn't allow any up-shifting
        let mask = played_cards.minus(Hand::twos()).bitset >> 1;
        while res & mask != 0
            invariant
                climbed(res, mask) == climbed(self.bitset, mask),
            decreases mirrored(res),
        {
            proof {
                lemma_climb_decreases(res, mask);
            }
            res = res.wrapping_add(res & mask);
        }
        Self { bitset: res }
    }

    /// The hand as it was before it was ranked with `played_cards` out of
    /// play: every card at the place of a played card goes down through
    /// the places of played cards below it, as far as they are free. A
    /// hand that holds none of the played cards is left as it is.
    pub fn unreduce(&self, played_cards: Hand) -> (hand: Hand)
        ensures
            hand == self.spec_unreduce(played_cards),
            self.disjoint(played_cards) ==> hand == *self,
            forall|r: u8|
                r < 64 && self.bitset == 1u64 << (r as u64) ==> hand.bitset == 1u64 << (
                #[trigger] ranking::bottom(r as int, played_cards.bitset & !TWOS_BITS) as u64),
    {
        proof {
            assert forall|r: u8| r < 64 && self.bitset == 1u64 << (r as u64) implies sunk(
                self.bitset,
                played_cards.bitset & !TWOS_BITS,
            ) == 1u64 << (#[trigger] ranking::bottom(
                r as int,
                played_cards.bitset & !TWOS_BITS,
            ) as u64) by {
                ranking::lemma_single_card_sinks(r, played_cards.bitset & !TWOS_BITS);
            }
        }
        proof {
            let held = self.bitset;
            let played = played_cards.bitset;
            assert(held & played == 0 ==> held & (played & !TWOS_BITS) == 0) by (bit_vector);
        }
        let mut res = self.bitset;
        // Just like how twos can't cause upshifting, we can't downshift a two
        let mask = played_cards.minus(Hand::twos()).bitset;
        while res & mask != 0
            invariant
                sunk(res, mask) == sunk(self.bitset, mask),
            ensures
                res == sunk(self.bitset, mask),
            decreases res,
        {
            // Put a 1 every place a card needs to be downshifted
            let downshift_candidates = res & mask;
            // Move those 1s down, so we can subtract to move the numbers
            let subtraction_mask = downshift_candidates >> 1;
            // Filter out any slot that is occupied
            let filter_subtraction = subtraction_mask & !res;
            if filter_subtraction == 0 {
                break ;
            }
            proof {
                lemma_sink_decreases(res, mask);
            }
            res -= filter_subtraction;
        }
        Self { bitset: res }
    }
}

/// Cards out of play without the twos: what holds of the cards out of
/// play holds of them.
pub proof fn lemma_without_twos(held: u64, played: u64)
    by (bit_vector)
    requires
        held & played == 0,
        played < 0x10_0000_0000_0000u64,
    ensures
        held & (played & !TWOS_BITS) == 0,
        (played & !TWOS_BITS) & (1u64 << 63) == 0,
        (played & !TWOS_BITS) < 0x10_0000_0000_0000u64,
{
}

/// A hand ranked with cards out of play that it holds none of is a hand
/// of as many cards, each at the place it goes up to; undoing the
/// ranking gives the hand back.
pub proof fn lemma_ranked_hand(hand: Hand, played_cards: Hand)
    requires
        hand.wf(),
        played_cards.wf(),
        hand.disjoint(played_cards),
    ensures
        hand.spec_reduce(played_cards).wf(),
        ranking::is_ranked(
            hand.spec_reduce(played_cards).bitset,
            hand.bitset,
            played_cards.bitset & !TWOS_BITS,
        ),
        hand.spec_reduce(played_cards).spec_unreduce(played_cards) == hand,
        hand.spec_reduce(played_cards).spec_len() == hand.spec_len(),
        count_below(hand.spec_reduce(played_cards).bitset, 64) == hand.spec_len(),
{
    let played = played_cards.bitset & !TWOS_BITS;
    let ranked = climbed(hand.bitset, played >> 1);
    lemma_without_twos(hand.bitset, played_cards.bitset);
    ranking::lemma_reduce_ranks(hand.bitset, played);
    ranking::lemma_ranked_is_hand(ranked, hand.bitset, played);
    ranking::lemma_sinking_undoes_climbing(hand.bitset, played);
    ranking::lemma_ranked_count(ranked, hand.bitset, played);
    lemma_count_cards(ranked, 64);
    lemma_count_cards(hand.bitset, 64);
}

} // verus!
