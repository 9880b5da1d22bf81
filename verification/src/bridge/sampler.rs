//! Dealing out the cards a seat cannot see.

use vstd::prelude::*;
use crate::bridge::card::{all_cards, Card};
use crate::bridge::game::{
    AfterDeclarerInfoSet, BeforeDeclarerInfoSet, BridgeGame, BridgeInfoSet, DeclarerInfoSet,
    DummyInfoSet, PlayedCards, UniversalInformation,
};
use crate::bridge::hand;
use crate::bridge::hand::Hand;
use crate::bridge::seat::Seat;
use crate::cfr::game_model::{
    GamestateSampler, OracleGamestate, Probability, VisibleInfo, PROBABILITY_ONE,
};

verus! {

/// `fastrand::usize` over the range from zero up to `len`, `len` itself
/// left out: some number of that range.
#[verifier::external_body]
pub(crate) fn random_index(len: usize) -> (drawn: usize)
    requires
        len > 0,
    ensures
        drawn < len,
{
    fastrand::usize(..len)
}

/// The number of ways to choose `k` things out of `n`.
pub open spec fn binomial(n: nat, k: nat) -> nat
    decreases n,
{
    if k == 0 {
        1
    } else if n == 0 {
        0
    } else {
        binomial((n - 1) as nat, (k - 1) as nat) + binomial((n - 1) as nat, k)
    }
}

/// More things cannot be chosen than there are, and the ways to choose
/// among `n` things are no more than their subsets.
pub proof fn lemma_binomial_bounds(n: nat, k: nat)
    ensures
        k > n ==> binomial(n, k) == 0,
        binomial(n, k) <= vstd::arithmetic::power2::pow2(n),
        k <= n ==> binomial(n, k) >= 1,
    decreases n,
{
    vstd::arithmetic::power2::lemma_pow2_pos(n);
    if k == 0 {
    } else if n == 0 {
    } else {
        lemma_binomial_bounds((n - 1) as nat, (k - 1) as nat);
        lemma_binomial_bounds((n - 1) as nat, k);
        vstd::arithmetic::power2::lemma_pow2_unfold(n);
    }
}

/// Choosing `k` things and marking one of them can be done by choosing
/// `k - 1` things and marking one of the others.
pub proof fn lemma_binomial_step(n: nat, k: nat)
    requires
        1 <= k <= n,
    ensures
        k * binomial(n, k) == (n - k + 1) * binomial(n, (k - 1) as nat),
    decreases n,
{
    let prev = (n - 1) as nat;
    let a = binomial(prev, (k - 1) as nat);
    let b = binomial(prev, k);
    if k == 1 {
        lemma_choose_one(n);
        lemma_choose_one(prev);
        assert(binomial(n, 0) == 1);
        assert(k * binomial(n, k) == n) by (nonlinear_arith)
            requires
                k == 1,
                binomial(n, k) == n,
        ;
        assert((n - k + 1) * binomial(n, 0) == n) by (nonlinear_arith)
            requires
                k == 1,
                binomial(n, 0) == 1,
        ;
    } else {
        let c = binomial(prev, (k - 2) as nat);
        assert(binomial(n, k) == a + b);
        assert(binomial(n, (k - 1) as nat) == c + a);
        if k <= prev {
            lemma_binomial_step(prev, k);
            assert(k * b == (prev - k + 1) * a);
        } else {
            lemma_binomial_bounds(prev, k);
            assert(b == 0);
            assert(k * b == (prev - k + 1) * a) by (nonlinear_arith)
                requires
                    b == 0,
                    prev - k + 1 == 0,
            ;
        }
        lemma_binomial_step(prev, (k - 1) as nat);
        assert((k - 1) * a == (prev - (k - 1) + 1) * c);
        assert(k * (a + b) == (n - k + 1) * (c + a)) by (nonlinear_arith)
            requires
                k * b == (prev - k + 1) * a,
                (k - 1) * a == (prev - (k - 1) + 1) * c,
                prev == n - 1,
        ;
    }
}

/// One of `n` things can be chosen in `n` ways.
pub proof fn lemma_choose_one(n: nat)
    ensures
        binomial(n, 1) == n,
    decreases n,
{
    if n > 0 {
        lemma_choose_one((n - 1) as nat);
        assert(binomial((n - 1) as nat, 0) == 1);
    }
}

/// The number of ways to choose `r` of `n` cards, counted by the smaller of
/// the cards chosen and the cards left.
pub fn count_combinations(n: u32, r: u32) -> (ways: u64)
    requires
        n <= 52,
    ensures
        r > n ==> ways == 0,
        r <= n ==> ways == count_of(n as nat, r as nat),
{
    if r > n {
        0
    } else {
        let m: u32 = if r <= n - r {
            r
        } else {
            n - r
        };
        let mut acc: u64 = 1;
        let mut val: u32 = 1;
        while val <= m
            invariant
                1 <= val <= m + 1,
                m <= n,
                n <= 52,
                acc == binomial(n as nat, (val - 1) as nat),
            decreases m + 1 - val,
        {
            proof {
                lemma_binomial_bounds(n as nat, (val - 1) as nat);
                lemma_binomial_bounds(n as nat, val as nat);
                vstd::arithmetic::power2::lemma_pow2_strictly_increases(n as nat, 53);
                vstd::arithmetic::power2::lemma2_to64();
                vstd::arithmetic::power2::lemma2_to64_rest();
                lemma_binomial_step(n as nat, val as nat);
                let next = binomial(n as nat, val as nat);
                let factor = (n - val + 1) as int;
                assert(acc * factor <= 0x20_0000_0000_0000 * 52) by (nonlinear_arith)
                    requires
                        0 <= acc <= 0x20_0000_0000_0000,
                        0 <= factor <= 52,
                ;
                assert((acc * factor) / (val as int) == next) by (nonlinear_arith)
                    requires
                        val * next == factor * acc,
                        val >= 1,
                ;
            }
            acc = acc * ((n - val + 1) as u64) / (val as u64);
            val += 1;
        }
        acc
    }
}

/// `a * b`, held at the largest number where it would exceed it.
pub open spec fn capped_product(a: int, b: int) -> int {
    if a * b > u128::MAX {
        u128::MAX as int
    } else {
        a * b
    }
}

/// The number of ways to deal `a`, `b` and `c` of `n_to_pick` cards to
/// three hands, one after the other; the count is held at the largest
/// number that can be told.
pub fn count_combinations_of_picks(n_to_pick: u32, a: u32, b: u32, c: u32) -> (ways: u128)
    requires
        n_to_pick <= 52,
        a + b + c <= n_to_pick,
    ensures
        ways == capped_product(
            capped_product(
                count_of(n_to_pick as nat, a as nat) as int,
                count_of((n_to_pick - a) as nat, b as nat) as int,
            ),
            count_of((n_to_pick - a - b) as nat, c as nat) as int,
        ),
        ways >= 1,
{
    let first = count_combinations(n_to_pick, a) as u128;
    let second = count_combinations(n_to_pick - a, b) as u128;
    let third = count_combinations(n_to_pick - a - b, c) as u128;
    proof {
        lemma_binomial_bounds(n_to_pick as nat, count_by(n_to_pick as nat, a as nat));
        lemma_binomial_bounds((n_to_pick - a) as nat, count_by((n_to_pick - a) as nat, b as nat));
        lemma_binomial_bounds(
            (n_to_pick - a - b) as nat,
            count_by((n_to_pick - a - b) as nat, c as nat),
        );
    }
    let two = capped_multiply(first, second);
    capped_multiply(two, third)
}

/// The smaller of `r` and what is left of `n` after taking `r`.
pub open spec fn count_by(n: nat, r: nat) -> nat {
    if r <= n - r {
        r
    } else {
        (n - r) as nat
    }
}

/// The number of ways to choose `r` of `n` cards, as `count_combinations`
/// counts it.
pub open spec fn count_of(n: nat, r: nat) -> nat {
    binomial(n, count_by(n, r))
}

/// `a * b`, held at the largest number.
pub fn capped_multiply(a: u128, b: u128) -> (product: u128)
    ensures
        product == capped_product(a as int, b as int),
        a >= 1 && b >= 1 ==> product >= 1,
{
    proof {
        if a >= 1 && b >= 1 {
            assert(a * b >= 1) by (nonlinear_arith)
                requires
                    a >= 1,
                    b >= 1,
            ;
        }
    }
    match a.checked_mul(b) {
        Some(product) => product,
        None => u128::MAX,
    }
}

/// The cards of `pool` are cards, and no card is in it twice.
pub open spec fn pool_wf(pool: Seq<Card>) -> bool {
    &&& forall|i: int| 0 <= i < pool.len() ==> (#[trigger] pool[i]).wf()
    &&& forall|i: int, j: int|
        0 <= i < j < pool.len() ==> (#[trigger] pool[i]).n != (#[trigger] pool[j]).n
}

/// No card of `pool` is in `hand`.
pub open spec fn pool_apart(pool: Seq<Card>, hand: Hand) -> bool {
    forall|i: int| 0 <= i < pool.len() ==> !hand::bit_is_set(hand.bitset, (#[trigger] pool[i]).n)
}

/// Whether `card` is one of `pool`.
pub open spec fn in_pool(pool: Seq<Card>, n: u8) -> bool {
    exists|i: int| 0 <= i < pool.len() && (#[trigger] pool[i]).n == n
}

/// Whether `card` is at a place of `pool` other than `i`.
pub open spec fn elsewhere(pool: Seq<Card>, i: int, card: Card) -> bool {
    exists|k: int| 0 <= k < pool.len() && k != i && #[trigger] pool[k] == card
}

/// Moves `missing_n` cards, drawn at random, from `cards` to `hand`.
pub fn fill_hand(cards: &mut Vec<Card>, hand: &mut Hand, missing_n: u32)
    requires
        pool_wf(old(cards)@),
        pool_apart(old(cards)@, *old(hand)),
        old(hand).wf(),
        missing_n <= old(cards)@.len(),
    ensures
        pool_wf(final(cards)@),
        pool_apart(final(cards)@, *final(hand)),
        final(hand).wf(),
        final(cards)@.len() == old(cards)@.len() - missing_n,
        final(hand).spec_len() == old(hand).spec_len() + missing_n,
        missing_n == 0 ==> *final(hand) == *old(hand) && final(cards)@ == old(cards)@,
        forall|n: u8| #[trigger] in_pool(final(cards)@, n) ==> in_pool(old(cards)@, n),
        forall|n: u8|
            #![trigger hand::bit_is_set(final(hand).bitset, n)]
            hand::bit_is_set(final(hand).bitset, n) <==> hand::bit_is_set(old(hand).bitset, n) || (
            in_pool(old(cards)@, n) && !in_pool(final(cards)@, n)),
{
    let mut togo = missing_n;
    while togo > 0
        invariant
            togo <= missing_n,
            pool_wf(cards@),
            pool_apart(cards@, *hand),
            hand.wf(),
            cards@.len() == old(cards)@.len() - (missing_n - togo),
            hand.spec_len() == old(hand).spec_len() + (missing_n - togo),
            missing_n <= old(cards)@.len(),
            pool_wf(old(cards)@),
            togo == missing_n ==> *hand == *old(hand) && cards@ == old(cards)@,
            forall|n: u8| #[trigger] in_pool(cards@, n) ==> in_pool(old(cards)@, n),
            forall|n: u8|
                #![trigger hand::bit_is_set(hand.bitset, n)]
                hand::bit_is_set(hand.bitset, n) <==> hand::bit_is_set(old(hand).bitset, n) || (
                in_pool(old(cards)@, n) && !in_pool(cards@, n)),
        decreases togo,
    {
        let ghost pool = cards@;
        let ghost held = *hand;
        let i = random_index(cards.len());
        let card = cards.swap_remove(i);
        hand.add_assign(card);
        proof {
            let rest = cards@;
            assert(card == pool[i as int]);
            assert(card.wf());
            hand::lemma_one_card_more(held, card);
            // what is left of the pool is the pool without the card drawn
            assert forall|j: int| 0 <= j < rest.len() implies elsewhere(
                pool,
                i as int,
                #[trigger] rest[j],
            ) by {
                if j == i {
                    assert(pool[pool.len() - 1] == rest[j]);
                } else {
                    assert(pool[j] == rest[j]);
                }
            }
            assert forall|k: int| 0 <= k < pool.len() && k != i implies elsewhere(
                rest,
                -1,
                #[trigger] pool[k],
            ) by {
                if k == pool.len() - 1 {
                    assert(rest[i as int] == pool[k]);
                } else {
                    assert(rest[k] == pool[k]);
                }
            }
            assert forall|j: int| 0 <= j < rest.len() implies (#[trigger] rest[j]).wf()
                && rest[j].n != card.n && !hand::bit_is_set(hand.bitset, rest[j].n) by {
                assert(elsewhere(pool, i as int, rest[j]));
                let k = choose|k: int| 0 <= k < pool.len() && k != i && #[trigger] pool[k] == rest[j];
                if k < i {
                    assert(pool[k].n != pool[i as int].n);
                } else {
                    assert(pool[i as int].n != pool[k].n);
                }
                assert(!hand::bit_is_set(held.bitset, pool[k].n));
                assert(hand@.contains(rest[j].n) == held@.insert(card.n).contains(rest[j].n));
            }
            assert forall|a: int, b: int| 0 <= a < b < rest.len() implies (#[trigger] rest[a]).n != (
            #[trigger] rest[b]).n by {
                if a == i {
                    assert(pool[pool.len() - 1] == rest[a]);
                    assert(pool[b] == rest[b]);
                    assert(pool[b].n != pool[pool.len() - 1].n);
                } else if b == i {
                    assert(pool[pool.len() - 1] == rest[b]);
                    assert(pool[a] == rest[a]);
                    assert(pool[a].n != pool[pool.len() - 1].n);
                } else {
                    assert(pool[a] == rest[a] && pool[b] == rest[b]);
                }
            }
            assert forall|n: u8| #[trigger] in_pool(rest, n) implies in_pool(old(cards)@, n) by {
                let j = choose|j: int| 0 <= j < rest.len() && (#[trigger] rest[j]).n == n;
                assert(elsewhere(pool, i as int, rest[j]));
                let k = choose|k: int| 0 <= k < pool.len() && k != i && #[trigger] pool[k] == rest[j];
                assert(pool[k].n == n);
                assert(in_pool(pool, n));
            }
            assert forall|n: u8|
                #![trigger hand::bit_is_set(hand.bitset, n)]
                hand::bit_is_set(hand.bitset, n) <==> hand::bit_is_set(old(hand).bitset, n) || (
                in_pool(old(cards)@, n) && !in_pool(rest, n)) by {
                assert(hand@.contains(n) == held@.insert(card.n).contains(n));
                assert(held@.contains(n) == hand::bit_is_set(held.bitset, n));
                if n == card.n {
                    assert(in_pool(pool, n));
                    if in_pool(rest, n) {
                        let j = choose|j: int| 0 <= j < rest.len() && (#[trigger] rest[j]).n == n;
                        assert(rest[j].n != card.n);
                    }
                } else {
                    if in_pool(rest, n) {
                        let j = choose|j: int| 0 <= j < rest.len() && (#[trigger] rest[j]).n == n;
                        assert(elsewhere(pool, i as int, rest[j]));
                        let k = choose|k: int|
                            0 <= k < pool.len() && k != i && #[trigger] pool[k] == rest[j];
                        assert(pool[k].n == n);
                        assert(in_pool(pool, n));
                    }
                    if in_pool(pool, n) {
                        let k = choose|k: int| 0 <= k < pool.len() && (#[trigger] pool[k]).n == n;
                        assert(k != i);
                        assert(elsewhere(rest, -1, pool[k]));
                        let j = choose|j: int|
                            0 <= j < rest.len() && j != -1 && #[trigger] rest[j] == pool[k];
                        assert(rest[j].n == n);
                        assert(in_pool(rest, n));
                    }
                }
            }
        }
        togo -= 1;
    }
}

/// Whether the hand `after` is the hand `before` with the cards put in that
/// have left the pool.
pub open spec fn filled(before: Hand, after: Hand, pool_before: Seq<Card>, pool_after: Seq<Card>) -> bool {
    &&& forall|n: u8| #[trigger] in_pool(pool_after, n) ==> in_pool(pool_before, n)
    &&& forall|n: u8|
        #![trigger hand::bit_is_set(after.bitset, n)]
        hand::bit_is_set(after.bitset, n) <==> hand::bit_is_set(before.bitset, n) || (in_pool(
            pool_before,
            n,
        ) && !in_pool(pool_after, n))
}

/// A hand that was apart from the hand filled and from the pool is apart
/// from the filled hand and from what is left of the pool.
pub proof fn lemma_fill_keeps_apart(
    before: Hand,
    after: Hand,
    other: Hand,
    pool_before: Seq<Card>,
    pool_after: Seq<Card>,
)
    requires
        filled(before, after, pool_before, pool_after),
        before.disjoint(other),
        pool_apart(pool_before, other),
    ensures
        after.disjoint(other),
        other.disjoint(after),
        pool_apart(pool_after, other),
{
    assert forall|n: u8| !(hand::bit_is_set(after.bitset, n) && hand::bit_is_set(other.bitset, n)) by {
        hand::lemma_cards_of_disjoint(before.bitset, other.bitset, n);
        if hand::bit_is_set(after.bitset, n) && !hand::bit_is_set(before.bitset, n) {
            assert(in_pool(pool_before, n));
            let i = choose|i: int| 0 <= i < pool_before.len() && (#[trigger] pool_before[i]).n == n;
            assert(!hand::bit_is_set(other.bitset, pool_before[i].n));
        }
    }
    hand::lemma_disjoint_by_cards(after.bitset, other.bitset);
    assert forall|i: int| 0 <= i < pool_after.len() implies !hand::bit_is_set(
        other.bitset,
        (#[trigger] pool_after[i]).n,
    ) by {
        let n = pool_after[i].n;
        assert(in_pool(pool_after, n));
        assert(in_pool(pool_before, n));
        let j = choose|j: int| 0 <= j < pool_before.len() && (#[trigger] pool_before[j]).n == n;
        assert(!hand::bit_is_set(other.bitset, pool_before[j].n));
    }
}

/// Deals out, at random, the cards that the seat to play cannot see.
pub struct BridgeGamestateSampler {
    pub universal_information: UniversalInformation,
    pub turn_player: Seat,
    pub dummy_hand: Hand,
    pub dummy_missing: u32,
    pub before_declarer_hand: Hand,
    pub before_declarer_missing: u32,
    pub declarer_hand: Hand,
    pub declarer_missing: u32,
    pub after_declarer_hand: Hand,
    pub after_declarer_missing: u32,
    /// The cards that are in none of the hands as far as they are seen,
    /// and have not been played.
    pub missing_cards: Vec<Card>,
    /// The number of deals the cards not seen allow.
    pub combos: u128,
}

/// No two of the five hands have a card in common.
pub open spec fn all_apart(played: Hand, dummy: Hand, before: Hand, declarer: Hand, after: Hand) -> bool {
    &&& before.disjoint(played)
    &&& declarer.disjoint(played)
    &&& after.disjoint(played)
    &&& dummy.disjoint(played)
    &&& before.disjoint(declarer)
    &&& before.disjoint(after)
    &&& before.disjoint(dummy)
    &&& declarer.disjoint(after)
    &&& declarer.disjoint(dummy)
    &&& after.disjoint(dummy)
}

/// No card of `pool` is in any of the five hands.
pub open spec fn pool_apart_from_all(
    pool: Seq<Card>,
    played: Hand,
    dummy: Hand,
    before: Hand,
    declarer: Hand,
    after: Hand,
) -> bool {
    &&& pool_apart(pool, played)
    &&& pool_apart(pool, dummy)
    &&& pool_apart(pool, before)
    &&& pool_apart(pool, declarer)
    &&& pool_apart(pool, after)
}

/// What a seat sees at `seat` when all see `universal` and the hands are
/// `declarer`, `after` and `before`.
pub open spec fn info_at(
    seat: Seat,
    universal: UniversalInformation,
    declarer: Hand,
    after: Hand,
    before: Hand,
) -> BridgeInfoSet {
    match seat {
        Seat::Declarer => BridgeInfoSet::Declarer(
            DeclarerInfoSet { universal_information: universal, declarer_hand: declarer },
        ),
        Seat::AfterDeclarer => BridgeInfoSet::AfterDeclarer(
            AfterDeclarerInfoSet { universal_information: universal, after_hand: after },
        ),
        Seat::Dummy => BridgeInfoSet::Dummy(
            DummyInfoSet { universal_information: universal, declarer_hand: declarer },
        ),
        Seat::BeforeDeclarer => BridgeInfoSet::BeforeDeclarer(
            BeforeDeclarerInfoSet { universal_information: universal, before_hand: before },
        ),
    }
}

impl BridgeGamestateSampler {
    /// The information set whose hidden cards are dealt.
    pub open spec fn spec_info(&self) -> BridgeInfoSet {
        info_at(
            self.turn_player,
            self.universal_information,
            self.declarer_hand,
            self.after_declarer_hand,
            self.before_declarer_hand,
        )
    }

    /// The sampler stands between two tricks of a deal that fits together:
    /// the hands seen and the cards played have no card in common, the
    /// pool holds cards that are in none of them, and it holds enough of
    /// them to fill the hands that are not seen. The hands that the seat
    /// to play sees are not filled.
    /// The number of deals there are: the ways to choose the cards of
    /// the hands that are filled, one hand after the other.
    pub open spec fn deals(&self) -> int {
        let n = self.missing_cards@.len();
        capped_product(
            capped_product(
                count_of(n, self.dummy_missing as nat) as int,
                count_of((n - self.dummy_missing) as nat, self.after_declarer_missing as nat) as int,
            ),
            count_of(
                (n - self.dummy_missing - self.after_declarer_missing) as nat,
                self.declarer_missing as nat,
            ) as int,
        )
    }

    /// The probability every deal is drawn with: one over the number of
    /// deals, in billionths.
    pub open spec fn spec_probability(&self) -> int {
        PROBABILITY_ONE as int / self.deals()
    }

    pub open spec fn wf(&self) -> bool {
        let universal = self.universal_information;
        let played = universal.cards_played;
        &&& self.combos == self.deals()
        &&& universal.contract.wf()
        &&& universal.lead is None
        &&& universal.dummy_hand == self.dummy_hand
        &&& played.wf()
        &&& played.spec_len() % 4 == 0
        &&& universal.declarer_tricks + universal.defender_tricks == played.spec_len() / 4
        &&& self.dummy_hand.wf()
        &&& self.before_declarer_hand.wf()
        &&& self.declarer_hand.wf()
        &&& self.after_declarer_hand.wf()
        &&& all_apart(
            played,
            self.dummy_hand,
            self.before_declarer_hand,
            self.declarer_hand,
            self.after_declarer_hand,
        )
        &&& pool_wf(self.missing_cards@)
        &&& pool_apart_from_all(
            self.missing_cards@,
            played,
            self.dummy_hand,
            self.before_declarer_hand,
            self.declarer_hand,
            self.after_declarer_hand,
        )
        &&& self.dummy_missing == 0
        &&& self.turn_player == Seat::Declarer || self.turn_player == Seat::Dummy
            ==> self.declarer_missing == 0
        &&& self.turn_player == Seat::AfterDeclarer ==> self.after_declarer_missing == 0
        &&& self.turn_player == Seat::BeforeDeclarer ==> self.before_declarer_missing == 0
        &&& self.before_declarer_missing + self.declarer_missing + self.after_declarer_missing
            <= self.missing_cards@.len()
        &&& self.combos >= 1
    }
}

/// The hand besides the dummy's that the seat to play sees: its own, or
/// the declarer's where the dummy is to play.
pub open spec fn seen_hand(info: BridgeInfoSet) -> Hand {
    match info {
        BridgeInfoSet::Declarer(i) => i.declarer_hand,
        BridgeInfoSet::AfterDeclarer(i) => i.after_hand,
        BridgeInfoSet::Dummy(i) => i.declarer_hand,
        BridgeInfoSet::BeforeDeclarer(i) => i.before_hand,
    }
}

/// The cards that are in neither hand seen at `info` and have not been
/// played.
pub open spec fn unseen_cards(info: BridgeInfoSet) -> Hand {
    let universal = info.spec_universal_information();
    Hand::spec_full().spec_minus(universal.dummy_hand).spec_minus(seen_hand(info)).spec_minus(
        universal.cards_played,
    )
}

/// Whether the cards not seen at `info` can be dealt out: play stands
/// between two tricks, all completed tricks are counted, the hands seen
/// and the cards played have no card in common, and there are cards
/// enough to give each of the two hands not seen as many as the dummy
/// holds.
pub open spec fn sampleable(info: BridgeInfoSet) -> bool {
    let universal = info.spec_universal_information();
    let played = universal.cards_played;
    &&& info.valid()
    &&& universal.lead is None
    &&& played.wf()
    &&& played.spec_len() % 4 == 0
    &&& universal.declarer_tricks + universal.defender_tricks == played.spec_len() / 4
    &&& universal.dummy_hand.wf()
    &&& seen_hand(info).wf()
    &&& universal.dummy_hand.disjoint(played)
    &&& seen_hand(info).disjoint(played)
    &&& seen_hand(info).disjoint(universal.dummy_hand)
    &&& 2 * universal.dummy_hand.spec_len() <= unseen_cards(info).spec_len()
}

impl BridgeGamestateSampler {
    /// The sampler that deals out the cards not seen at `info`.
    pub fn new(info: &BridgeInfoSet) -> (sampler: BridgeGamestateSampler)
        requires
            sampleable(*info),
        ensures
            sampler.wf(),
            sampler.spec_info() == *info,
    {
        let universal_information = *info.universal_information();
        let turn_player = info.seat();
        let played = universal_information.cards_played;
        let dummy_hand = universal_information.dummy_hand;
        let dummy_len = dummy_hand.len();
        let dummy_hand_missing: u32 = 0;
        let (before_declarer_hand, before_declarer_missing) = match info {
            BridgeInfoSet::BeforeDeclarer(i) => (i.before_hand, 0),
            _ => (Hand::default(), dummy_len),
        };
        let (after_declarer_hand, after_declarer_missing) = match info {
            BridgeInfoSet::AfterDeclarer(i) => (i.after_hand, 0),
            _ => (Hand::default(), dummy_len),
        };
        let (declarer_hand, declarer_hand_missing) = match info {
            BridgeInfoSet::Dummy(i) => (i.declarer_hand, 0),
            BridgeInfoSet::Declarer(i) => (i.declarer_hand, 0),
            _ => (Hand::default(), dummy_len),
        };
        let missing_cards = Hand::full().minus(dummy_hand).minus(before_declarer_hand).minus(
            declarer_hand,
        ).minus(after_declarer_hand).minus(played);
        let pool = missing_cards.cards();
        proof {
            let seen = seen_hand(*info);
            let full = Hand::spec_full();
            hand::lemma_count_cards(dummy_hand.bitset, 64);
            hand::lemma_count_below(missing_cards.bitset, 52);
            hand::lemma_count_below(dummy_hand.bitset, 52);
            // taking out a hand that holds nothing takes out nothing
            hand::lemma_minus_nothing(full.spec_minus(dummy_hand).bitset);
            hand::lemma_minus_nothing(full.spec_minus(dummy_hand).spec_minus(seen).bitset);
            hand::lemma_minus_nothing(
                full.spec_minus(dummy_hand).spec_minus(
                    before_declarer_hand,
                ).spec_minus(declarer_hand).bitset,
            );
            hand::lemma_minus_nothing(
                full.spec_minus(dummy_hand).spec_minus(before_declarer_hand).bitset,
            );
            assert(missing_cards == unseen_cards(*info));
            // the hands have no card in common
            hand::lemma_empty_disjoint(played.bitset);
            hand::lemma_empty_disjoint(dummy_hand.bitset);
            hand::lemma_empty_disjoint(seen.bitset);
            hand::lemma_empty_disjoint(0);
            hand::lemma_disjoint_symmetric(dummy_hand.bitset, played.bitset);
            hand::lemma_disjoint_symmetric(seen.bitset, played.bitset);
            hand::lemma_disjoint_symmetric(seen.bitset, dummy_hand.bitset);
            // the pool holds none of the cards of the hands
            assert forall|i: int| 0 <= i < pool@.len() implies {
                &&& (#[trigger] pool@[i]).wf()
                &&& !hand::bit_is_set(played.bitset, pool@[i].n)
                &&& !hand::bit_is_set(dummy_hand.bitset, pool@[i].n)
                &&& !hand::bit_is_set(before_declarer_hand.bitset, pool@[i].n)
                &&& !hand::bit_is_set(declarer_hand.bitset, pool@[i].n)
                &&& !hand::bit_is_set(after_declarer_hand.bitset, pool@[i].n)
            } by {
                let n = pool@[i].n;
                assert(hand::bit_is_set(missing_cards.bitset, n));
                assert(missing_cards@.contains(n));
                assert(played@.contains(n) == hand::bit_is_set(played.bitset, n));
                assert(dummy_hand@.contains(n) == hand::bit_is_set(dummy_hand.bitset, n));
                assert(before_declarer_hand@.contains(n) == hand::bit_is_set(
                    before_declarer_hand.bitset,
                    n,
                ));
                assert(declarer_hand@.contains(n) == hand::bit_is_set(declarer_hand.bitset, n));
                assert(after_declarer_hand@.contains(n) == hand::bit_is_set(
                    after_declarer_hand.bitset,
                    n,
                ));
            }
        }
        let combos = count_combinations_of_picks(
            pool.len() as u32,
            dummy_hand_missing,
            after_declarer_missing,
            declarer_hand_missing,
        );
        Self {
            universal_information,
            turn_player,
            dummy_hand,
            dummy_missing: dummy_hand_missing,
            before_declarer_hand,
            before_declarer_missing,
            declarer_hand,
            declarer_missing: declarer_hand_missing,
            after_declarer_hand,
            after_declarer_missing,
            missing_cards: pool,
            combos,
        }
    }
}

impl GamestateSampler<BridgeInfoSet, BridgeGame> for BridgeGamestateSampler {
    open spec fn valid(&self) -> bool {
        self.wf()
    }

    open spec fn info(&self) -> BridgeInfoSet {
        self.spec_info()
    }

    open spec fn reports(&self, probability: Probability) -> bool {
        probability == self.spec_probability()
    }

    /// Deals the pool out to the hands that are not seen, every deal as
    /// likely as every other, and reports one over the number of deals.
    /// The sampler stays as it is.
    fn sample(&mut self) -> (drawn: (BridgeGame, Probability))
        ensures
            *final(self) == *old(self),
            drawn.1 == old(self).spec_probability(),
    {
        let prob: Probability = if self.combos > PROBABILITY_ONE as u128 {
            0
        } else {
            PROBABILITY_ONE / (self.combos as u64)
        };
        proof {
            let deals = self.deals();
            if deals > PROBABILITY_ONE {
                assert(PROBABILITY_ONE as int / deals == 0) by (nonlinear_arith)
                    requires
                        deals > PROBABILITY_ONE,
                ;
            }
        }
        let mut cards_to_pick: Vec<Card> = Vec::new();
        let mut i: usize = 0;
        while i < self.missing_cards.len()
            invariant
                i <= self.missing_cards@.len(),
                cards_to_pick@ == self.missing_cards@.subrange(0, i as int),
                *self == *old(self),
            decreases self.missing_cards@.len() - i,
        {
            cards_to_pick.push(self.missing_cards[i]);
            i += 1;
            proof {
                assert(self.missing_cards@.subrange(0, i as int) =~= self.missing_cards@.subrange(
                    0,
                    i - 1,
                ).push(self.missing_cards@[i - 1]));
            }
        }
        proof {
            assert(self.missing_cards@.subrange(0, self.missing_cards@.len() as int)
                =~= self.missing_cards@);
        }
        let played = self.universal_information.cards_played;
        let ghost pool0 = cards_to_pick@;
        let mut dummy_hand = self.dummy_hand;
        fill_hand(&mut cards_to_pick, &mut dummy_hand, self.dummy_missing);
        let ghost pool1 = cards_to_pick@;
        let mut before_declarer_hand = self.before_declarer_hand;
        fill_hand(&mut cards_to_pick, &mut before_declarer_hand, self.before_declarer_missing);
        let ghost pool2 = cards_to_pick@;
        proof {
            let b0 = self.before_declarer_hand;
            hand::lemma_disjoint_symmetric(b0.bitset, played.bitset);
            hand::lemma_disjoint_symmetric(b0.bitset, self.declarer_hand.bitset);
            hand::lemma_disjoint_symmetric(b0.bitset, self.after_declarer_hand.bitset);
            hand::lemma_disjoint_symmetric(b0.bitset, self.dummy_hand.bitset);
            lemma_fill_keeps_apart(b0, before_declarer_hand, played, pool1, pool2);
            lemma_fill_keeps_apart(b0, before_declarer_hand, self.dummy_hand, pool1, pool2);
            lemma_fill_keeps_apart(b0, before_declarer_hand, self.declarer_hand, pool1, pool2);
            lemma_fill_keeps_apart(b0, before_declarer_hand, self.after_declarer_hand, pool1, pool2);
        }
        let mut declarer_hand = self.declarer_hand;
        fill_hand(&mut cards_to_pick, &mut declarer_hand, self.declarer_missing);
        let ghost pool3 = cards_to_pick@;
        proof {
            let d0 = self.declarer_hand;
            hand::lemma_disjoint_symmetric(d0.bitset, played.bitset);
            hand::lemma_disjoint_symmetric(d0.bitset, self.after_declarer_hand.bitset);
            hand::lemma_disjoint_symmetric(d0.bitset, self.dummy_hand.bitset);
            hand::lemma_disjoint_symmetric(d0.bitset, before_declarer_hand.bitset);
            lemma_fill_keeps_apart(d0, declarer_hand, played, pool2, pool3);
            lemma_fill_keeps_apart(d0, declarer_hand, self.dummy_hand, pool2, pool3);
            lemma_fill_keeps_apart(d0, declarer_hand, before_declarer_hand, pool2, pool3);
            lemma_fill_keeps_apart(d0, declarer_hand, self.after_declarer_hand, pool2, pool3);
        }
        let mut after_declarer_hand = self.after_declarer_hand;
        fill_hand(&mut cards_to_pick, &mut after_declarer_hand, self.after_declarer_missing);
        let ghost pool4 = cards_to_pick@;
        proof {
            let a0 = self.after_declarer_hand;
            hand::lemma_disjoint_symmetric(a0.bitset, played.bitset);
            hand::lemma_disjoint_symmetric(a0.bitset, self.dummy_hand.bitset);
            hand::lemma_disjoint_symmetric(a0.bitset, before_declarer_hand.bitset);
            hand::lemma_disjoint_symmetric(a0.bitset, declarer_hand.bitset);
            lemma_fill_keeps_apart(a0, after_declarer_hand, played, pool3, pool4);
            lemma_fill_keeps_apart(a0, after_declarer_hand, self.dummy_hand, pool3, pool4);
            lemma_fill_keeps_apart(a0, after_declarer_hand, before_declarer_hand, pool3, pool4);
            lemma_fill_keeps_apart(a0, after_declarer_hand, declarer_hand, pool3, pool4);
        }
        let cards_played = PlayedCards::from_hand(&played);
        let gamestate = BridgeGame {
            contract: self.universal_information.contract,
            declarer_tricks: self.universal_information.declarer_tricks,
            defender_tricks: self.universal_information.defender_tricks,
            played_cards: cards_played.len(),
            turn_player: self.turn_player,
            cards_played,
            hand_of_cards_played: played,
            before_hand: before_declarer_hand,
            declarer_hand,
            after_hand: after_declarer_hand,
            dummy_hand,
        };
        proof {
            hand::lemma_disjoint_symmetric(dummy_hand.bitset, played.bitset);
            hand::lemma_disjoint_symmetric(dummy_hand.bitset, before_declarer_hand.bitset);
            hand::lemma_disjoint_symmetric(dummy_hand.bitset, declarer_hand.bitset);
            hand::lemma_disjoint_symmetric(dummy_hand.bitset, after_declarer_hand.bitset);
            hand::lemma_disjoint_symmetric(declarer_hand.bitset, before_declarer_hand.bitset);
            hand::lemma_disjoint_symmetric(after_declarer_hand.bitset, before_declarer_hand.bitset);
            hand::lemma_disjoint_symmetric(after_declarer_hand.bitset, declarer_hand.bitset);
            assert(gamestate.spec_lead() is None);
            assert(gamestate.spec_universal_information() == self.universal_information);
        }
        (gamestate, prob)
    }
}

} // verus!
