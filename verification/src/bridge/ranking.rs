//! Where cards come to rest when a hand is ranked with played cards out of
//! play, and when the ranking is undone.

use vstd::prelude::*;
use crate::bridge::hand;

verus! {

/// Whether place `j` is one of the sixty-four places and `played` picks it.
pub open spec fn picked(played: u64, j: int) -> bool {
    0 <= j < 64 && hand::bit_is_set(played, j as u8)
}

/// The place a card at place `c` goes up to: the highest place that can be
/// reached from `c` by going up through places picked by `played`.
pub open spec fn top(c: int, played: u64) -> int
    decreases 64 - c,
{
    if c < 0 || c >= 63 || !picked(played, c + 1) {
        c
    } else {
        top(c + 1, played)
    }
}

/// The place a card at place `r` comes down to: the highest place not
/// above `r` that `played` does not pick.
pub open spec fn bottom(r: int, played: u64) -> int
    decreases r,
{
    if r <= 0 || r >= 64 || !picked(played, r) {
        r
    } else {
        bottom(r - 1, played)
    }
}

/// The place of the card that began at `c` after `t` rounds of going up.
pub open spec fn risen(c: int, t: nat, played: u64) -> int
    decreases t,
{
    if t == 0 {
        c
    } else {
        let p = risen(c, (t - 1) as nat, played);
        if 0 <= p < 63 && picked(played, p + 1) {
            p + 1
        } else {
            p
        }
    }
}

/// The places between a card and the place it goes up to are all picked,
/// and the place above that is not.
pub proof fn lemma_top_run(c: int, played: u64)
    requires
        0 <= c < 64,
    ensures
        c <= top(c, played) < 64,
        forall|j: int| c < j <= top(c, played) ==> #[trigger] picked(played, j),
        top(c, played) < 63 ==> !picked(played, top(c, played) + 1),
    decreases 64 - c,
{
    if c < 63 && picked(played, c + 1) {
        lemma_top_run(c + 1, played);
    }
}

/// Coming down from anywhere in a run of picked places ends right below
/// the run.
pub proof fn lemma_bottom_of_run(c: int, r: int, played: u64)
    requires
        0 <= c <= r < 64,
        !picked(played, c),
        forall|j: int| c < j <= r ==> #[trigger] picked(played, j),
    ensures
        bottom(r, played) == c,
    decreases r - c,
{
    if r > c {
        assert(picked(played, r));
        lemma_bottom_of_run(c, r - 1, played);
    }
}

/// A card that goes up from a place not picked comes back down to it.
pub proof fn lemma_bottom_of_top(c: int, played: u64)
    requires
        0 <= c < 64,
        !picked(played, c),
    ensures
        bottom(top(c, played), played) == c,
{
    lemma_top_run(c, played);
    lemma_bottom_of_run(c, top(c, played), played);
}

/// A card on its way up is between where it began and where it goes, and
/// goes where it went from the beginning.
pub proof fn lemma_risen_in_run(c: int, t: nat, played: u64)
    requires
        0 <= c < 64,
    ensures
        c <= risen(c, t, played) <= top(c, played),
        top(risen(c, t, played), played) == top(c, played),
        risen(c, t, played) < c + t || risen(c, t, played) == c + t,
        risen(c, t, played) < c + t ==> risen(c, t, played) == top(c, played),
    decreases t,
{
    lemma_top_run(c, played);
    if t > 0 {
        lemma_risen_in_run(c, (t - 1) as nat, played);
        let p = risen(c, (t - 1) as nat, played);
        lemma_top_run(p, played);
    }
}

/// A card does not go up past a place that is not picked: a card that
/// began below such a place stays below it.
pub proof fn lemma_risen_below(c1: int, c2: int, t: nat, played: u64)
    requires
        0 <= c1 < c2 < 64,
        !picked(played, c2),
    ensures
        risen(c1, t, played) < c2,
    decreases t,
{
    if t > 0 {
        lemma_risen_below(c1, c2, (t - 1) as nat, played);
    }
}

pub proof fn lemma_shifted_down(played: u64, n: u64)
    by (bit_vector)
    requires
        n < 63,
    ensures
        ((played >> 1) & (1u64 << n) != 0) == (played & (1u64 << ((n + 1) as u64)) != 0),
{
}

pub proof fn lemma_top_bit_shifted_down(played: u64)
    by (bit_vector)
    ensures
        (played >> 1) & (1u64 << 63) == 0,
{
}

pub proof fn lemma_shifted_up(x: u64, n: u64)
    by (bit_vector)
    requires
        1 <= n < 64,
    ensures
        ((x << 1) & (1u64 << n) != 0) == (x & (1u64 << ((n - 1) as u64)) != 0),
        (x << 1) & (1u64 << 0) == 0,
{
}

/// Where no bit that goes up meets a bit, adding the bits picked moves
/// each of them up one place.
pub proof fn lemma_sum_without_carry(res: u64, mask: u64)
    by (bit_vector)
    requires
        res & ((res & mask) << 1) == 0,
        res & mask & (1u64 << 63) == 0,
    ensures
        hand::wrapped_sum(res, res & mask) == (res & !(res & mask)) | ((res & mask) << 1),
{
}

/// Whether the bits of `res` are the places of the cards of `held` after
/// `t` rounds of going up.
pub open spec fn is_risen(res: u64, held: u64, t: nat, played: u64) -> bool {
    forall|n: u8|
        #![trigger hand::bit_is_set(res, n)]
        hand::bit_is_set(res, n) <==> exists|c: u8|
            hand::bit_is_set(held, c) && #[trigger] risen(c as int, t, played) == n
}

/// Whether the bits of `res` are the places the cards of `held` go up to.
pub open spec fn is_ranked(res: u64, held: u64, played: u64) -> bool {
    forall|n: u8|
        #![trigger hand::bit_is_set(res, n)]
        hand::bit_is_set(res, n) <==> exists|c: u8|
            hand::bit_is_set(held, c) && #[trigger] top(c as int, played) == n
}

/// One round of going up: the cards that have a picked place right above
/// them go up, all at once, and none meets another.
pub proof fn lemma_round(res: u64, held: u64, t: nat, played: u64)
    requires
        is_risen(res, held, t, played),
        held & played == 0,
        played & (1u64 << 63) == 0,
    ensures
        is_risen(hand::wrapped_sum(res, res & (played >> 1)), held, t + 1, played),
        res & (played >> 1) == 0 ==> is_ranked(res, held, played),
{
    let mask = played >> 1;
    let x = res & mask;
    let up = x << 1;
    // a card goes up exactly where the place above it is picked
    assert forall|n: u8| n < 64 implies hand::bit_is_set(x, n) == (hand::bit_is_set(res, n) && n
        < 63 && hand::bit_is_set(played, (n + 1) as u8)) by {
        hand::lemma_and_bits(res, mask, n as u64);
        if n < 63 {
            lemma_shifted_down(played, n as u64);
        } else {
            lemma_top_bit_shifted_down(played);
        }
    }
    // no card that goes up meets a card
    if res & up != 0 {
        hand::lemma_some_bit(res & up);
        hand::lemma_bit_named(res & up);
        let n = choose|n: u8| hand::bit_is_set(res & up, n);
        hand::lemma_and_bits(res, up, n as u64);
        assert(hand::bit_is_set(res, n) && hand::bit_is_set(up, n));
        if n >= 1 {
            lemma_shifted_up(x, n as u64);
            let below = (n - 1) as u8;
            assert(hand::bit_is_set(x, below));
            assert(hand::bit_is_set(res, below));
            assert(hand::bit_is_set(played, n));
            let c2 = choose|c: u8|
                hand::bit_is_set(held, c) && #[trigger] risen(c as int, t, played) == n;
            let c1 = choose|c: u8|
                hand::bit_is_set(held, c) && #[trigger] risen(c as int, t, played) == below;
            hand::lemma_cards_of_disjoint(held, played, c1);
            hand::lemma_cards_of_disjoint(held, played, c2);
            lemma_risen_in_run(c1 as int, t, played);
            lemma_risen_in_run(c2 as int, t, played);
            if c1 < c2 {
                lemma_risen_below(c1 as int, c2 as int, t, played);
            } else if c2 < c1 {
                lemma_risen_below(c2 as int, c1 as int, t, played);
            }
            assert(false);
        } else {
            lemma_shifted_up(x, 1);
            assert(false);
        }
    }
    assert(x & (1u64 << 63) == 0) by {
        assert(!hand::bit_is_set(x, 63));
    }
    lemma_sum_without_carry(res, mask);
    let next = hand::wrapped_sum(res, x);
    assert(next == (res & !x) | up);
    assert forall|n: u8|
        #![trigger hand::bit_is_set(next, n)]
        hand::bit_is_set(next, n) <==> exists|c: u8|
            hand::bit_is_set(held, c) && #[trigger] risen(c as int, t + 1, played) == n by {
        if n < 64 {
            hand::lemma_or_bits(res & !x, up, n as u64);
            hand::lemma_and_not_bits(res, x, n as u64);
            if n >= 1 {
                lemma_shifted_up(x, n as u64);
            } else {
                lemma_shifted_up(x, 1);
            }
            let stays = hand::bit_is_set(res, n) && !hand::bit_is_set(x, n);
            let arrives = n >= 1 && hand::bit_is_set(x, (n - 1) as u8);
            assert(hand::bit_is_set(next, n) == (stays || arrives));
            if stays {
                let c = choose|c: u8|
                    hand::bit_is_set(held, c) && #[trigger] risen(c as int, t, played) == n;
                assert(risen(c as int, t + 1, played) == n);
            }
            if arrives {
                let below = (n - 1) as u8;
                assert(hand::bit_is_set(res, below));
                let c = choose|c: u8|
                    hand::bit_is_set(held, c) && #[trigger] risen(c as int, t, played) == below;
                assert(risen(c as int, t + 1, played) == n);
            }
            if exists|c: u8|
                hand::bit_is_set(held, c) && #[trigger] risen(c as int, t + 1, played) == n {
                let c = choose|c: u8|
                    hand::bit_is_set(held, c) && #[trigger] risen(c as int, t + 1, played) == n;
                let p = risen(c as int, t, played);
                lemma_risen_in_run(c as int, t, played);
                assert(0 <= p < 64);
                assert(hand::bit_is_set(res, p as u8));
                if p == n {
                    assert(stays);
                } else {
                    assert(p == n - 1);
                    assert(arrives);
                }
            }
        } else {
            if exists|c: u8|
                hand::bit_is_set(held, c) && #[trigger] risen(c as int, t + 1, played) == n {
                let c = choose|c: u8|
                    hand::bit_is_set(held, c) && #[trigger] risen(c as int, t + 1, played) == n;
                lemma_risen_in_run(c as int, t + 1, played);
                lemma_top_run(c as int, played);
            }
        }
    }
    if res & mask == 0 {
        assert forall|n: u8|
            #![trigger hand::bit_is_set(res, n)]
            hand::bit_is_set(res, n) <==> exists|c: u8|
                hand::bit_is_set(held, c) && #[trigger] top(c as int, played) == n by {
            assert forall|c: u8| hand::bit_is_set(held, c) implies #[trigger] top(c as int, played)
                == risen(c as int, t, played) by {
                let p = risen(c as int, t, played);
                lemma_risen_in_run(c as int, t, played);
                lemma_top_run(c as int, played);
                assert(0 <= p < 64);
                let pn = p as u8;
                assert(hand::bit_is_set(res, pn));
                assert(!hand::bit_is_set(x, pn)) by {
                    let k = pn as u64;
                    assert(0u64 & (1u64 << k) == 0) by (bit_vector);
                }
                assert(hand::bit_is_set(x, pn) == (hand::bit_is_set(res, pn) && pn < 63
                    && hand::bit_is_set(played, (pn + 1) as u8)));
                lemma_top_run(p, played);
            }
            if hand::bit_is_set(res, n) {
                let c = choose|c: u8|
                    hand::bit_is_set(held, c) && #[trigger] risen(c as int, t, played) == n;
                assert(top(c as int, played) == n);
            }
            if exists|c: u8| hand::bit_is_set(held, c) && #[trigger] top(c as int, played) == n {
                let c = choose|c: u8| hand::bit_is_set(held, c) && #[trigger] top(c as int, played) == n;
                assert(risen(c as int, t, played) == n);
            }
        }
    }
}

/// Going up round after round ends with every card where it goes.
pub proof fn lemma_climbed_is_ranked(res: u64, held: u64, t: nat, played: u64)
    requires
        is_risen(res, held, t, played),
        held & played == 0,
        played & (1u64 << 63) == 0,
    ensures
        is_ranked(hand::climbed(res, played >> 1), held, played),
    decreases hand::mirrored(res),
{
    let mask = played >> 1;
    lemma_round(res, held, t, played);
    if res & mask != 0 {
        hand::lemma_climb_decreases(res, mask);
        lemma_climbed_is_ranked(hand::wrapped_sum(res, res & mask), held, t + 1, played);
    }
}

/// A hand ranked with cards out of play that it holds none of: every card
/// is at the place it goes up to.
pub proof fn lemma_reduce_ranks(held: u64, played: u64)
    requires
        held & played == 0,
        played & (1u64 << 63) == 0,
    ensures
        is_ranked(hand::climbed(held, played >> 1), held, played),
{
    assert(is_risen(held, held, 0, played)) by {
        assert forall|n: u8|
            #![trigger hand::bit_is_set(held, n)]
            hand::bit_is_set(held, n) <==> exists|c: u8|
                hand::bit_is_set(held, c) && #[trigger] risen(c as int, 0, played) == n by {
            if hand::bit_is_set(held, n) {
                assert(risen(n as int, 0, played) == n);
            }
        }
    }
    lemma_climbed_is_ranked(held, held, 0, played);
}

pub proof fn lemma_single_step_down(r: u64, played: u64)
    by (bit_vector)
    requires
        1 <= r < 64,
        played & (1u64 << r) != 0,
    ensures
        (((1u64 << r) & played) >> 1) & !(1u64 << r) == 1u64 << ((r - 1) as u64),
        (1u64 << r) - (1u64 << ((r - 1) as u64)) == 1u64 << ((r - 1) as u64),
        (1u64 << r) & played != 0,
        1u64 << ((r - 1) as u64) != 0,
{
}

pub proof fn lemma_single_stays(r: u64, played: u64)
    by (bit_vector)
    requires
        r < 64,
        played & (1u64 << r) == 0 || r == 0,
    ensures
        (1u64 << r) & played == 0 || (((1u64 << r) & played) >> 1) & !(1u64 << r) == 0,
{
}

/// A card alone comes down to the highest place at or below it that is
/// not picked.
pub proof fn lemma_single_card_sinks(r: u8, played: u64)
    requires
        r < 64,
    ensures
        hand::sunk(1u64 << (r as u64), played) == 1u64 << (bottom(r as int, played) as u64),
    decreases r,
{
    let res = 1u64 << (r as u64);
    if r >= 1 && hand::bit_is_set(played, r) {
        lemma_single_step_down(r as u64, played);
        hand::lemma_sink_decreases(res, played);
        lemma_single_card_sinks((r - 1) as u8, played);
    } else {
        lemma_single_stays(r as u64, played);
    }
}

pub proof fn lemma_low_bits_only(bits: u64)
    by (bit_vector)
    requires
        bits & (1u64 << 52u64) == 0,
        bits & (1u64 << 53u64) == 0,
        bits & (1u64 << 54u64) == 0,
        bits & (1u64 << 55u64) == 0,
        bits & (1u64 << 56u64) == 0,
        bits & (1u64 << 57u64) == 0,
        bits & (1u64 << 58u64) == 0,
        bits & (1u64 << 59u64) == 0,
        bits & (1u64 << 60u64) == 0,
        bits & (1u64 << 61u64) == 0,
        bits & (1u64 << 62u64) == 0,
        bits & (1u64 << 63u64) == 0,
    ensures
        bits < 0x10_0000_0000_0000u64,
{
}

/// A hand of cards ranked with cards out of play is a hand of cards.
pub proof fn lemma_ranked_is_hand(res: u64, held: u64, played: u64)
    requires
        is_ranked(res, held, played),
        held < 0x10_0000_0000_0000u64,
        played < 0x10_0000_0000_0000u64,
    ensures
        res < 0x10_0000_0000_0000u64,
{
    assert forall|n: u8| 52 <= n < 64 implies !hand::bit_is_set(res, n) by {
        if hand::bit_is_set(res, n) {
            let c = choose|c: u8| hand::bit_is_set(held, c) && #[trigger] top(c as int, played) == n;
            if c >= 52 {
                hand::lemma_no_high_bits(held, c as u64);
            }
            lemma_top_run(c as int, played);
            assert(picked(played, n as int));
            hand::lemma_no_high_bits(played, n as u64);
        }
    }
    assert(!hand::bit_is_set(res, 52u8));
    assert(!hand::bit_is_set(res, 53u8));
    assert(!hand::bit_is_set(res, 54u8));
    assert(!hand::bit_is_set(res, 55u8));
    assert(!hand::bit_is_set(res, 56u8));
    assert(!hand::bit_is_set(res, 57u8));
    assert(!hand::bit_is_set(res, 58u8));
    assert(!hand::bit_is_set(res, 59u8));
    assert(!hand::bit_is_set(res, 60u8));
    assert(!hand::bit_is_set(res, 61u8));
    assert(!hand::bit_is_set(res, 62u8));
    assert(!hand::bit_is_set(res, 63u8));
    lemma_low_bits_only(res);
}

/// The place of the card that has come down from `r` for `t` rounds: in
/// each round it goes down one place where it is at a picked place.
pub open spec fn fallen(r: int, t: nat, played: u64) -> int
    decreases t,
{
    if t == 0 {
        r
    } else {
        let p = fallen(r, (t - 1) as nat, played);
        if 1 <= p < 64 && picked(played, p) {
            p - 1
        } else {
            p
        }
    }
}

/// A card on its way back down is between where it began and where it
/// went up to, and it is at a picked place as long as it is above where
/// it began.
pub proof fn lemma_fallen_in_run(c: int, t: nat, played: u64)
    requires
        0 <= c < 64,
        !picked(played, c),
    ensures
        c <= fallen(top(c, played), t, played) <= top(c, played),
        picked(played, fallen(top(c, played), t, played)) <==> fallen(top(c, played), t, played)
            > c,
    decreases t,
{
    lemma_top_run(c, played);
    if t > 0 {
        lemma_fallen_in_run(c, (t - 1) as nat, played);
    }
    let p = fallen(top(c, played), t, played);
    if p > c {
        assert(picked(played, p));
    }
}

/// Two cards that began at different places are at different places on
/// their way back down, and neither is right below the other where the
/// upper one is at a picked place.
pub proof fn lemma_fallen_apart(c1: int, c2: int, t: nat, played: u64)
    requires
        0 <= c1 < 64,
        0 <= c2 < 64,
        c1 != c2,
        !picked(played, c1),
        !picked(played, c2),
    ensures
        fallen(top(c1, played), t, played) != fallen(top(c2, played), t, played),
        picked(played, fallen(top(c1, played), t, played)) ==> fallen(top(c2, played), t, played)
            != fallen(top(c1, played), t, played) - 1,
{
    lemma_fallen_in_run(c1, t, played);
    lemma_fallen_in_run(c2, t, played);
    lemma_top_run(c1, played);
    lemma_top_run(c2, played);
    if c1 < c2 {
        // the second card began at a place not picked, above the first
        if top(c1, played) >= c2 {
            assert(picked(played, c2));
        }
    } else {
        if top(c2, played) >= c1 {
            assert(picked(played, c1));
        }
    }
}

pub proof fn lemma_difference_without_borrow(res: u64, mask: u64)
    by (bit_vector)
    requires
        ((res & mask) >> 1) & res == 0,
        (res & mask) & 1 == 0,
    ensures
        ((res & mask) >> 1) & !res == (res & mask) >> 1,
        res - ((res & mask) >> 1) == (res & !(res & mask)) | ((res & mask) >> 1),
        res >= (res & mask) >> 1,
{
}

/// Whether the bits of `res` are the places of the cards of `held` that
/// went up and have come down again for `t` rounds.
pub open spec fn is_fallen(res: u64, held: u64, t: nat, played: u64) -> bool {
    forall|n: u8|
        #![trigger hand::bit_is_set(res, n)]
        hand::bit_is_set(res, n) <==> exists|c: u8|
            hand::bit_is_set(held, c) && #[trigger] fallen(top(c as int, played), t, played) == n
}

/// One round of coming down: the cards at picked places go down, all at
/// once, each to a place that is free. Where no card is at a picked
/// place, all are back where they began.
pub proof fn lemma_round_down(res: u64, held: u64, t: nat, played: u64)
    requires
        is_fallen(res, held, t, played),
        held & played == 0,
    ensures
        res & played != 0 ==> ((res & played) >> 1) & !res != 0,
        res >= ((res & played) >> 1) & !res,
        is_fallen((res - (((res & played) >> 1) & !res)) as u64, held, (t + 1) as nat, played),
        res & played == 0 ==> res == held,
{
    let x = res & played;
    let down = x >> 1;
    // a card goes down exactly where it is at a picked place
    assert forall|n: u8| n < 64 implies hand::bit_is_set(x, n) == (hand::bit_is_set(res, n)
        && hand::bit_is_set(played, n)) by {
        hand::lemma_and_bits(res, played, n as u64);
    }
    assert forall|n: u8| n < 64 implies hand::bit_is_set(down, n) == (n < 63 && hand::bit_is_set(
        x,
        (n + 1) as u8,
    )) by {
        if n < 63 {
            lemma_shifted_down(x, n as u64);
        } else {
            lemma_top_bit_shifted_down(x);
        }
    }
    // the place below a card that goes down is free, and no card goes down from the lowest place
    assert forall|n: u8| !(hand::bit_is_set(down, n) && hand::bit_is_set(res, n)) by {
        if n < 63 && hand::bit_is_set(down, n) && hand::bit_is_set(res, n) {
            let above = (n + 1) as u8;
            let c1 = choose|c: u8|
                hand::bit_is_set(held, c) && #[trigger] fallen(top(c as int, played), t, played)
                    == above;
            let c2 = choose|c: u8|
                hand::bit_is_set(held, c) && #[trigger] fallen(top(c as int, played), t, played)
                    == n;
            hand::lemma_cards_of_disjoint(held, played, c1);
            hand::lemma_cards_of_disjoint(held, played, c2);
            lemma_fallen_apart(c1 as int, c2 as int, t, played);
        }
    }
    hand::lemma_disjoint_by_cards(down, res);
    assert(!hand::bit_is_set(x, 0)) by {
        if hand::bit_is_set(x, 0) {
            let c = choose|c: u8|
                hand::bit_is_set(held, c) && #[trigger] fallen(top(c as int, played), t, played)
                    == 0;
            hand::lemma_cards_of_disjoint(held, played, c);
            lemma_fallen_in_run(c as int, t, played);
        }
    }
    assert(x & 1 == 0) by {
        assert(x & (1u64 << 0u64) == 0);
        assert(1u64 << 0u64 == 1) by (bit_vector);
    }
    lemma_difference_without_borrow(res, played);
    let step = down & !res;
    assert(step == down);
    let next = (res - step) as u64;
    assert(next == (res & !x) | down);
    assert forall|n: u8|
        #![trigger hand::bit_is_set(next, n)]
        hand::bit_is_set(next, n) <==> exists|c: u8|
            hand::bit_is_set(held, c) && #[trigger] fallen(
                top(c as int, played),
                (t + 1) as nat,
                played,
            ) == n by {
        if n < 64 {
            hand::lemma_or_bits(res & !x, down, n as u64);
            hand::lemma_and_not_bits(res, x, n as u64);
            if n < 63 {
                lemma_shifted_down(x, n as u64);
            } else {
                lemma_top_bit_shifted_down(x);
            }
            let stays = hand::bit_is_set(res, n) && !hand::bit_is_set(x, n);
            let arrives = n < 63 && hand::bit_is_set(x, (n + 1) as u8);
            assert(hand::bit_is_set(next, n) == (stays || arrives));
            if stays {
                let c = choose|c: u8|
                    hand::bit_is_set(held, c) && #[trigger] fallen(top(c as int, played), t, played)
                        == n;
                assert(fallen(top(c as int, played), (t + 1) as nat, played) == n);
            }
            if arrives {
                let above = (n + 1) as u8;
                let c = choose|c: u8|
                    hand::bit_is_set(held, c) && #[trigger] fallen(top(c as int, played), t, played)
                        == above;
                assert(fallen(top(c as int, played), (t + 1) as nat, played) == n);
            }
            if exists|c: u8|
                hand::bit_is_set(held, c) && #[trigger] fallen(
                    top(c as int, played),
                    (t + 1) as nat,
                    played,
                ) == n {
                let c = choose|c: u8|
                    hand::bit_is_set(held, c) && #[trigger] fallen(
                        top(c as int, played),
                        (t + 1) as nat,
                        played,
                    ) == n;
                let p = fallen(top(c as int, played), t, played);
                hand::lemma_cards_of_disjoint(held, played, c);
                lemma_fallen_in_run(c as int, t, played);
                lemma_top_run(c as int, played);
                assert(0 <= p < 64);
                assert(hand::bit_is_set(res, p as u8));
                if p == n {
                    assert(stays);
                } else {
                    assert(p == n + 1);
                    assert(arrives);
                }
            }
        } else {
            if exists|c: u8|
                hand::bit_is_set(held, c) && #[trigger] fallen(
                    top(c as int, played),
                    (t + 1) as nat,
                    played,
                ) == n {
                let c = choose|c: u8|
                    hand::bit_is_set(held, c) && #[trigger] fallen(
                        top(c as int, played),
                        (t + 1) as nat,
                        played,
                    ) == n;
                hand::lemma_cards_of_disjoint(held, played, c);
                lemma_fallen_in_run(c as int, (t + 1) as nat, played);
                lemma_top_run(c as int, played);
            }
        }
    }
    if x != 0 {
        hand::lemma_some_bit(x);
        hand::lemma_bit_named(x);
        let n = choose|n: u8| hand::bit_is_set(x, n);
        assert(n >= 1);
        let below = (n - 1) as u8;
        assert(hand::bit_is_set(down, below));
        assert(down != 0) by {
            let k = below as u64;
            assert(0u64 & (1u64 << k) == 0) by (bit_vector);
        }
    } else {
        assert forall|n: u8| n < 64 implies hand::bit_is_set(res, n) == hand::bit_is_set(held, n) by {
            if hand::bit_is_set(res, n) {
                let c = choose|c: u8|
                    hand::bit_is_set(held, c) && #[trigger] fallen(top(c as int, played), t, played)
                        == n;
                hand::lemma_cards_of_disjoint(held, played, c);
                lemma_fallen_in_run(c as int, t, played);
                assert(!hand::bit_is_set(x, n)) by {
                    let k = n as u64;
                    assert(0u64 & (1u64 << k) == 0) by (bit_vector);
                }
            }
            if hand::bit_is_set(held, n) {
                hand::lemma_cards_of_disjoint(held, played, n);
                lemma_fallen_in_run(n as int, t, played);
                let p = fallen(top(n as int, played), t, played);
                lemma_top_run(n as int, played);
                assert(hand::bit_is_set(res, p as u8));
                assert(!hand::bit_is_set(x, p as u8)) by {
                    let k = p as u64;
                    assert(0u64 & (1u64 << k) == 0) by (bit_vector);
                }
            }
        }
        hand::lemma_same_bits(res, held);
    }
}

/// Coming down round after round ends with every card where it began.
pub proof fn lemma_sunk_is_held(res: u64, held: u64, t: nat, played: u64)
    requires
        is_fallen(res, held, t, played),
        held & played == 0,
    ensures
        hand::sunk(res, played) == held,
    decreases res,
{
    lemma_round_down(res, held, t, played);
    if res & played != 0 {
        hand::lemma_sink_decreases(res, played);
        lemma_sunk_is_held(
            (res - (((res & played) >> 1) & !res)) as u64,
            held,
            (t + 1) as nat,
            played,
        );
    }
}

/// Ranking a hand that holds none of the cards out of play, and undoing
/// it, gives the hand back.
pub proof fn lemma_sinking_undoes_climbing(held: u64, played: u64)
    requires
        held & played == 0,
        played & (1u64 << 63) == 0,
    ensures
        hand::sunk(hand::climbed(held, played >> 1), played) == held,
{
    let res = hand::climbed(held, played >> 1);
    lemma_reduce_ranks(held, played);
    assert(is_fallen(res, held, 0, played)) by {
        assert forall|n: u8|
            #![trigger hand::bit_is_set(res, n)]
            hand::bit_is_set(res, n) <==> exists|c: u8|
                hand::bit_is_set(held, c) && #[trigger] fallen(top(c as int, played), 0, played)
                    == n by {
            if hand::bit_is_set(res, n) {
                let c = choose|c: u8| hand::bit_is_set(held, c) && #[trigger] top(c as int, played) == n;
                assert(fallen(top(c as int, played), 0, played) == n);
            }
            if exists|c: u8|
                hand::bit_is_set(held, c) && #[trigger] fallen(top(c as int, played), 0, played)
                    == n {
                let c = choose|c: u8|
                    hand::bit_is_set(held, c) && #[trigger] fallen(top(c as int, played), 0, played)
                        == n;
                assert(top(c as int, played) == n);
            }
        }
    }
    lemma_sunk_is_held(res, held, 0, played);
}

/// Whether a card of `held` began below place `k` and goes up to `k` or
/// beyond.
pub open spec fn on_the_way(held: u64, played: u64, k: int) -> bool {
    exists|c: u8|
        hand::bit_is_set(held, c) && (c as int) < k && k <= #[trigger] top(c as int, played)
}

/// A place lies between where a card began and where it goes up to for
/// one card at most.
pub proof fn lemma_one_card_in_a_run(c1: int, c2: int, k: int, played: u64)
    requires
        0 <= c1 < 64,
        0 <= c2 < 64,
        !picked(played, c1),
        !picked(played, c2),
        c1 <= k <= top(c1, played),
        c2 <= k <= top(c2, played),
    ensures
        c1 == c2,
{
    lemma_top_run(c1, played);
    lemma_top_run(c2, played);
    if c1 < c2 {
        assert(picked(played, c2));
    } else if c2 < c1 {
        assert(picked(played, c1));
    }
}

/// Below any place a ranked hand holds as many cards as the hand it was
/// ranked from, but for the card that is on its way past that place.
pub proof fn lemma_ranked_count_below(res: u64, held: u64, played: u64, k: int)
    requires
        is_ranked(res, held, played),
        held & played == 0,
        0 <= k <= 64,
    ensures
        hand::count_below(held, k) == hand::count_below(res, k) + (if on_the_way(held, played, k) {
            1nat
        } else {
            0nat
        }),
    decreases k,
{
    if k > 0 {
        let j = k - 1;
        let n = j as u8;
        lemma_ranked_count_below(res, held, played, j);
        lemma_top_run(j, played);
        let before = on_the_way(held, played, j);
        let after = on_the_way(held, played, k);
        let held_here = hand::bit_is_set(held, n);
        let ranked_here = hand::bit_is_set(res, n);
        // a card that began below and is ranked here, or goes on
        if ranked_here {
            let c = choose|c: u8| hand::bit_is_set(held, c) && #[trigger] top(c as int, played) == n;
            lemma_top_run(c as int, played);
            hand::lemma_cards_of_disjoint(held, played, c);
            if c != n {
                assert((c as int) < j && j <= top(c as int, played));
                assert(before);
            }
        }
        if after {
            let c = choose|c: u8|
                hand::bit_is_set(held, c) && (c as int) < k && k <= #[trigger] top(c as int, played);
            if c != n {
                assert((c as int) < j && j <= top(c as int, played));
                assert(before);
            }
        }
        if held_here {
            hand::lemma_cards_of_disjoint(held, played, n);
            if before {
                let c = choose|c: u8|
                    hand::bit_is_set(held, c) && (c as int) < j && j <= #[trigger] top(
                        c as int,
                        played,
                    );
                lemma_top_run(c as int, played);
                assert(picked(played, j));
            }
            if top(j, played) == j {
                assert(hand::bit_is_set(held, n) && top(n as int, played) == n);
                assert(ranked_here);
                if after {
                    let c = choose|c: u8|
                        hand::bit_is_set(held, c) && (c as int) < k && k <= #[trigger] top(
                            c as int,
                            played,
                        );
                    assert(c != n);
                }
            } else {
                assert((n as int) < k && k <= top(n as int, played));
                assert(after);
                if ranked_here {
                    let c = choose|c: u8|
                        hand::bit_is_set(held, c) && #[trigger] top(c as int, played) == n;
                    assert(c != n);
                }
            }
        } else {
            if before {
                let c = choose|c: u8|
                    hand::bit_is_set(held, c) && (c as int) < j && j <= #[trigger] top(
                        c as int,
                        played,
                    );
                hand::lemma_cards_of_disjoint(held, played, c);
                if top(c as int, played) == j {
                    assert(ranked_here);
                    if after {
                        let c2 = choose|c: u8|
                            hand::bit_is_set(held, c) && (c as int) < k && k <= #[trigger] top(
                                c as int,
                                played,
                            );
                        hand::lemma_cards_of_disjoint(held, played, c2);
                        lemma_one_card_in_a_run(c as int, c2 as int, j, played);
                    }
                } else {
                    assert((c as int) < k && k <= top(c as int, played));
                    assert(after);
                    if ranked_here {
                        let c2 = choose|c: u8|
                            hand::bit_is_set(held, c) && #[trigger] top(c as int, played) == n;
                        hand::lemma_cards_of_disjoint(held, played, c2);
                        lemma_top_run(c2 as int, played);
                        lemma_one_card_in_a_run(c as int, c2 as int, j, played);
                    }
                }
            }
        }
    } else {
        if on_the_way(held, played, k) {
            let c = choose|c: u8|
                hand::bit_is_set(held, c) && (c as int) < k && k <= #[trigger] top(c as int, played);
        }
    }
}

/// A ranked hand holds as many cards as the hand it was ranked from.
pub proof fn lemma_ranked_count(res: u64, held: u64, played: u64)
    requires
        is_ranked(res, held, played),
        held & played == 0,
    ensures
        hand::count_below(res, 64) == hand::count_below(held, 64),
{
    lemma_ranked_count_below(res, held, played, 64);
    if on_the_way(held, played, 64) {
        let c = choose|c: u8|
            hand::bit_is_set(held, c) && (c as int) < 64 && 64 <= #[trigger] top(c as int, played);
        lemma_top_run(c as int, played);
    }
}

} // verus!
