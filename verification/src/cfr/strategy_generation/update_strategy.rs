//! Regret matching: turning accumulated regret into the probabilities of
//! the next iteration.

use vstd::prelude::*;
use crate::cfr::game_model::{Probability, VisibleInfo, MAX_MOVES, PROBABILITY_ONE};
use crate::cfr::strategy_generation::workspace_data::data_for_infoset;
use crate::cfr::strategy_generation::workspace_data::data_for_infoset::{
    DataForInfoSet, InfoSetStatistics,
};
use crate::cfr::strategy_generation::workspace_data::data_for_known_infosets::DataForKnownInfosets;
use crate::cfr::strategy_generation::workspace_data::data_for_move::MAX_REGRET;
use crate::cfr::strategy_generation::workspace_data::move_data;
use crate::cfr::strategy_generation::workspace_data::move_data::MoveWithData;
use crate::cfr::strategy_generation::workspace_data::StrategyGenerationProgress;

verus! {

/// The cumulative regret of the first `k` of `moves`.
pub open spec fn regret_sum<INFO: VisibleInfo>(moves: Seq<MoveWithData<INFO>>, k: int) -> int
    decreases k,
{
    if k <= 0 {
        0
    } else {
        regret_sum(moves, k - 1) + moves[k - 1].d.cumulative_move_regret
    }
}

/// The probability regret matching gives a move with cumulative regret
/// `regret`, among `n_moves` moves whose regrets add up to `total`: its
/// share of the regret, and an even share where there is no regret at all.
pub open spec fn matched_probability(regret: int, total: int, n_moves: int) -> int {
    if total > 0 {
        regret * PROBABILITY_ONE / total
    } else {
        PROBABILITY_ONE as int / n_moves
    }
}

/// The entry `after` is the entry `before` with the probability of every
/// move recomputed from the regrets; nothing else has changed.
pub open spec fn entry_matched<INFO: VisibleInfo>(
    before: InfoSetStatistics<INFO>,
    after: InfoSetStatistics<INFO>,
) -> bool {
    let n = before.moves.len() as int;
    &&& after.turn_player == before.turn_player
    &&& after.terminal_utility == before.terminal_utility
    &&& after.counterfactual_n == before.counterfactual_n
    &&& after.cumulative_counterfactual == before.cumulative_counterfactual
    &&& after.counterfactual_for_current_iteration == before.counterfactual_for_current_iteration
    &&& after.global_updated_iteration == before.global_updated_iteration
    &&& after.moves.len() == n
    &&& forall|mi: int|
        0 <= mi < n ==> {
            &&& (#[trigger] after.moves[mi]).m == before.moves[mi].m
            &&& after.moves[mi].d.cumulative_move_regret == before.moves[mi].d.cumulative_move_regret
            &&& after.moves[mi].d.utility_after_move == before.moves[mi].d.utility_after_move
            &&& after.moves[mi].d.spec_probability(n) == matched_probability(
                before.moves[mi].d.cumulative_move_regret as int,
                regret_sum(before.moves, n),
                n,
            )
        }
}

/// The entry `after` is the entry `before`, with the probabilities of its
/// moves recomputed from the regrets or left as they were.
pub open spec fn entry_rematched<INFO: VisibleInfo>(
    before: InfoSetStatistics<INFO>,
    after: InfoSetStatistics<INFO>,
) -> bool {
    after == before || entry_matched(before, after)
}

/// Regrets within their bound add up to no more than the bound for each.
pub proof fn lemma_regret_sum_bound<INFO: VisibleInfo>(moves: Seq<MoveWithData<INFO>>, k: int)
    requires
        move_data::all_wf(moves),
        0 <= k <= moves.len(),
    ensures
        0 <= regret_sum(moves, k) <= k * MAX_REGRET,
    decreases k,
{
    if k > 0 {
        lemma_regret_sum_bound(moves, k - 1);
        assert(moves[k - 1].d.wf());
        assert(k * MAX_REGRET == (k - 1) * MAX_REGRET + MAX_REGRET) by (nonlinear_arith);
    } else {
        assert(k * MAX_REGRET == 0) by (nonlinear_arith)
            requires
                k == 0,
        ;
    }
}

/// The sum of regrets depends on the regrets alone.
pub proof fn lemma_regret_sum_same<INFO: VisibleInfo>(
    a: Seq<MoveWithData<INFO>>,
    b: Seq<MoveWithData<INFO>>,
    k: int,
)
    requires
        0 <= k <= a.len(),
        k <= b.len(),
        forall|mi: int|
            0 <= mi < k ==> (#[trigger] b[mi]).d.cumulative_move_regret
                == a[mi].d.cumulative_move_regret,
    ensures
        regret_sum(a, k) == regret_sum(b, k),
    decreases k,
{
    if k > 0 {
        lemma_regret_sum_same(a, b, k - 1);
        assert(b[k - 1].d.cumulative_move_regret == a[k - 1].d.cumulative_move_regret);
    }
}

/// A share of the regret is a probability.
pub proof fn lemma_matched_probability_bound(regret: int, total: int, n_moves: int)
    requires
        0 <= regret <= total,
        n_moves > 0,
    ensures
        0 <= matched_probability(regret, total, n_moves) <= PROBABILITY_ONE,
{
    let one = PROBABILITY_ONE as int;
    if total > 0 {
        assert(0 <= regret * one / total <= one) by (nonlinear_arith)
            requires
                0 <= regret <= total,
                total > 0,
                one >= 0,
        ;
    } else {
        assert(0 <= one / n_moves <= one) by (nonlinear_arith)
            requires
                n_moves > 0,
                one >= 0,
        ;
    }
}

/// Where the first `k` moves hold their matched probabilities, these add
/// up to the share of the first `k` regrets, short of it by less than `k`
/// billionths.
pub proof fn lemma_matched_sum<INFO: VisibleInfo>(
    before: Seq<MoveWithData<INFO>>,
    after: Seq<MoveWithData<INFO>>,
    total: int,
    k: int,
)
    requires
        after.len() == before.len(),
        0 <= k <= before.len(),
        total > 0,
        move_data::all_wf(before),
        forall|mi: int|
            0 <= mi < k ==> (#[trigger] after[mi]).d.spec_probability(before.len() as int)
                == matched_probability(
                before[mi].d.cumulative_move_regret as int,
                total,
                before.len() as int,
            ),
    ensures
        total * data_for_infoset::probability_sum(after, k) <= PROBABILITY_ONE * regret_sum(before, k),
        total * data_for_infoset::probability_sum(after, k) + k * (total - 1) >= PROBABILITY_ONE
            * regret_sum(before, k),
    decreases k,
{
    let one = PROBABILITY_ONE as int;
    if k > 0 {
        lemma_matched_sum(before, after, total, k - 1);
        let r = before[k - 1].d.cumulative_move_regret as int;
        let q = after[k - 1].d.spec_probability(before.len() as int);
        let s = data_for_infoset::probability_sum(after, k - 1);
        let rs = regret_sum(before, k - 1);
        assert(q == r * one / total);
        assert(q * total <= r * one < (q + 1) * total) by (nonlinear_arith)
            requires
                q == r * one / total,
                total > 0,
        ;
        assert(total * (s + q) == total * s + q * total) by (nonlinear_arith);
        assert(one * (rs + r) == one * rs + r * one) by (nonlinear_arith);
        assert(k * (total - 1) == (k - 1) * (total - 1) + (total - 1)) by (nonlinear_arith);
        assert((q + 1) * total == q * total + total) by (nonlinear_arith);
    } else {
        assert(total * 0 == 0 && one * 0 == 0 && k * (total - 1) == 0) by (nonlinear_arith)
            requires
                k == 0,
        ;
    }
}

/// Where every move holds the same probability `share`, the first `k`
/// probabilities add up to `k` shares.
pub proof fn lemma_uniform_sum<INFO: VisibleInfo>(
    moves: Seq<MoveWithData<INFO>>,
    share: int,
    k: int,
)
    requires
        0 <= k <= moves.len(),
        forall|mi: int|
            0 <= mi < k ==> (#[trigger] moves[mi]).d.spec_probability(moves.len() as int) == share,
    ensures
        data_for_infoset::probability_sum(moves, k) == k * share,
    decreases k,
{
    if k > 0 {
        lemma_uniform_sum(moves, share, k - 1);
        assert(k * share == (k - 1) * share + share) by (nonlinear_arith);
    } else {
        assert(k * share == 0) by (nonlinear_arith)
            requires
                k == 0,
        ;
    }
}

/// Matched probabilities add up to one, short of it by less than one
/// billionth for each move.
pub proof fn lemma_matched_total<INFO: VisibleInfo>(
    before: Seq<MoveWithData<INFO>>,
    after: Seq<MoveWithData<INFO>>,
)
    requires
        after.len() == before.len(),
        before.len() > 0,
        move_data::all_wf(before),
        forall|mi: int|
            0 <= mi < before.len() ==> (#[trigger] after[mi]).d.spec_probability(
                before.len() as int,
            ) == matched_probability(
                before[mi].d.cumulative_move_regret as int,
                regret_sum(before, before.len() as int),
                before.len() as int,
            ),
    ensures
        PROBABILITY_ONE - before.len() < data_for_infoset::probability_sum(
            after,
            after.len() as int,
        ) <= PROBABILITY_ONE,
{
    let n = before.len() as int;
    let total = regret_sum(before, n);
    let one = PROBABILITY_ONE as int;
    let s = data_for_infoset::probability_sum(after, n);
    lemma_regret_sum_bound(before, n);
    if total > 0 {
        lemma_matched_sum(before, after, total, n);
        assert(s <= one) by (nonlinear_arith)
            requires
                total * s <= one * total,
                total > 0,
        ;
        assert(s > one - n) by (nonlinear_arith)
            requires
                total * s + n * (total - 1) >= one * total,
                total > 0,
                n > 0,
        ;
    } else {
        lemma_uniform_sum(after, one / n, n);
        data_for_infoset::lemma_even_shares_total(n);
    }
}

/// Recomputes the probability of every move of `data` from the regrets:
/// each move gets its share of the cumulative regret, and all get an even
/// share where there is no regret.
pub fn update_strategy<INFO: VisibleInfo>(data: &mut DataForInfoSet<INFO>)
    requires
        old(data)@.wf(),
    ensures
        final(data)@.wf(),
        entry_matched(old(data)@, final(data)@),
{
    let ghost e0 = data@;
    let number_of_moves = data.move_data.len();
    if number_of_moves == 0 {
        return ;
    }
    let mut total_regret: u128 = 0;
    let mut i: usize = 0;
    while i < number_of_moves
        invariant
            i <= number_of_moves,
            number_of_moves == e0.moves.len(),
            number_of_moves <= MAX_MOVES,
            data@ == e0,
            e0.wf(),
            total_regret == regret_sum(e0.moves, i as int),
        decreases number_of_moves - i,
    {
        proof {
            lemma_regret_sum_bound(e0.moves, i as int);
            assert(e0.moves[i as int].d.wf());
            assert(i * MAX_REGRET <= 1000 * MAX_REGRET) by (nonlinear_arith)
                requires
                    i <= 1000,
            ;
        }
        total_regret = total_regret + data.move_data[i].d.regret();
        i += 1;
    }
    let mut mi: usize = 0;
    while mi < number_of_moves
        invariant
            mi <= number_of_moves,
            0 < number_of_moves <= MAX_MOVES,
            number_of_moves == e0.moves.len(),
            e0.wf(),
            total_regret == regret_sum(e0.moves, number_of_moves as int),
            (InfoSetStatistics { moves: e0.moves, ..data@ }) == e0,
            data@.moves.len() == number_of_moves,
            forall|mj: int|
                0 <= mj < mi ==> {
                    &&& (#[trigger] data@.moves[mj]).m == e0.moves[mj].m
                    &&& data@.moves[mj].d.wf()
                    &&& data@.moves[mj].d.cumulative_move_regret
                        == e0.moves[mj].d.cumulative_move_regret
                    &&& data@.moves[mj].d.utility_after_move == e0.moves[mj].d.utility_after_move
                    &&& data@.moves[mj].d.spec_probability(number_of_moves as int)
                        == matched_probability(
                        e0.moves[mj].d.cumulative_move_regret as int,
                        total_regret as int,
                        number_of_moves as int,
                    )
                },
            forall|mj: int| mi <= mj < number_of_moves ==> #[trigger] data@.moves[mj] == e0.moves[mj],
        decreases number_of_moves - mi,
    {
        let ghost current = data@;
        proof {
            assert(current.moves[mi as int] == e0.moves[mi as int]);
            assert(e0.moves[mi as int].d.wf());
            lemma_move_regret_within_total(e0.moves, mi as int);
        }
        let regret: u128 = data.move_data[mi].d.regret();
        let new_probability: Probability = if total_regret > 0 {
            proof {
                lemma_matched_probability_bound(
                    regret as int,
                    total_regret as int,
                    number_of_moves as int,
                );
                assert(regret * PROBABILITY_ONE <= MAX_REGRET * PROBABILITY_ONE) by (nonlinear_arith)
                    requires
                        regret <= MAX_REGRET,
                ;
            }
            (regret * (PROBABILITY_ONE as u128) / total_regret) as u64
        } else {
            PROBABILITY_ONE / (number_of_moves as u64)
        };
        proof {
            lemma_matched_probability_bound(
                regret as int,
                total_regret as int,
                number_of_moves as int,
            );
        }
        data.move_data[mi].d.write_move_probability(new_probability);
        proof {
            assert forall|mj: int| 0 <= mj < mi + 1 implies {
                &&& (#[trigger] data@.moves[mj]).m == e0.moves[mj].m
                &&& data@.moves[mj].d.wf()
                &&& data@.moves[mj].d.cumulative_move_regret == e0.moves[mj].d.cumulative_move_regret
                &&& data@.moves[mj].d.utility_after_move == e0.moves[mj].d.utility_after_move
                &&& data@.moves[mj].d.spec_probability(number_of_moves as int)
                    == matched_probability(
                    e0.moves[mj].d.cumulative_move_regret as int,
                    total_regret as int,
                    number_of_moves as int,
                )
            } by {
                if mj < mi {
                    assert(data@.moves[mj] == current.moves[mj]);
                }
            }
            assert forall|mj: int| mi + 1 <= mj < number_of_moves implies #[trigger] data@.moves[mj]
                == e0.moves[mj] by {
                assert(data@.moves[mj] == current.moves[mj]);
            }
        }
        mi += 1;
    }
    proof {
        let e1 = data@;
        lemma_matched_total(e0.moves, e1.moves);
        assert forall|mj: int| 0 <= mj < e1.moves.len() implies (#[trigger] e1.moves[mj]).d.wf() by {}
    }
}

/// No move has more regret than all moves together.
pub proof fn lemma_move_regret_within_total<INFO: VisibleInfo>(
    moves: Seq<MoveWithData<INFO>>,
    mi: int,
)
    requires
        move_data::all_wf(moves),
        0 <= mi < moves.len(),
    ensures
        moves[mi].d.cumulative_move_regret <= regret_sum(moves, moves.len() as int),
{
    lemma_regret_sum_tail(moves, mi + 1, moves.len() as int);
    lemma_regret_sum_bound(moves, mi);
}

/// The regrets of the first `k` moves add up to no more than those of the
/// first `n`.
pub proof fn lemma_regret_sum_tail<INFO: VisibleInfo>(
    moves: Seq<MoveWithData<INFO>>,
    k: int,
    n: int,
)
    requires
        move_data::all_wf(moves),
        0 <= k <= n <= moves.len(),
    ensures
        regret_sum(moves, k) <= regret_sum(moves, n),
    decreases n - k,
{
    if k < n {
        lemma_regret_sum_tail(moves, k, n - 1);
    }
}

/// The strategy update of one iteration: recomputes by regret matching
/// the probabilities of every entry that waits in the queue, and leaves
/// the queue empty. Entries that do not wait keep their probabilities.
pub fn update_strategy_from_regret<INFO: VisibleInfo>(
    progress: &mut StrategyGenerationProgress<INFO>,
)
    requires
        old(progress).wf(),
        forall|k: int|
            0 <= k < old(progress).dirty().len() ==> #[trigger] old(progress).dirty()[k] < old(progress).len(),
    ensures
        final(progress).wf(),
        final(progress).dirty().len() == 0,
        final(progress).len() == old(progress).len(),
        final(progress).len() <= usize::MAX,
        final(progress).data_for_known_infosets.index() == old(progress).data_for_known_infosets.index(),
        forall|i: usize|
            i < old(progress).len() ==> (if old(progress).dirty().contains(i) {
                entry_matched(
                    old(progress).data_for_known_infosets.entry(i as int),
                    #[trigger] final(progress).data_for_known_infosets.entry(i as int),
                )
            } else {
                final(progress).data_for_known_infosets.entry(i as int) == old(progress).data_for_known_infosets.entry(i as int)
            }),
        forall|i: int|
            0 <= i < old(progress).len() ==> entry_rematched(
                old(progress).data_for_known_infosets.entry(i),
                #[trigger] final(progress).data_for_known_infosets.entry(i),
            ),
{
    let ghost start = progress.data_for_known_infosets;
    let ghost queue = progress.dirty();
    let ghost mut done: int = 0;
    loop
        invariant
            progress.wf(),
            start.wf(),
            0 <= done <= queue.len(),
            progress.dirty() == queue.subrange(done, queue.len() as int),
            forall|k: int| 0 <= k < queue.len() ==> #[trigger] queue[k] < start.len(),
            progress.len() == start.len(),
            progress.data_for_known_infosets.index() == start.index(),
            forall|i: usize|
                i < start.len() ==> (if queue.subrange(0, done).contains(i) {
                    entry_matched(
                        start.entry(i as int),
                        #[trigger] progress.data_for_known_infosets.entry(i as int),
                    )
                } else {
                    progress.data_for_known_infosets.entry(i as int) == start.entry(i as int)
                }),
        ensures
            done == queue.len(),
            progress.dirty().len() == 0,
        decreases queue.len() - done,
    {
        let ghost store_k = progress.data_for_known_infosets;
        let head = progress.pop_updated_infoset();
        match head {
            None => {
                break ;
            },
            Some(index) => {
                proof {
                    assert(index == queue[done]);
                    assert(store_k.entry(index as int).wf());
                }
                update_strategy(&mut progress.data_for_known_infosets.arena[index]);
                proof {
                    let store_n = progress.data_for_known_infosets;
                    let e_k = store_k.entry(index as int);
                    let e_n = store_n.entry(index as int);
                    assert forall|i: int| 0 <= i < start.len() && i
                        != index implies #[trigger] store_n.entry(i) == store_k.entry(i) by {
                        assert(store_n.arena@[i] == store_k.arena@[i]);
                    }
                    assert(move_data::moves_of(e_n.moves) =~= move_data::moves_of(e_k.moves));
                    lemma_store_wf_after_matching(&store_k, &store_n, index as int);
                    assert(queue.subrange(0, done + 1) =~= queue.subrange(0, done).push(index));
                    assert(queue.subrange(done, queue.len() as int).subrange(
                        1,
                        queue.len() - done,
                    ) =~= queue.subrange(done + 1, queue.len() as int));
                    assert forall|i: usize| i < start.len() implies (if queue.subrange(
                        0,
                        done + 1,
                    ).contains(i) {
                        entry_matched(start.entry(i as int), #[trigger] store_n.entry(i as int))
                    } else {
                        store_n.entry(i as int) == start.entry(i as int)
                    }) by {
                        let earlier = queue.subrange(0, done);
                        let now = queue.subrange(0, done + 1);
                        if i == index {
                            assert(now[done] == index);
                            assert(now.contains(i));
                            lemma_matched_again(
                                start.entry(i as int),
                                e_k,
                                e_n,
                                earlier.contains(i),
                            );
                        } else {
                            assert(store_n.entry(i as int) == store_k.entry(i as int));
                            if now.contains(i) {
                                let w = choose|w: int| 0 <= w < now.len() && now[w] == i;
                                assert(w != done);
                                assert(earlier[w] == i);
                            }
                            if earlier.contains(i) {
                                let w = choose|w: int| 0 <= w < earlier.len() && earlier[w] == i;
                                assert(now[w] == i);
                            }
                        }
                    }
                    done = done + 1;
                }
            },
        }
    }
    let len = progress.data_for_known_infosets.arena.len();
    proof {
        assert(queue.subrange(0, queue.len() as int) =~= queue);
        let store_n = progress.data_for_known_infosets;
        assert forall|i: int| 0 <= i < start.len() implies entry_rematched(
            start.entry(i),
            #[trigger] store_n.entry(i),
        ) by {
            let iu: usize = i as usize;
            assert(iu as int == i);
            let e = store_n.entry(iu as int);
        }
    }
}

/// Matching an entry that was matched already gives the same entry as
/// matching it once: the regrets have not changed in between.
pub proof fn lemma_matched_again<INFO: VisibleInfo>(
    start: InfoSetStatistics<INFO>,
    middle: InfoSetStatistics<INFO>,
    after: InfoSetStatistics<INFO>,
    matched_before: bool,
)
    requires
        if matched_before {
            entry_matched(start, middle)
        } else {
            middle == start
        },
        entry_matched(middle, after),
    ensures
        entry_matched(start, after),
{
    if matched_before {
        let n = start.moves.len() as int;
        lemma_regret_sum_same(start.moves, middle.moves, n);
        assert forall|mi: int| 0 <= mi < n implies {
            &&& (#[trigger] after.moves[mi]).m == start.moves[mi].m
            &&& after.moves[mi].d.cumulative_move_regret == start.moves[mi].d.cumulative_move_regret
            &&& after.moves[mi].d.utility_after_move == start.moves[mi].d.utility_after_move
            &&& after.moves[mi].d.spec_probability(n) == matched_probability(
                start.moves[mi].d.cumulative_move_regret as int,
                regret_sum(start.moves, n),
                n,
            )
        } by {
            assert(middle.moves[mi].m == start.moves[mi].m);
        }
    }
}

/// A table stays well-formed when one entry is replaced by a well-formed
/// entry with the same moves.
pub proof fn lemma_store_wf_after_matching<INFO: VisibleInfo>(
    before: &DataForKnownInfosets<INFO>,
    after: &DataForKnownInfosets<INFO>,
    d: int,
)
    requires
        before.wf(),
        0 <= d < before.len(),
        after.len() == before.len(),
        after.infoset_data == before.infoset_data,
        forall|i: int| 0 <= i < before.len() && i != d ==> #[trigger] after.entry(i) == before.entry(i),
        after.entry(d).wf(),
        after.entry(d).turn_player == before.entry(d).turn_player,
        after.entry(d).terminal_utility == before.entry(d).terminal_utility,
        move_data::moves_of(after.entry(d).moves) == move_data::moves_of(before.entry(d).moves),
    ensures
        after.wf(),
{
    assert forall|i: int| 0 <= i < after.len() implies (#[trigger] after.entry(i)).wf() by {
        if i != d {
            assert(after.entry(i) == before.entry(i));
        }
    }
    assert forall|k: INFO| #[trigger] after.index().contains_key(k) implies {
        &&& k.valid()
        &&& after.index()[k] < after.len()
        &&& after.entry(after.index()[k] as int).describes(k)
    } by {
        let i = after.index()[k] as int;
        assert(before.entry(i).describes(k));
        if i != d {
            assert(after.entry(i) == before.entry(i));
        }
    }
}

/// Where one move alone has regret, the regrets of the first moves add
/// up to nothing before that move and to its regret from it on.
pub proof fn lemma_sole_regret_sum<INFO: VisibleInfo>(
    moves: Seq<MoveWithData<INFO>>,
    sole: int,
    k: int,
)
    requires
        0 <= sole < moves.len(),
        0 <= k <= moves.len(),
        forall|mi: int|
            0 <= mi < moves.len() && mi != sole ==> (#[trigger] moves[mi]).d.cumulative_move_regret
                == 0,
    ensures
        regret_sum(moves, k) == (if k > sole {
            moves[sole].d.cumulative_move_regret as int
        } else {
            0
        }),
    decreases k,
{
    if k > 0 {
        lemma_sole_regret_sum(moves, sole, k - 1);
        if k - 1 != sole {
            assert(moves[k - 1].d.cumulative_move_regret == 0);
        }
    }
}

/// Where one move alone has regret, regret matching plays it for certain
/// and no other move at all.
pub proof fn lemma_sole_regret_is_certain<INFO: VisibleInfo>(
    before: InfoSetStatistics<INFO>,
    after: InfoSetStatistics<INFO>,
    sole: int,
)
    requires
        entry_matched(before, after),
        0 <= sole < before.moves.len(),
        before.moves[sole].d.cumulative_move_regret > 0,
        forall|mi: int|
            0 <= mi < before.moves.len() && mi != sole ==> (
            #[trigger] before.moves[mi]).d.cumulative_move_regret == 0,
    ensures
        after.moves[sole].d.spec_probability(after.moves.len() as int) == PROBABILITY_ONE,
        forall|mi: int|
            0 <= mi < after.moves.len() && mi != sole ==> (#[trigger] after.moves[mi]).d.spec_probability(
                after.moves.len() as int,
            ) == 0,
{
    let n = before.moves.len() as int;
    let regret = before.moves[sole].d.cumulative_move_regret as int;
    lemma_sole_regret_sum(before.moves, sole, n);
    assert(after.moves[sole].m == before.moves[sole].m);
    assert(regret * PROBABILITY_ONE / regret == PROBABILITY_ONE) by (nonlinear_arith)
        requires
            regret > 0,
    ;
    assert forall|mi: int| 0 <= mi < after.moves.len() && mi != sole implies (
    #[trigger] after.moves[mi]).d.spec_probability(after.moves.len() as int) == 0 by {
        assert(before.moves[mi].d.cumulative_move_regret == 0);
        assert(0 * PROBABILITY_ONE / regret == 0) by (nonlinear_arith)
            requires
                regret > 0,
        ;
    }
}

} // verus!
