//! The puddings, which are scored once, when the game is over.

use vstd::prelude::*;
use crate::player::{views, Player, PlayerView};
use crate::ranking::{
    greatest, least, lemma_all_equal, lemma_greatest_is, lemma_occurrences_insert,
    lemma_positions_of, occurrences,
};
use crate::score::{LEAST_PUDDING_SCORE, MOST_PUDDING_SCORE};
use crate::tally::SushiResult;

verus! {

/// The puddings in the first `total_rounds` tallies together.
pub open spec fn pudding_total(rounds: Seq<SushiResult>, total_rounds: int) -> int
    decreases total_rounds,
{
    if total_rounds <= 0 {
        0
    } else {
        pudding_total(rounds, total_rounds - 1) + rounds[total_rounds - 1].pudding_count
    }
}

/// The puddings of each player over the rounds, in the order of the players.
pub open spec fn pudding_totals(players: Seq<PlayerView>, total_rounds: int) -> Seq<int> {
    Seq::new(players.len(), |i: int| pudding_total(players[i].rounds, total_rounds))
}

/// Each player's identity with the player's puddings over the rounds, in the
/// order of the players.
pub open spec fn pudding_pairs(players: Seq<PlayerView>, total_rounds: int) -> Seq<(usize, i16)> {
    Seq::new(
        players.len(),
        |i: int| (players[i].id, pudding_total(players[i].rounds, total_rounds) as i16),
    )
}

/// The counts of a list of pairs.
pub open spec fn counts_of(pairs: Seq<(usize, i16)>) -> Seq<int> {
    Seq::new(pairs.len(), |k: int| pairs[k].1 as int)
}

/// The place right behind the last pair of `sorted` whose count is at most
/// `count`: where a pair with that count goes in.
pub open spec fn slot_after(sorted: Seq<(usize, i16)>, count: i16) -> int
    decreases sorted.len(),
{
    if sorted.len() == 0 {
        0
    } else if sorted.last().1 <= count {
        sorted.len() as int
    } else {
        slot_after(sorted.drop_last(), count)
    }
}

/// The pairs in the order of their counts, lowest first; pairs with the same
/// count stay in the order they came in.
pub open spec fn sorted_by_count(pairs: Seq<(usize, i16)>) -> Seq<(usize, i16)>
    decreases pairs.len(),
{
    if pairs.len() == 0 {
        pairs
    } else {
        let before = sorted_by_count(pairs.drop_last());
        before.insert(slot_after(before, pairs.last().1), pairs.last())
    }
}

/// No count is above a later one.
pub open spec fn ascending(pairs: Seq<(usize, i16)>) -> bool {
    forall|j: int, k: int| 0 <= j < k < pairs.len() ==> pairs[j].1 <= pairs[k].1
}

/// No two pairs carry the same identity.
pub open spec fn distinct_ids(pairs: Seq<(usize, i16)>) -> bool {
    forall|j: int, k: int| 0 <= j < k < pairs.len() ==> pairs[j].0 != pairs[k].0
}

/// Whether all players hold the same number of puddings: the fewest are the
/// most.
pub open spec fn pudding_tie(totals: Seq<int>) -> bool {
    least(totals) == greatest(totals)
}

/// The points that player `i` has from the puddings, given the puddings of
/// each player. Where all have the same, nobody has points. Else those with
/// the most share `MOST_PUDDING_SCORE` and those with the fewest share
/// `LEAST_PUDDING_SCORE`, each the whole part of the share.
pub open spec fn pudding_points(totals: Seq<int>, i: int) -> int {
    let low = least(totals);
    let high = greatest(totals);
    if low == high {
        0
    } else if totals[i] == high {
        MOST_PUDDING_SCORE as int / occurrences(totals, high) as int
    } else if totals[i] == low {
        -((0 - LEAST_PUDDING_SCORE) / occurrences(totals, low) as int)
    } else {
        0
    }
}

/// Where the slot lies: every pair from it on has a higher count, and the
/// pair before it has not.
pub proof fn lemma_slot_after(sorted: Seq<(usize, i16)>, count: i16)
    ensures
        0 <= slot_after(sorted, count) <= sorted.len(),
        slot_after(sorted, count) > 0 ==> sorted[slot_after(sorted, count) - 1].1 <= count,
        forall|j: int| slot_after(sorted, count) <= j < sorted.len() ==> sorted[j].1 > count,
    decreases sorted.len(),
{
    if sorted.len() > 0 && sorted.last().1 > count {
        lemma_slot_after(sorted.drop_last(), count);
        assert forall|j: int| slot_after(sorted, count) <= j < sorted.len() implies sorted[j].1
            > count by {
            if j < sorted.len() - 1 {
                assert(sorted.drop_last()[j] == sorted[j]);
            }
        }
    }
}

/// Sorting gives the same pairs, each as often as before, in rising order of
/// their counts. Each count occurs as often as before, and identities that
/// differed still do.
pub proof fn lemma_sorted_by_count(pairs: Seq<(usize, i16)>)
    ensures
        sorted_by_count(pairs).len() == pairs.len(),
        ascending(sorted_by_count(pairs)),
        sorted_by_count(pairs).to_multiset() == pairs.to_multiset(),
        forall|pair: (usize, i16)| sorted_by_count(pairs).contains(pair) <==> pairs.contains(pair),
        forall|v: int|
            occurrences(counts_of(sorted_by_count(pairs)), v) == occurrences(counts_of(pairs), v),
        distinct_ids(pairs) ==> distinct_ids(sorted_by_count(pairs)),
    decreases pairs.len(),
{
    broadcast use vstd::seq_lib::group_to_multiset_ensures;

    let sorted = sorted_by_count(pairs);
    if pairs.len() == 0 {
        assert(counts_of(sorted) == counts_of(pairs));
    } else {
        let init = pairs.drop_last();
        let x = pairs.last();
        let before = sorted_by_count(init);
        let at = slot_after(before, x.1);
        lemma_sorted_by_count(init);
        lemma_slot_after(before, x.1);
        assert(sorted == before.insert(at, x));
        assert(init.push(x) == pairs);
        // rising order
        assert forall|j: int, k: int| 0 <= j < k < sorted.len() implies sorted[j].1
            <= sorted[k].1 by {
            if at > 0 && j < at {
                assert(before[j].1 <= before[at - 1].1);
            }
        }
        // the same pairs
        assert(sorted.to_multiset() == before.to_multiset().insert(x));
        assert(pairs.to_multiset() == init.to_multiset().insert(x));
        assert forall|pair: (usize, i16)| sorted.contains(pair) <==> pairs.contains(pair) by {
            assert(sorted.contains(pair) <==> sorted.to_multiset().count(pair) > 0);
            assert(pairs.contains(pair) <==> pairs.to_multiset().count(pair) > 0);
        }
        // the same counts
        assert forall|v: int|
            occurrences(counts_of(sorted), v) == occurrences(counts_of(pairs), v) by {
            assert(counts_of(sorted) == counts_of(before).insert(at, x.1 as int));
            assert(counts_of(pairs) == counts_of(init).insert(init.len() as int, x.1 as int));
            lemma_occurrences_insert(counts_of(before), at, x.1 as int, v);
            lemma_occurrences_insert(counts_of(init), init.len() as int, x.1 as int, v);
        }
        // identities apart
        if distinct_ids(pairs) {
            assert(distinct_ids(init)) by {
                assert forall|j: int, k: int| 0 <= j < k < init.len() implies init[j].0
                    != init[k].0 by {
                    assert(pairs[j].0 != pairs[k].0);
                }
            }
            assert forall|j: int| 0 <= j < before.len() implies before[j].0 != x.0 by {
                assert(before.contains(before[j]));
                assert(init.contains(before[j]));
                let i = choose|i: int| 0 <= i < init.len() && init[i] == before[j];
                assert(pairs[i].0 != pairs[pairs.len() - 1].0);
            }
            assert forall|j: int, k: int| 0 <= j < k < sorted.len() implies sorted[j].0
                != sorted[k].0 by {
                let bj = if j < at {
                    j
                } else {
                    j - 1
                };
                let bk = if k < at {
                    k
                } else {
                    k - 1
                };
                if j != at && k != at {
                    assert(before[bj].0 != before[bk].0);
                }
            }
        }
    }
}

/// Pairs that already stand in rising order of their counts are left as they
/// are.
pub proof fn lemma_sorted_stays(pairs: Seq<(usize, i16)>)
    requires
        ascending(pairs),
    ensures
        sorted_by_count(pairs) == pairs,
    decreases pairs.len(),
{
    if pairs.len() > 0 {
        let init = pairs.drop_last();
        assert(ascending(init)) by {
            assert forall|j: int, k: int| 0 <= j < k < init.len() implies init[j].1
                <= init[k].1 by {
                assert(pairs[j].1 <= pairs[k].1);
            }
        }
        lemma_sorted_stays(init);
        if init.len() > 0 {
            assert(pairs[init.len() - 1].1 <= pairs[pairs.len() - 1].1);
        }
        assert(init.insert(init.len() as int, pairs.last()) == pairs);
    }
}

/// Where every player ends with the same number of puddings, the puddings
/// change nobody's score.
pub proof fn lemma_no_pudding_points_when_all_equal(totals: Seq<int>, i: int)
    requires
        forall|j: int, k: int|
            0 <= j < totals.len() && 0 <= k < totals.len() ==> totals[j] == totals[k],
    ensures
        pudding_tie(totals),
        pudding_points(totals, i) == 0,
{
    lemma_all_equal(totals);
}

/// Puts the pairs in the order of their counts, lowest first. Pairs with the
/// same count stay in the order they came in.
pub fn sort_by_count(pairs: &mut Vec<(usize, i16)>)
    ensures
        final(pairs)@ == sorted_by_count(old(pairs)@),
{
    let mut sorted: Vec<(usize, i16)> = Vec::new();
    let mut i: usize = 0;
    while i < pairs.len()
        invariant
            i <= pairs@.len(),
            pairs@ == old(pairs)@,
            sorted@ == sorted_by_count(pairs@.take(i as int)),
        decreases pairs@.len() - i,
    {
        let pair = pairs[i];
        let mut at: usize = sorted.len();
        proof {
            assert(sorted@.take(at as int) == sorted@);
        }
        while at > 0 && sorted[at - 1].1 > pair.1
            invariant
                at <= sorted@.len(),
                slot_after(sorted@, pair.1) == slot_after(sorted@.take(at as int), pair.1),
            decreases at,
        {
            proof {
                assert(sorted@.take(at as int).drop_last() == sorted@.take(at - 1));
            }
            at = at - 1;
        }
        proof {
            assert(pairs@.take(i + 1).drop_last() == pairs@.take(i as int));
            assert(sorted@.take(sorted@.len() as int) == sorted@);
        }
        sorted.insert(at, pair);
        i = i + 1;
    }
    proof {
        assert(pairs@.take(i as int) == pairs@);
    }
    *pairs = sorted;
}

/// Each player's identity with the player's puddings over the first
/// `total_rounds` rounds, in the order of the puddings, fewest first. Players
/// with the same number stay in the order of the table.
pub fn calc_pudding_counts_for_game(players: &Vec<Player>, total_rounds: u8) -> (pudding_counts:
    Vec<(usize, i16)>)
    requires
        forall|i: int|
            0 <= i < players@.len() ==> total_rounds <= (#[trigger] players@[i])@.rounds.len(),
        forall|i: int, k: int|
            0 <= i < players@.len() && 0 <= k <= total_rounds ==> i16::MIN
                <= #[trigger] pudding_total(players@[i]@.rounds, k) <= i16::MAX,
    ensures
        pudding_counts@ == sorted_by_count(pudding_pairs(views(players@), total_rounds as int)),
{
    let mut pudding_counts: Vec<(usize, i16)> = Vec::new();
    let mut p: usize = 0;
    while p < players.len()
        invariant
            p <= players@.len(),
            forall|i: int|
                0 <= i < players@.len() ==> total_rounds <= (#[trigger] players@[i])@.rounds.len(),
            forall|i: int, k: int|
                0 <= i < players@.len() && 0 <= k <= total_rounds ==> i16::MIN
                    <= #[trigger] pudding_total(players@[i]@.rounds, k) <= i16::MAX,
            pudding_counts@ == pudding_pairs(views(players@), total_rounds as int).take(p as int),
        decreases players@.len() - p,
    {
        let x = &players[p];
        let mut current_pudding_count: i16 = 0;
        // For each of the rounds.
        let mut i: u8 = 0;
        while i < total_rounds
            invariant
                i <= total_rounds,
                total_rounds <= x@.rounds.len(),
                forall|k: int|
                    0 <= k <= total_rounds ==> i16::MIN <= #[trigger] pudding_total(x@.rounds, k)
                        <= i16::MAX,
                current_pudding_count == pudding_total(x@.rounds, i as int),
            decreases total_rounds - i,
        {
            proof {
                assert(i16::MIN <= pudding_total(x@.rounds, i + 1) <= i16::MAX);
            }
            current_pudding_count = current_pudding_count + x.get_round_result(
                i as usize,
            ).pudding_count;
            i = i + 1;
        }

        let pair = (x.get_id(), current_pudding_count);
        pudding_counts.push(pair);
        proof {
            let all = pudding_pairs(views(players@), total_rounds as int);
            assert(all.take(p + 1) == all.take(p as int).push(all[p as int]));
        }
        p = p + 1;
    }
    proof {
        let all = pudding_pairs(views(players@), total_rounds as int);
        assert(all.take(p as int) == all);
    }

    sort_by_count(&mut pudding_counts);
    pudding_counts
}

/// What a pair with the given count earns, where the fewest and the most
/// puddings differ.
pub open spec fn share_for(count: int, low: int, low_holders: int, high: int, high_holders: int)
    -> int {
    if count == high {
        MOST_PUDDING_SCORE as int / high_holders
    } else if count == low {
        -((0 - LEAST_PUDDING_SCORE) / low_holders)
    } else {
        0
    }
}

/// The points of each player for the puddings of the first `total_rounds`
/// rounds, listed by the identity of the player. Where all players hold the
/// same number of puddings, nobody gets points. Else the identities must be
/// the places in that list: each under the number of players, no two the
/// same.
pub fn calc_pudding_scores_for_game(players: &Vec<Player>, total_rounds: u8) -> (scores: Vec<i32>)
    requires
        players@.len() > 0,
        forall|i: int|
            0 <= i < players@.len() ==> total_rounds <= (#[trigger] players@[i])@.rounds.len(),
        forall|i: int, k: int|
            0 <= i < players@.len() && 0 <= k <= total_rounds ==> i16::MIN
                <= #[trigger] pudding_total(players@[i]@.rounds, k) <= i16::MAX,
        !pudding_tie(pudding_totals(views(players@), total_rounds as int)) ==> forall|i: int|
            0 <= i < players@.len() ==> (#[trigger] players@[i])@.id < players@.len(),
        !pudding_tie(pudding_totals(views(players@), total_rounds as int)) ==> forall|
            i: int,
            j: int,
        |
            0 <= i < j < players@.len() ==> (#[trigger] players@[i])@.id != (
            #[trigger] players@[j])@.id,
    ensures
        scores@.len() == players@.len(),
        pudding_tie(pudding_totals(views(players@), total_rounds as int)) ==> forall|k: int|
            0 <= k < scores@.len() ==> #[trigger] scores@[k] == 0,
        forall|i: int|
            0 <= i < players@.len() && (#[trigger] players@[i])@.id < players@.len()
                ==> scores@[players@[i]@.id as int] == pudding_points(
                pudding_totals(views(players@), total_rounds as int),
                i,
            ),
        forall|i: int|
            0 <= i < scores@.len() ==> LEAST_PUDDING_SCORE <= #[trigger] scores@[i]
                <= MOST_PUDDING_SCORE,
{
    let mut scores: Vec<i32> = vec![0; players.len()];

    // Gather the results for each player.
    let pudding_counts: Vec<(usize, i16)> = calc_pudding_counts_for_game(players, total_rounds);

    let ghost n = players@.len() as int;
    let ghost pairs = pudding_pairs(views(players@), total_rounds as int);
    let ghost totals = pudding_totals(views(players@), total_rounds as int);
    let ghost sorted = pudding_counts@;
    proof {
        lemma_sorted_by_count(pairs);
        assert(sorted == sorted_by_count(pairs));
        assert(pairs.len() == n && sorted.len() == n);
        assert(counts_of(pairs) == totals);
        assert forall|k: int| 0 <= k < n implies pairs.contains(#[trigger] sorted[k])
            && totals.contains(sorted[k].1 as int) by {
            assert(sorted_by_count(pairs)[k] == sorted[k]);
            assert(sorted_by_count(pairs).contains(sorted[k]));
            assert(pairs.contains(sorted[k]));
            let i = choose|i: int| 0 <= i < pairs.len() && pairs[i] == sorted[k];
            assert(totals[i] == sorted[k].1);
        }
    }

    let lowest_value = pudding_counts[0].1;
    let highest_value = pudding_counts[players.len() - 1].1;
    proof {
        assert forall|i: int| 0 <= i < n implies lowest_value <= #[trigger] totals[i]
            <= highest_value by {
            assert(pairs.contains(pairs[i]));
            let k = choose|k: int| 0 <= k < sorted.len() && sorted[k] == pairs[i];
            assert(sorted[0].1 <= sorted[k].1 <= sorted[n - 1].1);
        }
        assert(totals.contains(sorted[0].1 as int));
        assert(totals.contains(sorted[n - 1].1 as int));
        lemma_greatest_is(totals, highest_value as int, lowest_value as int);
    }

    // if everyone had the same number of puds, no points for anyone.
    if lowest_value == highest_value {
        return scores;
    }
    proof {
        // the puddings differ, so every identity is a place of its own in the list
        assert(!pudding_tie(totals));
        assert(distinct_ids(pairs));
        assert(distinct_ids(sorted));
        assert forall|k: int| 0 <= k < n implies (#[trigger] sorted[k]).0 < n by {
            let i = choose|i: int| 0 <= i < pairs.len() && pairs[i] == sorted[k];
            assert(players@[i]@.id < n);
        }
    }
    let mut lowest_count: usize = 0;
    let mut highest_count: usize = 0;

    let mut k: usize = 0;
    while k < pudding_counts.len()
        invariant
            k <= pudding_counts@.len(),
            pudding_counts@ == sorted,
            lowest_count == occurrences(counts_of(sorted).take(k as int), lowest_value as int),
            highest_count == occurrences(counts_of(sorted).take(k as int), highest_value as int),
            lowest_count <= k,
            highest_count <= k,
        decreases pudding_counts@.len() - k,
    {
        proof {
            let counts = counts_of(sorted);
            assert(counts.take(k + 1).drop_last() == counts.take(k as int));
            assert(counts.take(k + 1).last() == sorted[k as int].1);
        }
        let x = pudding_counts[k];
        if x.1 == lowest_value {
            lowest_count = lowest_count + 1;
        }
        if x.1 == highest_value {
            highest_count = highest_count + 1;
        }
        k = k + 1;
    }
    proof {
        assert(counts_of(sorted).take(k as int) == counts_of(sorted));
        lemma_positions_of(totals, lowest_value as int);
        lemma_positions_of(totals, highest_value as int);
        assert(lowest_count == occurrences(totals, lowest_value as int));
        assert(highest_count == occurrences(totals, highest_value as int));
    }
    proof {
        assert(totals.contains(lowest_value as int) && totals.contains(highest_value as int));
        assert(lowest_count > 0 && highest_count > 0);
        assert(0 <= 6int / (highest_count as int) <= 6) by (nonlinear_arith)
            requires
                highest_count > 0,
        ;
        assert(0 <= 6int / (lowest_count as int) <= 6) by (nonlinear_arith)
            requires
                lowest_count > 0,
        ;
    }
    let least_each: i32 = -(((0 - LEAST_PUDDING_SCORE) as usize / lowest_count) as i32);
    let most_each: i32 = (MOST_PUDDING_SCORE as usize / highest_count) as i32;

    k = 0;
    while k < pudding_counts.len()
        invariant
            k <= pudding_counts@.len(),
            pudding_counts@ == sorted,
            sorted.len() == n,
            scores@.len() == n,
            distinct_ids(sorted),
            lowest_value != highest_value,
            -6 <= least_each <= 0 <= most_each <= 6,
            least_each == -((0 - LEAST_PUDDING_SCORE) / (lowest_count as int)),
            most_each == MOST_PUDDING_SCORE as int / (highest_count as int),
            forall|j: int| 0 <= j < n ==> (#[trigger] sorted[j]).0 < n,
            forall|j: int|
                0 <= j < k ==> scores@[(#[trigger] sorted[j]).0 as int] == share_for(
                    sorted[j].1 as int,
                    lowest_value as int,
                    lowest_count as int,
                    highest_value as int,
                    highest_count as int,
                ),
            forall|j: int| k <= j < n ==> scores@[(#[trigger] sorted[j]).0 as int] == 0,
            forall|i: int| 0 <= i < n ==> -6 <= #[trigger] scores@[i] <= 6,
        decreases pudding_counts@.len() - k,
    {
        let x = pudding_counts[k];
        proof {
            assert(sorted[k as int].0 < n);
        }
        if x.1 == lowest_value {
            scores[x.0] = least_each;
        }
        if x.1 == highest_value {
            scores[x.0] = most_each;
        }
        proof {
            assert forall|j: int| 0 <= j < n && j != k implies (#[trigger] sorted[j]).0
                != x.0 by {
                if j < k {
                    assert(sorted[j].0 != sorted[k as int].0);
                } else {
                    assert(sorted[k as int].0 != sorted[j].0);
                }
            }
        }
        k = k + 1;
    }
    proof {
        assert forall|i: int| 0 <= i < n implies scores@[(#[trigger] players@[i])@.id as int]
            == pudding_points(totals, i) by {
            assert(pairs.contains(pairs[i]));
            let j = choose|j: int| 0 <= j < sorted.len() && sorted[j] == pairs[i];
            assert(sorted[j].0 == players@[i]@.id);
            assert(sorted[j].1 == totals[i]);
        }
    }

    scores
}

} // verus!
