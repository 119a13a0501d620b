//! The scoring engine: what the tallies of a round and of a game are worth.

use vstd::prelude::*;
use crate::player::{views, Player, PlayerView};
use crate::ranking::{
    greatest, greatest_below, lemma_greatest, lemma_greatest_below, lemma_positions_of,
    occurrences, positions_of,
};
use crate::tally::SushiResult;

verus! {

//---- Scoring rules ----
pub const MOST_MAKI_ROLL_POINTS: i8 = 6;

pub const SECOND_MOST_MAKI_POINTS: i8 = 3;

pub const TEMPURA_PAIR_POINTS: i16 = 5;

pub const SASHIMI_TRIO_POINTS: i16 = 10;

pub const SALMON_NIGRI_POINTS: i16 = 2;

pub const EGG_NIGRI_POINTS: i16 = 1;

pub const SQUID_NIGRI_POINTS: i16 = 3;

pub const WASABI_SALMON_NIGRI_POINTS: i16 = 9;

pub const WASABI_EGG_NIGRI_POINTS: i16 = 3;

pub const WASABI_SQUID_NIGRI_POINTS: i16 = 6;

pub const MOST_PUDDING_SCORE: i16 = 6;

pub const LEAST_PUDDING_SCORE: i16 = -6;

pub const TEMPURA_PER_POINT: i16 = 2;

pub const SASHIMI_PER_POINT: i16 = 3;

pub const MAX_DUMPLINGS: usize = 4;

/// The points for a tier of dumplings: 1, 3, 6, 10 and 15 for the tiers one
/// to five.
pub open spec fn dumpling_table(tier: int) -> int {
    if tier == 1 {
        1
    } else if tier == 2 {
        3
    } else if tier == 3 {
        6
    } else if tier == 4 {
        10
    } else {
        15
    }
}

/// The points for a number of dumplings: none for none, else the points of
/// its tier, which is the number itself up to `MAX_DUMPLINGS`.
pub open spec fn dumpling_points(count: int) -> int {
    if count <= 0 {
        0
    } else if count > MAX_DUMPLINGS {
        dumpling_table(MAX_DUMPLINGS as int)
    } else {
        dumpling_table(count)
    }
}

/// The points for tempura: the remainder of the count by the size of a pair,
/// times the points of a pair.
pub open spec fn tempura_points(count: int) -> int {
    (count % (TEMPURA_PER_POINT as int)) * TEMPURA_PAIR_POINTS
}

/// The points for sashimi: the remainder of the count by the size of a trio,
/// times the points of a trio.
pub open spec fn sashimi_points(count: int) -> int {
    (count % (SASHIMI_PER_POINT as int)) * SASHIMI_TRIO_POINTS
}

/// The points for the nigiri: each at the value of its kind, and at the
/// higher value of its kind where it was played onto a wasabi.
pub open spec fn nigiri_points(result: SushiResult) -> int {
    result.salmon_nigri_count * SALMON_NIGRI_POINTS + result.egg_nigri_count * EGG_NIGRI_POINTS
        + result.squid_nigri_count * SQUID_NIGRI_POINTS + result.wasabi_salmon_nigri_count
        * WASABI_SALMON_NIGRI_POINTS + result.wasabi_egg_nigri_count * WASABI_EGG_NIGRI_POINTS
        + result.wasabi_squid_nigri_count * WASABI_SQUID_NIGRI_POINTS
}

/// The points a player has from the own dishes of one round: all but the
/// maki rolls, which are ranked among the players.
pub open spec fn dish_points(result: SushiResult) -> int {
    tempura_points(result.tempura_count as int) + sashimi_points(result.sashimi_count as int)
        + dumpling_points(result.dumpling_count as int) + nigiri_points(result)
}

/// The rolls of each player, as numbers.
pub open spec fn rolls_of(results: Seq<SushiResult>) -> Seq<int> {
    Seq::new(results.len(), |i: int| results[i].maki_roll_count as int)
}

/// The tallies that a list of borrowed tallies refers to.
pub open spec fn tallies_of(results: Seq<&SushiResult>) -> Seq<SushiResult> {
    Seq::new(results.len(), |i: int| *results[i])
}

/// The players that hold the runner-up number of rolls, in rising order;
/// none where all hold the same.
pub open spec fn runner_up_positions(rolls: Seq<int>) -> Seq<int> {
    if greatest_below(rolls, greatest(rolls)) < greatest(rolls) {
        positions_of(rolls, greatest_below(rolls, greatest(rolls)))
    } else {
        Seq::empty()
    }
}

/// Positions as the identities that the score list is indexed by.
pub open spec fn as_ids(positions: Seq<int>) -> Seq<u8> {
    Seq::new(positions.len(), |k: int| positions[k] as u8)
}

/// The points that player `i` has from the maki rolls of a round. Those with
/// the most rolls share `MOST_MAKI_ROLL_POINTS`, each the whole part of the
/// share. Where one player alone has the most, those with the next number
/// of rolls share `SECOND_MOST_MAKI_POINTS` in the same way.
pub open spec fn maki_points(rolls: Seq<int>, i: int) -> int {
    let top = greatest(rolls);
    let runner_up = greatest_below(rolls, top);
    if rolls[i] == top {
        MOST_MAKI_ROLL_POINTS as int / occurrences(rolls, top) as int
    } else if occurrences(rolls, top) == 1 && rolls[i] == runner_up {
        SECOND_MOST_MAKI_POINTS as int / occurrences(rolls, runner_up) as int
    } else {
        0
    }
}

/// The points of player `i` for one round, given the tally of each player.
pub open spec fn round_score(results: Seq<SushiResult>, i: int) -> int {
    maki_points(rolls_of(results), i) + dish_points(results[i])
}

/// Adds an amount to the score of one player.
pub fn add_score(id: u8, amount: i16, scores: &mut [i32])
    requires
        id < old(scores)@.len(),
        i32::MIN <= old(scores)@[id as int] + amount <= i32::MAX,
    ensures
        final(scores)@ == old(scores)@.update(id as int, (old(scores)@[id as int] + amount) as i32),
{
    scores[id as usize] = scores[id as usize] + amount as i32;
}

/// Puts the identities of the players with the most maki rolls behind
/// `most_maki_rolls`, and those of the players with the next number of rolls
/// behind `second_most_maki_rolls`, each in rising order.
pub fn find_most_maki_rolls(
    results: &[&SushiResult],
    most_maki_rolls: &mut Vec<u8>,
    second_most_maki_rolls: &mut Vec<u8>,
)
    requires
        results@.len() <= 256,
    ensures
        final(most_maki_rolls)@ == old(most_maki_rolls)@ + as_ids(
            positions_of(rolls_of(tallies_of(results@)), greatest(rolls_of(tallies_of(results@)))),
        ),
        final(second_most_maki_rolls)@ == old(second_most_maki_rolls)@ + as_ids(
            runner_up_positions(rolls_of(tallies_of(results@))),
        ),
{
    let ghost rolls = rolls_of(tallies_of(results@));
    if results.len() == 0 {
        assert(as_ids(positions_of(rolls, greatest(rolls))) == Seq::<u8>::empty());
        assert(as_ids(runner_up_positions(rolls)) == Seq::<u8>::empty());
        assert(old(most_maki_rolls)@ + Seq::<u8>::empty() == old(most_maki_rolls)@);
        assert(old(second_most_maki_rolls)@ + Seq::<u8>::empty() == old(
            second_most_maki_rolls,
        )@);
        return ;
    }
    // The highest count.

    let mut highest_maki_roll_count: i16 = results[0].get_maki_roll_count();
    let mut i: usize = 1;
    proof {
        assert(rolls.take(1).len() == 1);
    }
    while i < results.len()
        invariant
            1 <= i <= results@.len(),
            rolls == rolls_of(tallies_of(results@)),
            highest_maki_roll_count == greatest(rolls.take(i as int)),
        decreases results@.len() - i,
    {
        proof {
            assert(rolls.take(i + 1).drop_last() == rolls.take(i as int));
        }
        let player_maki_roll_count = results[i].get_maki_roll_count();
        if player_maki_roll_count > highest_maki_roll_count {
            highest_maki_roll_count = player_maki_roll_count;
        }
        i = i + 1;
    }
    proof {
        assert(rolls.take(i as int) == rolls);
    }
    // The highest count under it, or the highest itself where all are equal.
    let mut second_highest_maki_roll_count: i16 = highest_maki_roll_count;
    i = 0;
    while i < results.len()
        invariant
            i <= results@.len(),
            rolls == rolls_of(tallies_of(results@)),
            highest_maki_roll_count == greatest(rolls),
            second_highest_maki_roll_count == greatest_below(
                rolls.take(i as int),
                highest_maki_roll_count as int,
            ),
        decreases results@.len() - i,
    {
        proof {
            assert(rolls.take(i + 1).drop_last() == rolls.take(i as int));
        }
        let player_maki_roll_count = results[i].get_maki_roll_count();
        if player_maki_roll_count < highest_maki_roll_count && (second_highest_maki_roll_count
            == highest_maki_roll_count || player_maki_roll_count
            > second_highest_maki_roll_count) {
            second_highest_maki_roll_count = player_maki_roll_count;
        }
        i = i + 1;
    }
    proof {
        assert(rolls.take(i as int) == rolls);
    }
    // Add players who had those totals to the appropriate vectors.
    let ghost top = highest_maki_roll_count as int;
    let ghost runner_up = second_highest_maki_roll_count as int;
    i = 0;
    while i < results.len()
        invariant
            i <= results@.len() <= 256,
            rolls == rolls_of(tallies_of(results@)),
            top == highest_maki_roll_count == greatest(rolls),
            runner_up == second_highest_maki_roll_count == greatest_below(rolls, top),
            most_maki_rolls@ == old(most_maki_rolls)@ + as_ids(
                positions_of(rolls.take(i as int), top),
            ),
            second_most_maki_rolls@ == old(second_most_maki_rolls)@ + as_ids(
                if runner_up < top {
                    positions_of(rolls.take(i as int), runner_up)
                } else {
                    Seq::empty()
                },
            ),
        decreases results@.len() - i,
    {
        let ghost before = rolls.take(i as int);
        let ghost after = rolls.take(i + 1);
        proof {
            assert(after.drop_last() == before);
            assert(after.last() == rolls[i as int]);
            lemma_greatest_below(rolls, top);
        }
        if results[i].get_maki_roll_count() == highest_maki_roll_count {
            most_maki_rolls.push(i as u8);
            proof {
                assert(as_ids(positions_of(after, top)) == as_ids(positions_of(before, top)).push(
                    i as u8,
                ));
                if runner_up < top {
                    assert(positions_of(after, runner_up) == positions_of(before, runner_up));
                }
            }
        } else if results[i].get_maki_roll_count() == second_highest_maki_roll_count {
            second_most_maki_rolls.push(i as u8);
            proof {
                assert(positions_of(after, top) == positions_of(before, top));
                assert(as_ids(positions_of(after, runner_up)) == as_ids(
                    positions_of(before, runner_up),
                ).push(i as u8));
            }
        } else {
            proof {
                assert(positions_of(after, top) == positions_of(before, top));
                assert(positions_of(after, runner_up) == positions_of(before, runner_up));
            }
        }
        i = i + 1;
    }
    proof {
        assert(rolls.take(i as int) == rolls);
    }
}

/// The points of one tally for the player's own dishes.
pub fn score_dishes(result: &SushiResult) -> (points: i32)
    requires
        result.wf(),
    ensures
        points == dish_points(*result),
        0 <= points <= 1000000,
{
    //---- Tempura
    let tempura_score = (result.tempura_count % TEMPURA_PER_POINT) * TEMPURA_PAIR_POINTS;

    //---- Sashimi
    let sashimi_score = (result.sashimi_count % SASHIMI_PER_POINT) * SASHIMI_TRIO_POINTS;

    //---- Dumplings
    let mut dumpling_multiplier: usize = result.dumpling_count as usize;
    let mut dumpling_score: i16 = 0;
    if dumpling_multiplier > 0 {
        if dumpling_multiplier > MAX_DUMPLINGS {
            dumpling_multiplier = MAX_DUMPLINGS;
        }
        dumpling_score = dumpling_tier_points(dumpling_multiplier);
    }
    //---- Nigiri

    let plain_score = nigiri_worth(result.salmon_nigri_count, SALMON_NIGRI_POINTS) + nigiri_worth(
        result.egg_nigri_count,
        EGG_NIGRI_POINTS,
    ) + nigiri_worth(result.squid_nigri_count, SQUID_NIGRI_POINTS);
    let wasabi_score = nigiri_worth(result.wasabi_salmon_nigri_count, WASABI_SALMON_NIGRI_POINTS)
        + nigiri_worth(result.wasabi_egg_nigri_count, WASABI_EGG_NIGRI_POINTS) + nigiri_worth(
        result.wasabi_squid_nigri_count,
        WASABI_SQUID_NIGRI_POINTS,
    );

    tempura_score as i32 + sashimi_score as i32 + dumpling_score as i32 + plain_score
        + wasabi_score
}

/// What a number of nigiri of one kind is worth.
fn nigiri_worth(count: i16, points_each: i16) -> (points: i32)
    requires
        0 <= count,
        0 <= points_each <= 9,
    ensures
        points == count * points_each,
        0 <= points <= 9 * i16::MAX,
{
    assert(0 <= count * points_each <= 9 * i16::MAX) by (nonlinear_arith)
        requires
            0 <= count <= i16::MAX,
            0 <= points_each <= 9,
    ;
    count as i32 * points_each as i32
}

/// The points for a tier of dumplings, from the table.
fn dumpling_tier_points(tier: usize) -> (points: i16)
    requires
        1 <= tier <= 5,
    ensures
        points == dumpling_table(tier as int),
{
    if tier == 1 {
        1
    } else if tier == 2 {
        3
    } else if tier == 3 {
        6
    } else if tier == 4 {
        10
    } else {
        15
    }
}

/// The tally of each player for one round.
pub open spec fn round_results_of(players: Seq<PlayerView>, round: int) -> Seq<SushiResult> {
    Seq::new(players.len(), |i: int| players[i].rounds[round])
}

/// The points of each player for one round that is over.
pub fn calc_scores_for_round(players: &Vec<Player>, round: u8) -> (scores: Vec<i32>)
    requires
        players@.len() <= 256,
        forall|i: int|
            0 <= i < players@.len() ==> round < (#[trigger] players@[i])@.rounds.len()
                && players@[i]@.rounds[round as int].wf(),
    ensures
        scores@.len() == players@.len(),
        forall|i: int|
            0 <= i < players@.len() ==> #[trigger] scores@[i] == round_score(
                round_results_of(views(players@), round as int),
                i,
            ),
        forall|i: int| 0 <= i < players@.len() ==> 0 <= #[trigger] scores@[i] <= 1000006,
{
    // Gather the results for each player.
    let mut round_results: Vec<&SushiResult> = Vec::new();
    let mut i: usize = 0;
    while i < players.len()
        invariant
            i <= players@.len(),
            forall|i: int|
                0 <= i < players@.len() ==> round < (#[trigger] players@[i])@.rounds.len(),
            round_results@.len() == i,
            tallies_of(round_results@) == round_results_of(views(players@), round as int).take(i as int),
        decreases players@.len() - i,
    {
        let ghost before = round_results@;
        round_results.push(players[i].get_round_result(round as usize));
        proof {
            let all = round_results_of(views(players@), round as int);
            assert forall|k: int| 0 <= k < i + 1 implies tallies_of(round_results@)[k] == all.take(
                i + 1,
            )[k] by {
                if k < i {
                    assert(tallies_of(before)[k] == all.take(i as int)[k]);
                    assert(round_results@[k] == before[k]);
                }
            }
            assert(tallies_of(round_results@) == all.take(i + 1));
        }
        i = i + 1;
    }
    let ghost results = round_results_of(views(players@), round as int);
    proof {
        assert(tallies_of(round_results@) == results);
    }
    let mut scores: Vec<i32> = vec![0; round_results.len()];

    //---- Maki Rolls
    add_maki_roll_score(scores.as_mut_slice(), round_results.as_slice());
    proof {
        assert forall|p: int| 0 <= p < results.len() implies 0 <= #[trigger] maki_points(
            rolls_of(results),
            p,
        ) <= 6 by {
            lemma_maki_points_bounded(rolls_of(results), p);
        }
    }

    i = 0;
    while i < round_results.len()
        invariant
            i <= round_results@.len(),
            tallies_of(round_results@) == results,
            results == round_results_of(views(players@), round as int),
            scores@.len() == results.len() == players@.len(),
            forall|i: int|
                0 <= i < players@.len() ==> round < (#[trigger] players@[i])@.rounds.len()
                    && players@[i]@.rounds[round as int].wf(),
            forall|p: int| 0 <= p < i ==> #[trigger] scores@[p] == round_score(results, p),
            forall|p: int| 0 <= p < i ==> 0 <= #[trigger] scores@[p] <= 1000006,
            forall|p: int|
                i <= p < results.len() ==> #[trigger] scores@[p] == maki_points(
                    rolls_of(results),
                    p,
                ),
            forall|p: int|
                0 <= p < results.len() ==> 0 <= #[trigger] maki_points(rolls_of(results), p) <= 6,
        decreases round_results@.len() - i,
    {
        proof {
            assert(players@[i as int]@.rounds[round as int].wf());
            assert(tallies_of(round_results@)[i as int] == results[i as int]);
        }
        let dishes = score_dishes(round_results[i]);
        scores[i] = scores[i] + dishes;
        i = i + 1;
    }

    scores
}

/// The points from the maki rolls lie between nothing and the whole prize.
pub proof fn lemma_maki_points_bounded(rolls: Seq<int>, i: int)
    requires
        0 <= i < rolls.len(),
    ensures
        0 <= maki_points(rolls, i) <= MOST_MAKI_ROLL_POINTS,
{
    let top = greatest(rolls);
    let runner_up = greatest_below(rolls, top);
    lemma_positions_of(rolls, top);
    lemma_positions_of(rolls, runner_up);
    let n = occurrences(rolls, top) as int;
    let m = occurrences(rolls, runner_up) as int;
    if rolls[i] == top {
        assert(rolls.contains(top));
        assert(0 <= 6int / n <= 6) by (nonlinear_arith)
            requires
                n > 0,
        ;
    } else if rolls[i] == runner_up {
        assert(rolls.contains(runner_up));
        assert(0 <= 3int / m <= 3) by (nonlinear_arith)
            requires
                m > 0,
        ;
    }
}

/// The prize for the most maki rolls is split evenly: all who hold the most
/// rolls get the same whole part of the share, what is left over goes to
/// nobody, and where two or more hold the most, nobody else gets anything.
pub proof fn lemma_maki_prize_split_evenly(rolls: Seq<int>, i: int, j: int)
    requires
        0 <= i < rolls.len(),
        0 <= j < rolls.len(),
        rolls[i] == greatest(rolls),
    ensures
        occurrences(rolls, greatest(rolls)) >= 1,
        maki_points(rolls, i) == MOST_MAKI_ROLL_POINTS as int / occurrences(
            rolls,
            greatest(rolls),
        ) as int,
        rolls[j] == greatest(rolls) ==> maki_points(rolls, j) == maki_points(rolls, i),
        maki_points(rolls, i) * occurrences(rolls, greatest(rolls)) <= MOST_MAKI_ROLL_POINTS,
        rolls[j] != greatest(rolls) && occurrences(rolls, greatest(rolls)) >= 2 ==> maki_points(
            rolls,
            j,
        ) == 0,
        occurrences(rolls, greatest(rolls)) == 2 ==> maki_points(rolls, i) == 3,
        occurrences(rolls, greatest(rolls)) == 3 ==> maki_points(rolls, i) == 2,
{
    let top = greatest(rolls);
    lemma_positions_of(rolls, top);
    assert(rolls.contains(top));
    let n = occurrences(rolls, top) as int;
    assert((6int / n) * n <= 6) by (nonlinear_arith)
        requires
            n >= 1,
    ;
    assert(n == 2 ==> 6int / n == 3) by (nonlinear_arith);
    assert(n == 3 ==> 6int / n == 2) by (nonlinear_arith);
}

/// Adds `amount` to the score of each of the listed players, which are
/// positions in rising order.
fn add_to_each(ids: &Vec<u8>, amount: i16, scores: &mut [i32], Ghost(positions): Ghost<Seq<int>>)
    requires
        ids@ == as_ids(positions),
        forall|k: int| 0 <= k < positions.len() ==> 0 <= #[trigger] positions[k] < 256,
        forall|k: int|
            0 <= k < positions.len() ==> (#[trigger] positions[k]) < old(scores)@.len(),
        forall|k: int, l: int| 0 <= k < l < positions.len() ==> positions[k] < positions[l],
        forall|k: int|
            0 <= k < positions.len() ==> i32::MIN <= old(scores)@[#[trigger] positions[k]]
                + amount <= i32::MAX,
    ensures
        final(scores)@.len() == old(scores)@.len(),
        forall|p: int|
            0 <= p < old(scores)@.len() ==> #[trigger] final(scores)@[p] == old(scores)@[p] + if positions.contains(
                p,
            ) {
                amount as int
            } else {
                0
            },
{
    let mut k: usize = 0;
    while k < ids.len()
        invariant
            k <= ids@.len(),
            ids@ == as_ids(positions),
            scores@.len() == old(scores)@.len(),
            forall|k: int| 0 <= k < positions.len() ==> 0 <= #[trigger] positions[k] < 256,
            forall|k: int|
                0 <= k < positions.len() ==> (#[trigger] positions[k]) < old(scores)@.len(),
            forall|k: int, l: int| 0 <= k < l < positions.len() ==> positions[k] < positions[l],
            forall|k: int|
                0 <= k < positions.len() ==> i32::MIN <= old(scores)@[#[trigger] positions[k]]
                    + amount <= i32::MAX,
            forall|p: int|
                0 <= p < old(scores)@.len() ==> #[trigger] scores@[p] == old(scores)@[p] + if positions.take(
                    k as int,
                ).contains(p) {
                    amount as int
                } else {
                    0
                },
        decreases ids@.len() - k,
    {
        let ghost done = positions.take(k as int);
        let ghost next = positions.take(k + 1);
        let ghost at = positions[k as int];
        proof {
            assert(ids@[k as int] == at as u8);
            assert(!done.contains(at)) by {
                if done.contains(at) {
                    let l = choose|l: int| 0 <= l < done.len() && done[l] == at;
                    assert(positions[l] < positions[k as int]);
                }
            }
        }
        add_score(ids[k], amount, scores);
        proof {
            assert forall|p: int| 0 <= p < old(scores)@.len() implies #[trigger] scores@[p] == old(
                scores,
            )@[p] + if next.contains(p) {
                amount as int
            } else {
                0
            } by {
                if p == at {
                    assert(next[k as int] == at);
                } else {
                    if done.contains(p) {
                        let l = choose|l: int| 0 <= l < done.len() && done[l] == p;
                        assert(next[l] == p);
                    }
                    if next.contains(p) {
                        let l = choose|l: int| 0 <= l < next.len() && next[l] == p;
                        assert(done[l] == p);
                    }
                }
            }
        }
        k = k + 1;
    }
    proof {
        assert(positions.take(k as int) == positions);
    }
}

/// Adds to each score the points of that player for the maki rolls of a
/// round.
pub fn add_maki_roll_score(scores: &mut [i32], results: &[&SushiResult])
    requires
        results@.len() <= old(scores)@.len(),
        results@.len() <= 256,
        forall|p: int|
            0 <= p < old(scores)@.len() ==> i32::MIN <= #[trigger] old(scores)@[p]
                && old(scores)@[p] + MOST_MAKI_ROLL_POINTS <= i32::MAX,
    ensures
        final(scores)@.len() == old(scores)@.len(),
        forall|p: int|
            0 <= p < results@.len() ==> #[trigger] final(scores)@[p] == old(scores)@[p]
                + maki_points(rolls_of(tallies_of(results@)), p),
        forall|p: int|
            results@.len() <= p < old(scores)@.len() ==> #[trigger] final(scores)@[p] == old(
                scores,
            )@[p],
        forall|p: int| 0 <= p < old(scores)@.len() ==> #[trigger] final(scores)@[p] >= old(scores)@[p],
        0 <= maki_points_together(rolls_of(tallies_of(results@)), results@.len() as int)
            <= MOST_MAKI_ROLL_POINTS + SECOND_MOST_MAKI_POINTS,
{
    let ghost rolls = rolls_of(tallies_of(results@));
    let ghost top = greatest(rolls);
    let ghost runner_up = greatest_below(rolls, top);
    let mut most_maki_rolls: Vec<u8> = Vec::new();
    let mut second_most_maki_rolls: Vec<u8> = Vec::new();

    find_most_maki_rolls(results, &mut most_maki_rolls, &mut second_most_maki_rolls);
    proof {
        lemma_positions_of(rolls, top);
        lemma_positions_of(rolls, runner_up);
        lemma_greatest_below(rolls, top);
        assert(most_maki_rolls@ == as_ids(positions_of(rolls, top)));
        assert(second_most_maki_rolls@ == as_ids(runner_up_positions(rolls)));
        if results@.len() > 0 {
            lemma_greatest(rolls);
        }
    }

    let num_most_maki_roll_players = most_maki_rolls.len();

    if num_most_maki_roll_players > 0 {
        let maki_roll_points_each = (MOST_MAKI_ROLL_POINTS as usize / num_most_maki_roll_players)
            as i16;
        assert(0 <= maki_roll_points_each <= MOST_MAKI_ROLL_POINTS) by (nonlinear_arith)
            requires
                num_most_maki_roll_players > 0,
                maki_roll_points_each == 6int / (num_most_maki_roll_players as int),
        ;
        add_to_each(
            &most_maki_rolls,
            maki_roll_points_each,
            scores,
            Ghost(positions_of(rolls, top)),
        );
        let ghost after_most = scores@;

        // If there was no tie for first, give some points for second place.
        if num_most_maki_roll_players <= 1 {
            let num_second_most_maki_players = second_most_maki_rolls.len();

            if num_second_most_maki_players > 0 {
                let second_maki_roll_points_each = (SECOND_MOST_MAKI_POINTS as usize
                    / num_second_most_maki_players) as i16;
                assert(0 <= second_maki_roll_points_each <= SECOND_MOST_MAKI_POINTS) by (nonlinear_arith)
                    requires
                        num_second_most_maki_players > 0,
                        second_maki_roll_points_each == 3int / (num_second_most_maki_players as int),
                ;
                proof {
                    let runners = runner_up_positions(rolls);
                    assert forall|k: int| 0 <= k < runners.len() implies i32::MIN <= scores@[#[trigger] runners[k]]
                        + second_maki_roll_points_each <= i32::MAX by {
                        // a runner-up is not among those with the most
                        let p = runners[k];
                        assert(rolls[p] == runner_up);
                        if positions_of(rolls, top).contains(p) {
                            let l = choose|l: int|
                                0 <= l < positions_of(rolls, top).len() && positions_of(
                                    rolls,
                                    top,
                                )[l] == p;
                            assert(rolls[positions_of(rolls, top)[l]] == top);
                        }
                        assert(scores@[p] == old(scores)@[p]);
                    }
                }
                add_to_each(
                    &second_most_maki_rolls,
                    second_maki_roll_points_each,
                    scores,
                    Ghost(runner_up_positions(rolls)),
                );
            }
        }
    }
    proof {
        assert forall|p: int| 0 <= p < results@.len() implies #[trigger] scores@[p] == old(
            scores,
        )@[p] + maki_points(rolls, p) by {
            assert(rolls[p] == top <==> positions_of(rolls, top).contains(p));
            if runner_up < top {
                assert(rolls[p] == runner_up <==> positions_of(rolls, runner_up).contains(p));
            }
        }
        assert forall|p: int| results@.len() <= p < old(scores)@.len() implies #[trigger] scores@[p]
            == old(scores)@[p] by {
            assert(!positions_of(rolls, top).contains(p));
            assert(!runner_up_positions(rolls).contains(p));
        }
        assert forall|p: int| 0 <= p < old(scores)@.len() implies #[trigger] scores@[p] >= old(
            scores,
        )@[p] by {
            if p < results@.len() {
                lemma_maki_points_bounded(rolls, p);
            }
        }
        lemma_maki_prizes_at_most_nine(rolls);
    }
}

/// The points from the maki rolls of the first `count` players together:
/// what a round adds to the scores for the maki rolls, over all players.
pub open spec fn maki_points_together(rolls: Seq<int>, count: int) -> int
    decreases count,
{
    if count <= 0 {
        0
    } else {
        maki_points_together(rolls, count - 1) + maki_points(rolls, count - 1)
    }
}

/// What each of those with the runner-up number of rolls gets: the whole
/// part of the share of the second prize, where one player alone has the
/// most; nothing where two or more have.
pub open spec fn second_prize_each(rolls: Seq<int>) -> int {
    let top = greatest(rolls);
    let runner_up = greatest_below(rolls, top);
    if occurrences(rolls, top) == 1 && runner_up < top {
        SECOND_MOST_MAKI_POINTS as int / occurrences(rolls, runner_up) as int
    } else {
        0
    }
}

/// How many of the first `count` values are `value`.
pub open spec fn occurrences_in_first(rolls: Seq<int>, count: int, value: int) -> int {
    occurrences(rolls.take(count), value) as int
}

/// The maki points of the first players together are the first prize for
/// each of them that has the most rolls, and the second prize for each that
/// has the runner-up number.
proof fn lemma_maki_points_together(rolls: Seq<int>, count: int)
    requires
        0 <= count <= rolls.len(),
    ensures
        maki_points_together(rolls, count) == (MOST_MAKI_ROLL_POINTS as int / occurrences(
            rolls,
            greatest(rolls),
        ) as int) * occurrences_in_first(rolls, count, greatest(rolls)) + second_prize_each(rolls)
            * occurrences_in_first(rolls, count, greatest_below(rolls, greatest(rolls))),
    decreases count,
{
    let top = greatest(rolls);
    let runner_up = greatest_below(rolls, top);
    let first = MOST_MAKI_ROLL_POINTS as int / occurrences(rolls, top) as int;
    let second = second_prize_each(rolls);
    if count == 0 {
        assert(rolls.take(0) == Seq::<int>::empty());
        assert(occurrences_in_first(rolls, 0, top) == 0);
        assert(occurrences_in_first(rolls, 0, runner_up) == 0);
        assert(first * 0 == 0 && second * 0 == 0) by (nonlinear_arith);
    } else {
        let k = count - 1;
        lemma_maki_points_together(rolls, k);
        lemma_greatest_below(rolls, top);
        lemma_greatest(rolls);
        lemma_positions_of(rolls, top);
        assert(rolls.take(count).drop_last() == rolls.take(k));
        assert(rolls.take(count).last() == rolls[k]);
        let tops = occurrences_in_first(rolls, k, top);
        let runners = occurrences_in_first(rolls, k, runner_up);
        assert(occurrences_in_first(rolls, count, top) == tops + if rolls[k] == top {
            1int
        } else {
            0int
        });
        assert(occurrences_in_first(rolls, count, runner_up) == runners + if rolls[k]
            == runner_up {
            1int
        } else {
            0int
        });
        assert(first * (tops + 1) == first * tops + first) by (nonlinear_arith);
        assert(second * (runners + 1) == second * runners + second) by (nonlinear_arith);
        if rolls[k] == top {
            if runner_up == top {
                // all have the most: there is no second prize
                assert(rolls.contains(top));
                assert(second == 0);
                assert(second * (runners + 1) == 0) by (nonlinear_arith)
                    requires
                        second == 0,
                ;
                assert(second * runners == 0) by (nonlinear_arith)
                    requires
                        second == 0,
                ;
            }
        } else if rolls[k] == runner_up {
            assert(runner_up < top);
        }
    }
}

/// No round adds more than both prizes for the maki rolls: all players
/// together get at most `MOST_MAKI_ROLL_POINTS` and
/// `SECOND_MOST_MAKI_POINTS`, which is 9, and never less than nothing.
pub proof fn lemma_maki_prizes_at_most_nine(rolls: Seq<int>)
    ensures
        0 <= maki_points_together(rolls, rolls.len() as int) <= MOST_MAKI_ROLL_POINTS
            + SECOND_MOST_MAKI_POINTS,
{
    let top = greatest(rolls);
    let runner_up = greatest_below(rolls, top);
    let n = occurrences(rolls, top) as int;
    let m = occurrences(rolls, runner_up) as int;
    let first = MOST_MAKI_ROLL_POINTS as int / n;
    let second = second_prize_each(rolls);
    lemma_maki_points_together(rolls, rolls.len() as int);
    assert(rolls.take(rolls.len() as int) == rolls);
    assert(occurrences_in_first(rolls, rolls.len() as int, top) == n);
    assert(occurrences_in_first(rolls, rolls.len() as int, runner_up) == m);
    if n > 0 {
        assert(0 <= (6int / n) * n <= 6) by (nonlinear_arith)
            requires
                n > 0,
        ;
    } else {
        assert(first * n == 0) by (nonlinear_arith)
            requires
                n == 0,
        ;
    }
    if second != 0 {
        if m > 0 {
            assert(0 <= (3int / m) * m <= 3) by (nonlinear_arith)
                requires
                    m > 0,
            ;
        } else {
            assert(second * m == 0) by (nonlinear_arith)
                requires
                    m == 0,
            ;
        }
    } else {
        assert(second * m == 0) by (nonlinear_arith)
            requires
                second == 0,
        ;
    }
}

} // verus!
