//! Training by generations: the matches of a generation pick one parent for
//! the next, on a wheel that gives every winner a share as large as its
//! score.

use vstd::prelude::*;
use crate::chance::random_in_range;
use crate::runner::{
    collect_winners, collect_winning_scores, NeuralNetworkGame, NeuralNetworkGamePlayer,
};

verus! {

/// The scores together.
pub open spec fn total_score(scores: Seq<i32>) -> int
    decreases scores.len(),
{
    if scores.len() == 0 {
        0
    } else {
        scores[0] + total_score(scores.skip(1))
    }
}

/// The scores of the winners before winner `k` together: where the share of
/// winner `k` begins on the wheel.
pub open spec fn score_before(scores: Seq<i32>, k: int) -> int {
    total_score(scores.take(k))
}

/// No score is negative.
pub open spec fn are_shares(scores: Seq<i32>) -> bool {
    forall|i: int| 0 <= i < scores.len() ==> #[trigger] scores[i] >= 0
}

/// The winner that a ticket falls to. The wheel is walked from the first
/// winner on: the score of each winner is taken from the ticket, and the
/// first winner whose score is more than what is left of the ticket is
/// picked; the last winner, where the walk comes to the end.
pub open spec fn wheel_slot(scores: Seq<i32>, ticket: int) -> int
    decreases scores.len(),
{
    if scores.len() <= 1 || ticket < scores[0] {
        0
    } else {
        1 + wheel_slot(scores.skip(1), ticket - scores[0])
    }
}

/// The total of the scores with one more score at the end.
pub proof fn lemma_total_push(scores: Seq<i32>, score: i32)
    ensures
        total_score(scores.push(score)) == total_score(scores) + score,
    decreases scores.len(),
{
    let longer = scores.push(score);
    if scores.len() == 0 {
        assert(longer[0] == score);
        assert(longer.skip(1) == Seq::<i32>::empty());
        assert(total_score(longer.skip(1)) == 0);
    } else {
        lemma_total_push(scores.skip(1), score);
        assert(longer[0] == scores[0]);
        assert(longer.skip(1) == scores.skip(1).push(score));
    }
}

/// The scores before a winner grow with the winner, from nothing to the
/// total.
pub proof fn lemma_score_before(scores: Seq<i32>, k: int)
    requires
        are_shares(scores),
        0 <= k < scores.len(),
    ensures
        score_before(scores, 0) == 0,
        score_before(scores, k + 1) == score_before(scores, k) + scores[k],
        0 <= score_before(scores, k),
        score_before(scores, k + 1) <= total_score(scores),
        score_before(scores, scores.len() as int) == total_score(scores),
    decreases scores.len() - k,
{
    assert(scores.take(k + 1) == scores.take(k).push(scores[k]));
    lemma_total_push(scores.take(k), scores[k]);
    assert(scores.take(scores.len() as int) == scores);
    lemma_shares_add_up(scores.take(k));
    if k + 1 < scores.len() {
        lemma_score_before(scores, k + 1);
        lemma_score_before_step(scores, k + 1);
    }
}

proof fn lemma_score_before_step(scores: Seq<i32>, k: int)
    requires
        0 <= k < scores.len(),
    ensures
        score_before(scores, k + 1) == score_before(scores, k) + scores[k],
{
    assert(scores.take(k + 1) == scores.take(k).push(scores[k]));
    lemma_total_push(scores.take(k), scores[k]);
}

/// Scores that are not negative add up to a total that is not negative.
pub proof fn lemma_shares_add_up(scores: Seq<i32>)
    requires
        are_shares(scores),
    ensures
        total_score(scores) >= 0,
    decreases scores.len(),
{
    if scores.len() > 0 {
        assert(scores[0] >= 0);
        assert forall|i: int| 0 <= i < scores.skip(1).len() implies #[trigger] scores.skip(1)[i]
            >= 0 by {
            assert(scores[i + 1] >= 0);
        }
        lemma_shares_add_up(scores.skip(1));
    }
}

/// The wheel is fair: the tickets that fall to a winner are those from the
/// scores before the winner up to, but not including, these and the
/// winner's own score. So every winner is picked by as many tickets as its
/// score counts, out of as many tickets as the total, and a winner that
/// scored nothing by none.
pub proof fn lemma_wheel_is_fair(scores: Seq<i32>, ticket: int, k: int)
    requires
        are_shares(scores),
        0 <= ticket < total_score(scores),
        0 <= k < scores.len(),
    ensures
        0 <= wheel_slot(scores, ticket) < scores.len(),
        wheel_slot(scores, ticket) == k <==> score_before(scores, k) <= ticket < score_before(
            scores,
            k,
        ) + scores[k],
    decreases scores.len(),
{
    let rest = scores.skip(1);
    assert(scores[0] >= 0);
    assert forall|i: int| 0 <= i < rest.len() implies #[trigger] rest[i] >= 0 by {
        assert(scores[i + 1] >= 0);
    }
    assert(scores.take(0) == Seq::<i32>::empty());
    if scores.len() == 1 {
        assert(rest == Seq::<i32>::empty());
        assert(scores.take(1) == scores);
    } else if ticket < scores[0] {
        if k > 0 {
            lemma_score_before_from_second(scores, k);
            lemma_shares_add_up(rest.take(k - 1));
            assert forall|i: int| 0 <= i < rest.take(k - 1).len() implies #[trigger] rest.take(
                k - 1,
            )[i] >= 0 by {}
        }
    } else {
        if k > 0 {
            lemma_wheel_is_fair(rest, ticket - scores[0], k - 1);
            lemma_score_before_from_second(scores, k);
        } else {
            lemma_wheel_is_fair(rest, ticket - scores[0], 0);
        }
    }
}

/// The scores before a winner that is not the first are the first score and
/// the scores before the winner among the others.
proof fn lemma_score_before_from_second(scores: Seq<i32>, k: int)
    requires
        1 <= k <= scores.len(),
    ensures
        score_before(scores, k) == scores[0] + score_before(scores.skip(1), k - 1),
{
    assert(scores.take(k).skip(1) == scores.skip(1).take(k - 1));
    assert(scores.take(k)[0] == scores[0]);
}

/// The winner that a ticket falls to on the wheel.
pub fn pick_slot(scores: &Vec<i32>, ticket: usize) -> (index: usize)
    requires
        scores@.len() > 0,
        are_shares(scores@),
    ensures
        index == wheel_slot(scores@, ticket as int),
        index < scores@.len(),
{
    let mut index: usize = 0;
    let mut left: usize = ticket;
    proof {
        assert(scores@.skip(0) == scores@);
    }
    while index < scores.len() - 1 && left >= scores[index] as usize
        invariant
            index < scores@.len(),
            are_shares(scores@),
            wheel_slot(scores@, ticket as int) == index + wheel_slot(
                scores@.skip(index as int),
                left as int,
            ),
        decreases scores@.len() - index,
    {
        proof {
            let rest = scores@.skip(index as int);
            assert(rest[0] == scores@[index as int]);
            assert(rest.skip(1) == scores@.skip(index + 1));
            assert(scores@[index as int] >= 0);
        }
        left = left - scores[index] as usize;
        index = index + 1;
    }
    proof {
        let rest = scores@.skip(index as int);
        assert(rest[0] == scores@[index as int]);
        assert(scores@[index as int] >= 0);
    }
    index
}

/// The scores together. They must fit the counter.
pub fn sum_scores(scores: &Vec<i32>) -> (total: usize)
    requires
        are_shares(scores@),
        total_score(scores@) <= usize::MAX,
    ensures
        total == total_score(scores@),
{
    let mut total: usize = 0;
    let mut i: usize = 0;
    while i < scores.len()
        invariant
            i <= scores@.len(),
            are_shares(scores@),
            total_score(scores@) <= usize::MAX,
            total == score_before(scores@, i as int),
        decreases scores@.len() - i,
    {
        proof {
            lemma_score_before(scores@, i as int);
        }
        total = total + scores[i] as usize;
        i = i + 1;
    }
    proof {
        assert(scores@.take(i as int) == scores@);
        assert(scores@.take(0) == Seq::<i32>::empty());
    }
    total
}

/// Picks one of the winners by lot, each with a chance in proportion to its
/// score: a ticket is drawn from as many tickets as the scores count
/// together, and the winner that the ticket falls to is picked. Where
/// nobody scored, the first winner is picked.
pub fn pick_one(scores: &Vec<i32>) -> (index: usize)
    requires
        scores@.len() > 0,
        are_shares(scores@),
        total_score(scores@) <= usize::MAX,
    ensures
        index < scores@.len(),
        total_score(scores@) == 0 ==> index == 0,
        total_score(scores@) > 0 ==> exists|ticket: int|
            0 <= ticket < total_score(scores@) && index == #[trigger] wheel_slot(scores@, ticket),
        total_score(scores@) > 0 ==> scores@[index as int] > 0,
{
    let total = sum_scores(scores);
    if total == 0 {
        return 0;
    }
    let ticket = random_in_range(0, total);
    let index = pick_slot(scores, ticket);
    proof {
        lemma_wheel_is_fair(scores@, ticket as int, index as int);
    }
    index
}

/// Picks the parent of the next generation among the winners of the matches
/// of this one, by `pick_one` on their final scores: a copy of the agent
/// that won the match that was picked.
pub fn pick_parent<P: Clone>(games: &Vec<NeuralNetworkGame<P>>) -> (parent: NeuralNetworkGamePlayer<
    P,
>)
    requires
        games@.len() > 0,
        forall|j: int| 0 <= j < games@.len() ==> (#[trigger] games@[j]).wf(),
        are_shares(winning_scores(games@)),
        total_score(winning_scores(games@)) <= usize::MAX,
    ensures
        exists|j: int|
            0 <= j < games@.len() && parent.is_copy_of(
                (#[trigger] games@[j]).agents()[games@[j].game_view().winner as int],
            ) && (total_score(winning_scores(games@)) > 0 ==> games@[j].game_view().winning_score()
                > 0) && (total_score(winning_scores(games@)) == 0 ==> j == 0),
{
    let scores = collect_winning_scores(games);
    let mut winners = collect_winners(games);
    proof {
        assert(scores@ == winning_scores(games@));
    }
    let picked = pick_one(&scores);
    let parent = winners.remove(picked);
    proof {
        assert(games@[picked as int].wf());
    }
    parent
}

/// The final scores of the winners of the matches, match by match.
pub open spec fn winning_scores<P: Clone>(games: Seq<NeuralNetworkGame<P>>) -> Seq<i32> {
    Seq::new(games.len(), |j: int| games[j].game_view().winning_score())
}

} // verus!
