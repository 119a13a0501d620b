//! The knock-out tournament: how many matches each round has, and how many
//! agents it takes.

use vstd::prelude::*;
use crate::runner::NUMBER_OF_PLAYERS;

verus! {

/// The rounds of a tournament.
pub const NUMBER_OF_ROUNDS: usize = 2;

/// The most rounds before the end for which the number of matches fits a
/// 32-bit signed number.
pub const MAX_ROUNDS_TO_GO: usize = 15;

/// The matches of the round that lies `rounds_to_go` rounds before the last:
/// one in the last round, and `NUMBER_OF_PLAYERS` times as many in every
/// round before.
pub open spec fn matches_in_round(rounds_to_go: nat) -> nat
    decreases rounds_to_go,
{
    if rounds_to_go == 0 {
        1
    } else {
        NUMBER_OF_PLAYERS as nat * matches_in_round((rounds_to_go - 1) as nat)
    }
}

/// The agents that the round takes: a table full for every match.
pub open spec fn agents_in_round(rounds_to_go: nat) -> nat {
    matches_in_round(rounds_to_go) * NUMBER_OF_PLAYERS as nat
}

/// Every round has at least one match, and an earlier round has more of
/// them.
pub proof fn lemma_matches_grow(rounds_to_go: nat, later: nat)
    requires
        later <= rounds_to_go,
    ensures
        1 <= matches_in_round(later) <= matches_in_round(rounds_to_go),
    decreases rounds_to_go,
{
    if rounds_to_go > later {
        lemma_matches_grow((rounds_to_go - 1) as nat, later);
    } else if later > 0 {
        lemma_matches_grow((rounds_to_go - 1) as nat, (later - 1) as nat);
    }
}

/// The matches of the earliest round that fits.
proof fn lemma_matches_at_most()
    ensures
        matches_in_round(MAX_ROUNDS_TO_GO as nat) == 1073741824,
{
    reveal_with_fuel(matches_in_round, 17);
}

/// The bracket closes: the winners of a round, one from each match, are
/// exactly the agents that the next round takes; the first round of a
/// tournament of `rounds` rounds takes `NUMBER_OF_PLAYERS` to the power of
/// `rounds` agents; and the last round is one match, which leaves one
/// champion.
pub proof fn lemma_bracket_closes(rounds_to_go: nat)
    ensures
        matches_in_round(rounds_to_go + 1) == agents_in_round(rounds_to_go),
        agents_in_round(rounds_to_go) == NUMBER_OF_PLAYERS * matches_in_round(rounds_to_go),
        matches_in_round(0) == 1,
        agents_in_round(0) == NUMBER_OF_PLAYERS,
{
    assert(matches_in_round(rounds_to_go) * NUMBER_OF_PLAYERS as nat == NUMBER_OF_PLAYERS as nat
        * matches_in_round(rounds_to_go)) by (nonlinear_arith);
}

/// The matches of the round that lies `rounds_to_go` rounds before the last.
pub fn games_in_round(rounds_to_go: usize) -> (games: usize)
    requires
        rounds_to_go <= MAX_ROUNDS_TO_GO,
    ensures
        games == matches_in_round(rounds_to_go as nat),
        1 <= games <= i32::MAX,
{
    let mut games: usize = 1;
    let mut i: usize = 0;
    while i < rounds_to_go
        invariant
            i <= rounds_to_go <= MAX_ROUNDS_TO_GO,
            games == matches_in_round(i as nat),
        decreases rounds_to_go - i,
    {
        proof {
            lemma_matches_grow(MAX_ROUNDS_TO_GO as nat, (i + 1) as nat);
            lemma_matches_at_most();
        }
        games = games * NUMBER_OF_PLAYERS;
        i = i + 1;
    }
    proof {
        lemma_matches_grow(MAX_ROUNDS_TO_GO as nat, rounds_to_go as nat);
        lemma_matches_at_most();
    }
    games
}

/// The agents that a tournament of `NUMBER_OF_ROUNDS` rounds starts with.
pub fn first_round_players() -> (players: usize)
    ensures
        players == agents_in_round((NUMBER_OF_ROUNDS - 1) as nat),
        players == matches_in_round(NUMBER_OF_ROUNDS as nat),
{
    // Work out how many games will be in the first round and create players for each game.
    let first_round_games = games_in_round(NUMBER_OF_ROUNDS - 1);
    proof {
        lemma_bracket_closes((NUMBER_OF_ROUNDS - 1) as nat);
        lemma_matches_grow(MAX_ROUNDS_TO_GO as nat, NUMBER_OF_ROUNDS as nat);
        lemma_matches_at_most();
    }
    first_round_games * NUMBER_OF_PLAYERS
}

} // verus!
