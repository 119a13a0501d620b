//! A match: one game and the agents bound to its seats.

use vstd::prelude::*;
use crate::card::Card;
use crate::chance::random_in_range;
use crate::game::{standard_deck, GameView, StepResult, SushiGoGame};
use crate::turn::{
    is_top_scorer, lemma_current_player_can_play, next_state, opening, step_result,
};

verus! {

/// The players of a match.
pub const NUMBER_OF_PLAYERS: usize = 4;

/// How the player in a seat decides.
#[derive(Clone, Copy, Debug, PartialEq, Eq, Structural)]
pub enum NeuralNetworkGamePlayerType {
    NeuralNetwork,
    Human,
    Random,
}

impl NeuralNetworkGamePlayerType {
    pub fn is_random(&self) -> (yes: bool)
        ensures
            yes == (*self == NeuralNetworkGamePlayerType::Random),
    {
        match *self {
            NeuralNetworkGamePlayerType::Random => true,
            _ => false,
        }
    }

    pub fn is_human(&self) -> (yes: bool)
        ensures
            yes == (*self == NeuralNetworkGamePlayerType::Human),
    {
        match *self {
            NeuralNetworkGamePlayerType::Human => true,
            _ => false,
        }
    }
}

/// An agent: the way it decides, and the policy it decides by. The match
/// carries the policy and never looks into it.
pub struct NeuralNetworkGamePlayer<P> {
    pub player_type: NeuralNetworkGamePlayerType,
    pub nn: P,
}

impl<P: Clone> NeuralNetworkGamePlayer<P> {
    pub fn new(player_type: NeuralNetworkGamePlayerType, nn: P) -> (player: Self)
        ensures
            player.player_type == player_type,
            player.nn == nn,
    {
        NeuralNetworkGamePlayer { player_type, nn }
    }

    /// Whether `self` is a copy of the agent `model`: of the same type, with
    /// a policy that the policy's own `clone` made of the model's.
    pub open spec fn is_copy_of(self, model: Self) -> bool {
        &&& self.player_type == model.player_type
        &&& cloned(model.nn, self.nn)
    }

    /// An agent of the same type, with a copy of the policy.
    pub fn clone(&self) -> (copy: Self)
        ensures
            copy.is_copy_of(*self),
    {
        NeuralNetworkGamePlayer { player_type: self.player_type, nn: self.nn.clone() }
    }
}

/// The types of the agents, seat by seat.
pub open spec fn types_of<P>(players: Seq<NeuralNetworkGamePlayer<P>>) -> Seq<
    NeuralNetworkGamePlayerType,
> {
    Seq::new(players.len(), |i: int| players[i].player_type)
}

/// A game and the agents that play it, one for each seat.
pub struct NeuralNetworkGame<P> {
    game: SushiGoGame,
    players: Vec<NeuralNetworkGamePlayer<P>>,
}

impl<P: Clone> NeuralNetworkGame<P> {
    /// The game of the match, as plain values.
    pub closed spec fn game_view(&self) -> GameView {
        self.game@
    }

    /// The agents of the match, seat by seat.
    pub closed spec fn agents(&self) -> Seq<NeuralNetworkGamePlayer<P>> {
        self.players@
    }

    /// The match is in order: the game is, and every seat has its agent.
    pub open spec fn wf(&self) -> bool {
        &&& self.game_view().wf()
        &&& self.agents().len() == self.game_view().players.len()
    }

    /// Binds the agents to the seats of a game that is set up, one for each.
    pub fn new(game: SushiGoGame, players: Vec<NeuralNetworkGamePlayer<P>>) -> (bound: Self)
        requires
            game@.wf(),
            players@.len() == game@.players.len(),
        ensures
            bound.game_view() == game@,
            bound.agents() == players@,
            bound.wf(),
    {
        NeuralNetworkGame { game, players }
    }

    /// The agent in the seat of the winner.
    pub fn get_winning_nn(&self) -> (winner: NeuralNetworkGamePlayer<P>)
        requires
            self.wf(),
        ensures
            winner.is_copy_of(self.agents()[self.game_view().winner as int]),
    {
        self.players[self.game.get_winner()].clone()
    }

    /// The seat of the winner.
    pub fn get_winning_id(&self) -> (id: usize)
        ensures
            id == self.game_view().winner,
    {
        self.game.get_winner()
    }

    pub fn get_game(&self) -> (game: &SushiGoGame)
        ensures
            game@ == self.game_view(),
    {
        &self.game
    }

    /// The agent in a seat.
    pub fn get_player(&self, seat: usize) -> (player: &NeuralNetworkGamePlayer<P>)
        requires
            seat < self.agents().len(),
        ensures
            *player == self.agents()[seat as int],
    {
        &self.players[seat]
    }

    /// Whether one of the agents is human.
    pub fn has_human(&self) -> (found: bool)
        ensures
            found == types_of(self.agents()).contains(NeuralNetworkGamePlayerType::Human),
    {
        let mut i: usize = 0;
        while i < self.players.len()
            invariant
                i <= self.players@.len(),
                forall|j: int|
                    0 <= j < i ==> types_of(self.players@)[j]
                        != NeuralNetworkGamePlayerType::Human,
            decreases self.players@.len() - i,
        {
            if self.players[i].player_type.is_human() {
                proof {
                    assert(types_of(self.players@)[i as int]
                        == NeuralNetworkGamePlayerType::Human);
                }
                return true;
            }
            i = i + 1;
        }
        false
    }

    /// Plays the card that the agent of the current player chose, as
    /// `SushiGoGame::step` does.
    pub fn play_card(&mut self, action: Card) -> (result: StepResult)
        requires
            old(self).wf(),
            !old(self).game_view().game_over,
            old(self).game_view().allows(action),
        ensures
            final(self).game_view() == (GameView {
                winner: final(self).game_view().winner,
                ..next_state(old(self).game_view(), action)
            }),
            final(self).agents() == old(self).agents(),
            result == step_result(old(self).game_view(), action),
            final(self).wf(),
            0 <= final(self).game_view().steps_left() < old(self).game_view().steps_left(),
            final(self).game_view().game_over <==> result == StepResult::GameOver,
            final(self).game_view().game_over ==> is_top_scorer(
                final(self).game_view().players,
                final(self).game_view().winner as int,
            ),
            final(self).game_view().game_over ==> final(self).game_view().winning_score() >= 0,
            !final(self).game_view().game_over ==> final(self).game_view().winner
                == old(self).game_view().winner,
    {
        self.game.step(action)
    }
}

impl<P: Clone> NeuralNetworkGame<P> {
    /// Whether the match waits for an agent that does not pick at random:
    /// the game is not over, and such an agent is on.
    pub open spec fn waits_for_agent(&self) -> bool {
        &&& !self.game_view().game_over
        &&& self.agents()[self.game_view().current_player as int].player_type
            != NeuralNetworkGamePlayerType::Random
    }

    /// Plays the turns of the agents that pick at random, one after the
    /// other, until the game is over or an agent of another type is on.
    /// Says whether the game is over. A match of random agents alone is
    /// played to its end. What is played is a run of steps of the game, each
    /// with a card of the hand of the random agent whose turn it is.
    pub fn play_random_turns(&mut self) -> (finished: bool)
        requires
            old(self).wf(),
        ensures
            final(self).wf(),
            final(self).agents() == old(self).agents(),
            finished == final(self).game_view().game_over,
            !finished ==> final(self).waits_for_agent(),
            exists|actions: Seq<Card>| #[trigger]
                random_run(types_of(old(self).agents()), old(self).game_view(), actions)
                    && final(self).game_view() == (GameView {
                    winner: final(self).game_view().winner,
                    ..played_out(old(self).game_view(), actions)
                }),
            final(self).game_view().steps_left() <= old(self).game_view().steps_left(),
            old(self).game_view().game_over || old(self).waits_for_agent()
                ==> final(self).game_view() == old(self).game_view(),
            finished && !old(self).game_view().game_over ==> is_top_scorer(
                final(self).game_view().players,
                final(self).game_view().winner as int,
            ),
            finished && !old(self).game_view().game_over ==> final(self).game_view().winning_score()
                >= 0,
            !finished ==> final(self).game_view().winner == old(self).game_view().winner,
    {
        let ghost start = self.game_view();
        let ghost types = types_of(self.agents());
        let ghost mut actions: Seq<Card> = Seq::empty();
        while !self.game.is_over()
            && self.players[self.game.get_current_player_id()].player_type.is_random()
            invariant
                self.wf(),
                start == old(self).game_view(),
                types == types_of(old(self).agents()),
                self.agents() == old(self).agents(),
                random_run(types, start, actions),
                self.game_view() == (GameView {
                    winner: self.game_view().winner,
                    ..played_out(start, actions)
                }),
                !self.game_view().game_over ==> self.game_view().winner == start.winner,
                actions.len() == 0 ==> self.game_view() == start,
                actions.len() > 0 ==> !start.game_over && !old(self).waits_for_agent(),
                self.game_view().steps_left() <= start.steps_left(),
                self.game_view().game_over && !start.game_over ==> is_top_scorer(
                    self.game_view().players,
                    self.game_view().winner as int,
                ),
                self.game_view().game_over && !start.game_over
                    ==> self.game_view().winning_score() >= 0,
            decreases self.game_view().steps_left(),
        {
            let ghost before = self.game_view();
            proof {
                lemma_current_player_can_play(before);
                lemma_played_out_keeps_winner(start, actions);
                assert(before == played_out(start, actions));
                assert(types[before.current_player as int] == NeuralNetworkGamePlayerType::Random);
            }
            let card = do_random_turn(&self.game);
            self.game.step(card);
            proof {
                let longer = actions.push(card);
                assert(longer.drop_last() == actions);
                lemma_played_out_keeps_winner(start, longer);
                actions = longer;
            }
        }
        proof {
            lemma_played_out_keeps_winner(start, actions);
        }
        self.game.is_over()
    }
}

/// The game after the given actions, each played by one step; the winner is
/// left aside, who is drawn by lot when the game ends.
pub open spec fn played_out(g: GameView, actions: Seq<Card>) -> GameView
    decreases actions.len(),
{
    if actions.len() == 0 {
        g
    } else {
        next_state(played_out(g, actions.drop_last()), actions.last())
    }
}

/// Whether the actions are a run of turns of agents that pick at random:
/// when an action is taken, the game is not over, an agent that picks at
/// random is on, and the action is a card of the hand of the current player.
pub open spec fn random_run(
    types: Seq<NeuralNetworkGamePlayerType>,
    g: GameView,
    actions: Seq<Card>,
) -> bool
    decreases actions.len(),
{
    actions.len() == 0 || {
        let before = played_out(g, actions.drop_last());
        &&& random_run(types, g, actions.drop_last())
        &&& !before.game_over
        &&& types[before.current_player as int] == NeuralNetworkGamePlayerType::Random
        &&& before.allows(actions.last())
    }
}

/// No step names a winner: whatever is played, the winner of `played_out`
/// is the one the game started with.
pub proof fn lemma_played_out_keeps_winner(g: GameView, actions: Seq<Card>)
    ensures
        played_out(g, actions).winner == g.winner,
    decreases actions.len(),
{
    if actions.len() > 0 {
        lemma_played_out_keeps_winner(g, actions.drop_last());
    }
}

/// The types of the agents of one match, seat by seat: first the human
/// players, then those that pick at random, and a policy network in every
/// seat that is left.
pub open spec fn seat_types(humans: int, randoms: int) -> Seq<NeuralNetworkGamePlayerType> {
    Seq::new(
        NUMBER_OF_PLAYERS as nat,
        |seat: int|
            if seat < humans {
                NeuralNetworkGamePlayerType::Human
            } else if seat < humans + randoms {
                NeuralNetworkGamePlayerType::Random
            } else {
                NeuralNetworkGamePlayerType::NeuralNetwork
            },
    )
}

/// The types of the agents of one match, seat by seat. The human and the
/// random players together must find seats.
pub fn seat_plan(number_of_random_players: usize, number_of_human_players: usize) -> (types: Vec<
    NeuralNetworkGamePlayerType,
>)
    requires
        number_of_random_players + number_of_human_players <= NUMBER_OF_PLAYERS,
    ensures
        types@ == seat_types(number_of_human_players as int, number_of_random_players as int),
{
    // Work out how many neural networks we need.
    let number_of_neural_networks = NUMBER_OF_PLAYERS - number_of_random_players
        - number_of_human_players;
    let mut types: Vec<NeuralNetworkGamePlayerType> = Vec::new();
    let ghost plan = seat_types(number_of_human_players as int, number_of_random_players as int);

    let mut k: usize = 0;
    while k < number_of_human_players
        invariant
            k <= number_of_human_players,
            number_of_random_players + number_of_human_players <= NUMBER_OF_PLAYERS,
            plan == seat_types(number_of_human_players as int, number_of_random_players as int),
            types@ == plan.take(k as int),
        decreases number_of_human_players - k,
    {
        types.push(NeuralNetworkGamePlayerType::Human);
        proof {
            assert(plan.take(k + 1) == plan.take(k as int).push(plan[k as int]));
        }
        k = k + 1;
    }
    k = 0;
    while k < number_of_random_players
        invariant
            k <= number_of_random_players,
            number_of_random_players + number_of_human_players <= NUMBER_OF_PLAYERS,
            plan == seat_types(number_of_human_players as int, number_of_random_players as int),
            types@ == plan.take(number_of_human_players + k),
        decreases number_of_random_players - k,
    {
        types.push(NeuralNetworkGamePlayerType::Random);
        proof {
            let at = number_of_human_players + k;
            assert(plan.take(at + 1) == plan.take(at as int).push(plan[at as int]));
        }
        k = k + 1;
    }
    k = 0;
    while k < number_of_neural_networks
        invariant
            k <= number_of_neural_networks,
            number_of_neural_networks == NUMBER_OF_PLAYERS - number_of_random_players
                - number_of_human_players,
            number_of_random_players + number_of_human_players <= NUMBER_OF_PLAYERS,
            plan == seat_types(number_of_human_players as int, number_of_random_players as int),
            types@ == plan.take(number_of_human_players + number_of_random_players + k),
        decreases number_of_neural_networks - k,
    {
        types.push(NeuralNetworkGamePlayerType::NeuralNetwork);
        proof {
            let at = number_of_human_players + number_of_random_players + k;
            assert(plan.take(at + 1) == plan.take(at as int).push(plan[at as int]));
        }
        k = k + 1;
    }
    proof {
        assert(plan.take(NUMBER_OF_PLAYERS as int) == plan);
    }
    types
}

/// The agents that won the matches, match by match: each a copy of the
/// agent in the seat of the winner.
pub fn collect_winners<P: Clone>(games: &Vec<NeuralNetworkGame<P>>) -> (winners: Vec<
    NeuralNetworkGamePlayer<P>,
>)
    requires
        forall|j: int| 0 <= j < games@.len() ==> (#[trigger] games@[j]).wf(),
    ensures
        winners@.len() == games@.len(),
        forall|j: int|
            0 <= j < games@.len() ==> (#[trigger] winners@[j]).is_copy_of(
                games@[j].agents()[games@[j].game_view().winner as int],
            ),
{
    let mut winners: Vec<NeuralNetworkGamePlayer<P>> = Vec::new();
    let mut j: usize = 0;
    while j < games.len()
        invariant
            j <= games@.len(),
            forall|j: int| 0 <= j < games@.len() ==> (#[trigger] games@[j]).wf(),
            winners@.len() == j,
            forall|i: int|
                0 <= i < j ==> (#[trigger] winners@[i]).is_copy_of(
                    games@[i].agents()[games@[i].game_view().winner as int],
                ),
        decreases games@.len() - j,
    {
        winners.push(games[j].get_winning_nn());
        j = j + 1;
    }
    winners
}

/// How many of the matches the player in that seat has won.
pub open spec fn wins_of<P: Clone>(games: Seq<NeuralNetworkGame<P>>, seat: int) -> nat
    decreases games.len(),
{
    if games.len() == 0 {
        0
    } else {
        wins_of(games.drop_last(), seat) + if games.last().game_view().winner == seat {
            1nat
        } else {
            0nat
        }
    }
}

/// Adds to the count of each seat the matches that its player has won.
pub fn count_wins<P: Clone>(games: &Vec<NeuralNetworkGame<P>>, win_counter: &mut Vec<usize>)
    requires
        old(win_counter)@.len() == NUMBER_OF_PLAYERS,
        forall|j: int| 0 <= j < games@.len() ==> (#[trigger] games@[j]).wf(),
        forall|seat: int|
            0 <= seat < NUMBER_OF_PLAYERS ==> #[trigger] old(win_counter)@[seat] + games@.len()
                <= usize::MAX,
    ensures
        final(win_counter)@.len() == NUMBER_OF_PLAYERS,
        forall|seat: int|
            0 <= seat < NUMBER_OF_PLAYERS ==> #[trigger] final(win_counter)@[seat] == old(
                win_counter,
            )@[seat] + wins_of(games@, seat),
{
    let mut j: usize = 0;
    while j < games.len()
        invariant
            j <= games@.len(),
            win_counter@.len() == NUMBER_OF_PLAYERS,
            forall|j: int| 0 <= j < games@.len() ==> (#[trigger] games@[j]).wf(),
            forall|seat: int|
                0 <= seat < NUMBER_OF_PLAYERS ==> #[trigger] old(win_counter)@[seat] + games@.len()
                    <= usize::MAX,
            forall|seat: int|
                0 <= seat < NUMBER_OF_PLAYERS ==> #[trigger] win_counter@[seat] == old(
                    win_counter,
                )@[seat] + wins_of(games@.take(j as int), seat),
            forall|seat: int|
                0 <= seat < NUMBER_OF_PLAYERS ==> #[trigger] wins_of(games@.take(j as int), seat)
                    <= j,
            old(win_counter)@.len() == NUMBER_OF_PLAYERS,
        decreases games@.len() - j,
    {
        proof {
            assert(games@[j as int].wf());
            assert(games@.take(j + 1).drop_last() == games@.take(j as int));
            assert(games@.take(j + 1).last() == games@[j as int]);
            assert forall|seat: int| 0 <= seat < NUMBER_OF_PLAYERS implies #[trigger] wins_of(
                games@.take(j + 1),
                seat,
            ) <= j + 1 by {
                assert(wins_of(games@.take(j as int), seat) <= j);
            }
        }
        let winner = games[j].get_winning_id();
        win_counter[winner] = win_counter[winner] + 1;
        j = j + 1;
    }
    proof {
        assert(games@.take(j as int) == games@);
    }
}

/// The children of one parent for a generation of `games` matches: a copy of
/// the parent for every seat of every match.
pub fn offspring<P: Clone>(parent: &NeuralNetworkGamePlayer<P>, games: usize) -> (children: Vec<
    NeuralNetworkGamePlayer<P>,
>)
    requires
        games * NUMBER_OF_PLAYERS <= usize::MAX,
    ensures
        children@.len() == games * NUMBER_OF_PLAYERS,
        forall|i: int| 0 <= i < children@.len() ==> (#[trigger] children@[i]).is_copy_of(*parent),
{
    let mut children: Vec<NeuralNetworkGamePlayer<P>> = Vec::new();
    let count = games * NUMBER_OF_PLAYERS;
    let mut i: usize = 0;
    while i < count
        invariant
            i <= count,
            count == games * NUMBER_OF_PLAYERS,
            children@.len() == i,
            forall|k: int| 0 <= k < i ==> (#[trigger] children@[k]).is_copy_of(*parent),
        decreases count - i,
    {
        children.push(parent.clone());
        i = i + 1;
    }
    children
}

/// The final scores of the winners of the matches, match by match.
pub fn collect_winning_scores<P: Clone>(games: &Vec<NeuralNetworkGame<P>>) -> (scores: Vec<i32>)
    requires
        forall|j: int| 0 <= j < games@.len() ==> (#[trigger] games@[j]).wf(),
    ensures
        scores@.len() == games@.len(),
        forall|j: int|
            0 <= j < games@.len() ==> #[trigger] scores@[j]
                == games@[j].game_view().players[games@[j].game_view().winner as int].final_score,
{
    let mut scores: Vec<i32> = Vec::new();
    let mut j: usize = 0;
    while j < games.len()
        invariant
            j <= games@.len(),
            forall|j: int| 0 <= j < games@.len() ==> (#[trigger] games@[j]).wf(),
            scores@.len() == j,
            forall|i: int|
                0 <= i < j ==> #[trigger] scores@[i]
                    == games@[i].game_view().players[games@[i].game_view().winner as int].final_score,
        decreases games@.len() - j,
    {
        proof {
            assert(games@[j as int].wf());
        }
        scores.push(games[j].get_game().get_winning_score());
        j = j + 1;
    }
    scores
}

/// The slots of a hand that the random player draws from: all but the last,
/// where the hand holds more than one card.
pub open spec fn random_slots(hand_size: int) -> int {
    if hand_size - 1 > 0 {
        hand_size - 1
    } else {
        1
    }
}

/// The turn of a player who picks at random: the card in a slot of the hand
/// that is drawn from all slots but the last, or the only card of the hand.
/// Which slot is drawn is left to chance.
pub fn do_random_turn(game: &SushiGoGame) -> (card: Card)
    requires
        game@.current_player < game@.players.len(),
        game@.players[game@.current_player as int].hand.len() > 0,
    ensures
        exists|slot: int|
            0 <= slot < random_slots(game@.players[game@.current_player as int].hand.len() as int)
                && card == #[trigger] game@.players[game@.current_player as int].hand[slot],
        game@.allows(card),
{
    let current_hand = game.get_current_player().get_hand();

    let mut rand_index: usize = 0;

    if current_hand.len() - 1 > 0 {
        rand_index = random_in_range(0, current_hand.len() - 1);
    }
    current_hand[rand_index]
}

/// The agents that the match with number `game` takes from the pool: the
/// matches are served one after the other from the end of the pool, each
/// with `NUMBER_OF_PLAYERS` agents, the last of the pool first.
pub open spec fn seated<P>(pool: Seq<NeuralNetworkGamePlayer<P>>, game: int) -> Seq<
    NeuralNetworkGamePlayer<P>,
> {
    Seq::new(
        NUMBER_OF_PLAYERS as nat,
        |seat: int| pool[pool.len() - 1 - (NUMBER_OF_PLAYERS * game + seat)],
    )
}

/// Whether the game has just been set up: the first hands are dealt from a
/// shuffled deck.
pub open spec fn just_opened(g: GameView) -> bool {
    exists|shuffled: Seq<Card>| #[trigger]
        shuffled.to_multiset() == standard_deck().to_multiset() && g == opening(
            shuffled,
            NUMBER_OF_PLAYERS,
            0,
        )
}

/// Sets up `number_of_games` matches and puts them behind `games`. Each
/// takes its agents from the end of the pool, which must hold enough of
/// them, so that no agent sits in two matches.
pub fn create_games<P: Clone>(
    games: &mut Vec<NeuralNetworkGame<P>>,
    number_of_games: usize,
    nn: &mut Vec<NeuralNetworkGamePlayer<P>>,
)
    requires
        old(nn)@.len() >= number_of_games * NUMBER_OF_PLAYERS,
    ensures
        final(nn)@ == old(nn)@.take(old(nn)@.len() - number_of_games * NUMBER_OF_PLAYERS),
        final(games)@.len() == old(games)@.len() + number_of_games,
        forall|j: int| 0 <= j < old(games)@.len() ==> final(games)@[j] == old(games)@[j],
        forall|j: int|
            old(games)@.len() <= j < final(games)@.len() ==> {
                &&& (#[trigger] final(games)@[j]).wf()
                &&& just_opened(final(games)@[j].game_view())
                &&& final(games)@[j].agents() == seated(old(nn)@, j - old(games)@.len())
            },
{
    let ghost pool = nn@;
    let ghost before = games@;
    // Add the number of games we need.
    let mut j: usize = 0;
    while j < number_of_games
        invariant
            j <= number_of_games,
            pool.len() >= number_of_games * NUMBER_OF_PLAYERS,
            pool == old(nn)@,
            before == old(games)@,
            nn@ == pool.take(pool.len() - j * NUMBER_OF_PLAYERS),
            games@.len() == before.len() + j,
            forall|i: int| 0 <= i < before.len() ==> games@[i] == before[i],
            forall|i: int|
                before.len() <= i < games@.len() ==> {
                    &&& (#[trigger] games@[i]).wf()
                    &&& just_opened(games@[i].game_view())
                    &&& games@[i].agents() == seated(pool, i - before.len())
                },
        decreases number_of_games - j,
    {
        // Create a new game and a vector to hold the players.
        let mut new_game = SushiGoGame::new(NUMBER_OF_PLAYERS);

        // Setup the game.
        new_game.setup();

        let mut new_game_nn: Vec<NeuralNetworkGamePlayer<P>> = Vec::new();

        // Pull the players from the pool.
        let mut k: usize = 0;
        while k < NUMBER_OF_PLAYERS
            invariant
                k <= NUMBER_OF_PLAYERS,
                j < number_of_games,
                pool.len() >= number_of_games * NUMBER_OF_PLAYERS,
                nn@ == pool.take(pool.len() - j * NUMBER_OF_PLAYERS - k),
                new_game_nn@ == seated(pool, j as int).take(k as int),
            decreases NUMBER_OF_PLAYERS - k,
        {
            // Add the player to the list of players to be used in this game.
            let last = nn.len() - 1;
            new_game_nn.push(nn.remove(last));
            proof {
                let seats = seated(pool, j as int);
                assert(seats.take(k + 1) == seats.take(k as int).push(seats[k as int]));
                assert(nn@ == pool.take(pool.len() - j * NUMBER_OF_PLAYERS - (k + 1)));
            }
            k = k + 1;
        }
        proof {
            let seats = seated(pool, j as int);
            assert(seats.take(NUMBER_OF_PLAYERS as int) == seats);
        }

        // Add the game to the list of games in this round.
        games.push(NeuralNetworkGame::new(new_game, new_game_nn));
        j = j + 1;
    }
}

/// No agent is seated twice: two different seats, in one match or in two,
/// take different places of the pool.
pub proof fn lemma_seats_are_disjoint(game_a: int, seat_a: int, game_b: int, seat_b: int)
    requires
        0 <= game_a,
        0 <= game_b,
        0 <= seat_a < NUMBER_OF_PLAYERS,
        0 <= seat_b < NUMBER_OF_PLAYERS,
        game_a != game_b || seat_a != seat_b,
    ensures
        NUMBER_OF_PLAYERS * game_a + seat_a != NUMBER_OF_PLAYERS * game_b + seat_b,
{
}

} // verus!
