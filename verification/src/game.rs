//! The game: the deck, the table of players and the turn of play.

use vstd::prelude::*;
use crate::card::Card;
use crate::chance::shuffle;
use crate::pile::{lemma_count_contains, lemma_remove_first, remove_first, without};
use crate::player::{new_player, views, Player, PlayerView};
use crate::pudding::{calc_pudding_scores_for_game, pudding_points, pudding_total, pudding_totals};
use crate::ranking::{greatest, lemma_greatest, lemma_positions_of, occurrences};
use crate::score::{calc_scores_for_round, round_results_of, round_score};
use crate::tally::MAX_TALLIED_CARDS;
use crate::turn::{
    all_round_closed, final_score_of, fresh_players, is_top_scorer, lemma_opening, lemma_picked,
    lemma_progressed, lemma_pudding_total_bounded, lemma_step, lemma_turn_closed, next_state,
    offered, opening, picked, progressed, returned, round_closed, round_ended, rounds_score,
    scored, settled, step_result,
};

verus! {

//---- Game rules ----
pub const NUMBER_OF_ROUNDS: u8 = 3;

pub const MAX_HAND_SIZE: usize = 8;

pub const PUDDING_COUNT: u8 = 10;

pub const DUMPLING_COUNT: u8 = 14;

pub const SAHSHIMI_COUNT: u8 = 14;

pub const TEMPURA_COUNT: u8 = 14;

pub const MAKI_ROLL_1_COUNT: u8 = 6;

pub const MAKI_ROLL_2_COUNT: u8 = 12;

pub const MAKI_ROLL_3_COUNT: u8 = 8;

pub const CHOPSTICKS_COUNT: u8 = 10;

pub const SALMON_NIGRI_COUNT: u8 = 10;

pub const EGG_NIGRI_COUNT: u8 = 5;

pub const SQUID_NIGRI_COUNT: u8 = 5;

pub const WASABI_COUNT: u8 = 6;

/// The cards of the whole deck.
pub const DECK_SIZE: usize = 114;

/// The most players that the deck can deal every round of a game to.
pub const MAX_PLAYERS: usize = 4;

/// How a step of the game ended.
#[derive(Clone, Copy, Debug, PartialEq, Eq, Structural)]
pub enum StepResult {
    Success,
    Error,
    GameOver,
    NoResult,
    ChopsticksAvailable,
    RoundOver,
}

impl StepResult {
    pub fn is_game_over(&self) -> (yes: bool)
        ensures
            yes == (*self == StepResult::GameOver),
    {
        match *self {
            StepResult::GameOver => true,
            _ => false,
        }
    }

    pub fn is_chopsticks_available(&self) -> (yes: bool)
        ensures
            yes == (*self == StepResult::ChopsticksAvailable),
    {
        match *self {
            StepResult::ChopsticksAvailable => true,
            _ => false,
        }
    }

    pub fn is_round_over(&self) -> (yes: bool)
        ensures
            yes == (*self == StepResult::RoundOver),
    {
        match *self {
            StepResult::RoundOver => true,
            _ => false,
        }
    }

    /// The message that tells a player of the result.
    pub fn message(&self) -> (text: &'static str)
        ensures
            text@ == step_message(*self),
    {
        match *self {
            StepResult::Success => "Success!",
            StepResult::Error => "Error!",
            StepResult::GameOver => "Game has been completed!",
            StepResult::NoResult => "Error! No Result!",
            StepResult::ChopsticksAvailable => "Chopsticks are available to use!",
            StepResult::RoundOver => "Round has been completed!",
        }
    }
}

/// The message for each result of a step.
pub open spec fn step_message(result: StepResult) -> Seq<char> {
    match result {
        StepResult::Success => "Success!"@,
        StepResult::Error => "Error!"@,
        StepResult::GameOver => "Game has been completed!"@,
        StepResult::NoResult => "Error! No Result!"@,
        StepResult::ChopsticksAvailable => "Chopsticks are available to use!"@,
        StepResult::RoundOver => "Round has been completed!"@,
    }
}

/// A game of several rounds among the players at one table.
pub struct SushiGoGame {
    deck: Vec<Card>,
    players: Vec<Player>,
    current_player: usize,
    game_over: bool,
    current_round: u8,
    number_of_players: usize,
    winner: usize,
}

/// What a game is, as plain values.
pub struct GameView {
    pub deck: Seq<Card>,
    pub players: Seq<PlayerView>,
    pub current_player: usize,
    pub game_over: bool,
    pub current_round: u8,
    pub number_of_players: usize,
    pub winner: usize,
}

impl View for SushiGoGame {
    type V = GameView;

    closed spec fn view(&self) -> GameView {
        GameView {
            deck: self.deck@,
            players: views(self.players@),
            current_player: self.current_player,
            game_over: self.game_over,
            current_round: self.current_round,
            number_of_players: self.number_of_players,
            winner: self.winner,
        }
    }
}

/// `count` cards of one kind.
pub open spec fn run_of(card: Card, count: int) -> Seq<Card> {
    Seq::new(count as nat, |i: int| card)
}

/// The deck as it comes out of the box, kind by kind.
pub open spec fn standard_deck() -> Seq<Card> {
    run_of(Card::Pudding, PUDDING_COUNT as int) + run_of(Card::Dumpling, DUMPLING_COUNT as int)
        + run_of(Card::Tempura, TEMPURA_COUNT as int) + run_of(
        Card::Sashimi,
        SAHSHIMI_COUNT as int,
    ) + run_of(Card::MakiRoll1, MAKI_ROLL_1_COUNT as int) + run_of(
        Card::MakiRoll2,
        MAKI_ROLL_2_COUNT as int,
    ) + run_of(Card::MakiRoll3, MAKI_ROLL_3_COUNT as int) + run_of(
        Card::Chopsticks,
        CHOPSTICKS_COUNT as int,
    ) + run_of(Card::SalmonNigiri, SALMON_NIGRI_COUNT as int) + run_of(
        Card::EggNigiri,
        EGG_NIGRI_COUNT as int,
    ) + run_of(Card::SquidNigiri, SQUID_NIGRI_COUNT as int) + run_of(
        Card::Wasabi,
        WASABI_COUNT as int,
    )
}

/// The hand that the player in seat `seat` is dealt from `deck`: the cards
/// are drawn from the end of the deck, a whole hand for one seat after the
/// other.
pub open spec fn dealt_hand(deck: Seq<Card>, seat: int) -> Seq<Card> {
    Seq::new(MAX_HAND_SIZE as nat, |k: int| deck[deck.len() - 1 - (MAX_HAND_SIZE * seat + k)])
}

/// The players after a deal from `deck`: each has the dealt hand behind the
/// cards held before.
pub open spec fn dealt_to(players: Seq<PlayerView>, deck: Seq<Card>) -> Seq<PlayerView> {
    Seq::new(
        players.len(),
        |i: int| PlayerView { hand: players[i].hand + dealt_hand(deck, i), ..players[i] },
    )
}

/// What is left of `deck` after a deal to `seats` players.
pub open spec fn deck_after_deal(deck: Seq<Card>, seats: int) -> Seq<Card> {
    deck.take(deck.len() - MAX_HAND_SIZE * seats)
}

/// The players after the hands went round: each holds the hand of the seat
/// before, and the first that of the last.
pub open spec fn rotated(players: Seq<PlayerView>) -> Seq<PlayerView> {
    Seq::new(
        players.len(),
        |i: int|
            PlayerView {
                hand: players[(i + players.len() - 1) % (players.len() as int)].hand,
                ..players[i]
            },
    )
}

/// Whether no player holds a card.
pub open spec fn hands_empty(players: Seq<PlayerView>) -> bool {
    forall|i: int| 0 <= i < players.len() ==> (#[trigger] players[i]).hand.len() == 0
}

/// Adds `count` cards of one kind to the deck.
fn add_cards(deck: &mut Vec<Card>, card: Card, count: u8)
    ensures
        final(deck)@ == old(deck)@ + run_of(card, count as int),
{
    let mut i: u8 = 0;
    while i < count
        invariant
            i <= count,
            deck@ == old(deck)@ + run_of(card, i as int),
        decreases count - i,
    {
        deck.push(card);
        i = i + 1;
        proof {
            assert(deck@ == old(deck)@ + run_of(card, i as int));
        }
    }
}

/// The deck as it comes out of the box, kind by kind.
pub fn setup_deck() -> (deck: Vec<Card>)
    ensures
        deck@ == standard_deck(),
        deck@.len() == DECK_SIZE,
{
    let mut deck: Vec<Card> = Vec::new();
    proof {
        assert(deck@ == run_of(Card::Pudding, 0));
    }
    add_cards(&mut deck, Card::Pudding, PUDDING_COUNT);
    proof {
        assert(deck@ == run_of(Card::Pudding, PUDDING_COUNT as int));
    }
    add_cards(&mut deck, Card::Dumpling, DUMPLING_COUNT);
    add_cards(&mut deck, Card::Tempura, TEMPURA_COUNT);
    add_cards(&mut deck, Card::Sashimi, SAHSHIMI_COUNT);
    add_cards(&mut deck, Card::MakiRoll1, MAKI_ROLL_1_COUNT);
    add_cards(&mut deck, Card::MakiRoll2, MAKI_ROLL_2_COUNT);
    add_cards(&mut deck, Card::MakiRoll3, MAKI_ROLL_3_COUNT);
    add_cards(&mut deck, Card::Chopsticks, CHOPSTICKS_COUNT);
    add_cards(&mut deck, Card::SalmonNigiri, SALMON_NIGRI_COUNT);
    add_cards(&mut deck, Card::EggNigiri, EGG_NIGRI_COUNT);
    add_cards(&mut deck, Card::SquidNigiri, SQUID_NIGRI_COUNT);
    add_cards(&mut deck, Card::Wasabi, WASABI_COUNT);
    deck
}

/// Deals every player a hand of `MAX_HAND_SIZE` cards from the end of the
/// deck, one player after the other. The deck must hold a hand for each.
pub fn deal_cards(players: &mut Vec<Player>, deck: &mut Vec<Card>)
    requires
        old(deck)@.len() >= old(players)@.len() * MAX_HAND_SIZE,
    ensures
        views(final(players)@) == dealt_to(views(old(players)@), old(deck)@),
        final(deck)@ == deck_after_deal(old(deck)@, old(players)@.len() as int),
{
    let ghost n = players@.len() as int;
    let mut i: usize = 0;
    while i < players.len()
        invariant
            i <= players@.len() == n == old(players)@.len(),
            old(deck)@.len() >= n * MAX_HAND_SIZE,
            deck@ == old(deck)@.take(old(deck)@.len() - MAX_HAND_SIZE * i),
            forall|j: int|
                0 <= j < i ==> (#[trigger] players@[j])@ == dealt_to(
                    views(old(players)@),
                    old(deck)@,
                )[j],
            forall|j: int| i <= j < n ==> players@[j] == old(players)@[j],
        decreases players@.len() - i,
    {
        let ghost before = players@[i as int]@;
        let mut k: usize = 0;
        while k < MAX_HAND_SIZE
            invariant
                k <= MAX_HAND_SIZE,
                i < players@.len() == n == old(players)@.len(),
                old(deck)@.len() >= n * MAX_HAND_SIZE,
                deck@ == old(deck)@.take(old(deck)@.len() - MAX_HAND_SIZE * i - k),
                players@[i as int]@ == (PlayerView {
                    hand: before.hand + dealt_hand(old(deck)@, i as int).take(k as int),
                    ..before
                }),
                before == old(players)@[i as int]@,
                forall|j: int|
                    0 <= j < i ==> (#[trigger] players@[j])@ == dealt_to(
                        views(old(players)@),
                        old(deck)@,
                    )[j],
                forall|j: int| i < j < n ==> players@[j] == old(players)@[j],
            decreases MAX_HAND_SIZE - k,
        {
            let next_card_option = deck.pop();
            match next_card_option {
                Some(y) => {
                    players[i].add_card_to_hand(y);
                    proof {
                        let hand = dealt_hand(old(deck)@, i as int);
                        assert(hand.take(k + 1) == hand.take(k as int).push(y));
                        assert(before.hand + hand.take(k + 1) == (before.hand + hand.take(
                            k as int,
                        )).push(y));
                    }
                },
                None => {
                    // the deck held a hand for each player
                },
            }
            k = k + 1;
        }
        proof {
            let hand = dealt_hand(old(deck)@, i as int);
            assert(hand.take(MAX_HAND_SIZE as int) == hand);
        }
        i = i + 1;
    }
    proof {
        assert(views(players@) == dealt_to(views(old(players)@), old(deck)@));
    }
}

/// The players of a new game, with the seats as their identities.
pub fn setup_players(num_players: u8) -> (players: Vec<Player>)
    ensures
        players@.len() == num_players,
        forall|i: int|
            0 <= i < num_players ==> (#[trigger] players@[i])@ == (PlayerView {
                id: i as usize,
                hand: Seq::empty(),
                chosen: Seq::empty(),
                spent: 0,
                rounds: Seq::empty(),
                final_score: 0,
            }),
{
    let mut players: Vec<Player> = Vec::new();
    let mut i: u8 = 0;
    while i < num_players
        invariant
            i <= num_players,
            players@.len() == i,
            forall|j: int|
                0 <= j < i ==> (#[trigger] players@[j])@ == (PlayerView {
                    id: j as usize,
                    hand: Seq::empty(),
                    chosen: Seq::empty(),
                    spent: 0,
                    rounds: Seq::empty(),
                    final_score: 0,
                }),
        decreases num_players - i,
    {
        players.push(new_player(i as usize));
        i = i + 1;
    }
    players
}

/// Takes back the chopsticks that paid for a second card: one goes to the
/// hand, and the first chopsticks leave the played pile. The pile must hold
/// chopsticks.
pub fn return_chopsticks(player: &mut Player)
    requires
        old(player)@.wf(),
        old(player)@.chosen.contains(Card::Chopsticks),
    ensures
        final(player)@ == (PlayerView {
            hand: old(player)@.hand.push(Card::Chopsticks),
            chosen: remove_first(old(player)@.chosen, Card::Chopsticks),
            spent: if old(player)@.spent > 0 {
                (old(player)@.spent - 1) as nat
            } else {
                old(player)@.spent
            },
            ..old(player)@
        }),
        final(player)@.cards_held() == old(player)@.cards_held(),
        final(player)@.wf(),
{
    proof {
        lemma_remove_first(player@.chosen, Card::Chopsticks, Card::Chopsticks);
    }
    player.add_card_to_hand(Card::Chopsticks);
    if player.has_chosen_card(Card::Chopsticks) {
        player.remove_chosen_card(Card::Chopsticks);
        return ;
    }
}

/// Whether the round is over: no player holds a card.
pub fn check_round_ended(players: &Vec<Player>) -> (ended: bool)
    ensures
        ended == hands_empty(views(players@)),
{
    let mut i: usize = 0;
    while i < players.len()
        invariant
            i <= players@.len(),
            forall|j: int| 0 <= j < i ==> (#[trigger] views(players@)[j]).hand.len() == 0,
        decreases players@.len() - i,
    {
        if players[i].get_hand_size() > 0 {
            proof {
                assert(views(players@)[i as int].hand.len() > 0);
            }
            return false;
        }
        i = i + 1;
    }
    true
}

/// Passes the hands round the table: each player takes the hand of the seat
/// before, and the first that of the last.
pub fn swap_hands(players: &mut Vec<Player>)
    requires
        old(players)@.len() > 0,
    ensures
        views(final(players)@) == rotated(views(old(players)@)),
{
    let ghost n = players@.len() as int;
    // This hand will store the cards we give to the next player
    let mut replace_hand = players[players.len() - 1].get_hand();
    let mut i: usize = 0;
    proof {
        assert((0 + n - 1) % n == n - 1) by (nonlinear_arith)
            requires
                n > 0,
        ;
    }
    while i < players.len()
        invariant
            i <= players@.len() == n == old(players)@.len(),
            n > 0,
            replace_hand@ == old(players)@[(i + n - 1) % n]@.hand,
            forall|j: int|
                0 <= j < i ==> (#[trigger] players@[j])@ == rotated(views(old(players)@))[j],
            forall|j: int| i <= j < n ==> players@[j] == old(players)@[j],
        decreases players@.len() - i,
    {
        let clone_hand = players[i].get_hand();
        players[i].replace_hand(replace_hand);
        replace_hand = clone_hand;
        proof {
            assert((i + 1 + n - 1) % n == i) by (nonlinear_arith)
                requires
                    0 <= i < n,
            ;
        }
        i = i + 1;
    }
    proof {
        assert(views(players@) == rotated(views(old(players)@)));
    }
}

/// A player after the clean-up that ends a turn.
pub open spec fn sanitized(p: PlayerView) -> PlayerView {
    PlayerView { hand: without(p.hand, Card::NoCard), spent: 0, ..p }
}

/// All players after the clean-up that ends a turn.
pub open spec fn all_sanitized(players: Seq<PlayerView>) -> Seq<PlayerView> {
    Seq::new(players.len(), |i: int| sanitized(players[i]))
}

/// Makes every player ready for the next turn.
pub fn sanitize_hands(players: &mut Vec<Player>)
    ensures
        views(final(players)@) == all_sanitized(views(old(players)@)),
{
    let mut i: usize = 0;
    while i < players.len()
        invariant
            i <= players@.len(),
            players@.len() == old(players)@.len(),
            forall|j: int| 0 <= j < i ==> (#[trigger] players@[j])@ == sanitized(old(players)@[j]@),
            forall|j: int| i <= j < players@.len() ==> players@[j] == old(players)@[j],
        decreases players@.len() - i,
    {
        players[i].sanitize_cards();
        i = i + 1;
    }
    proof {
        assert(views(players@) == all_sanitized(views(old(players)@)));
    }
}

impl SushiGoGame {
    /// A game for that many players, not yet set up: no deck and nobody at
    /// the table.
    pub fn new(number_of_players: usize) -> (game: SushiGoGame)
        ensures
            game@ == (GameView {
                deck: Seq::empty(),
                players: Seq::empty(),
                current_player: 0,
                game_over: false,
                current_round: 0,
                number_of_players,
                winner: 0,
            }),
    {
        let game = SushiGoGame {
            deck: Vec::new(),
            players: Vec::new(),
            current_player: 0,
            game_over: false,
            current_round: 0,
            number_of_players,
            winner: 0,
        };
        proof {
            assert(views(game.players@) == Seq::<PlayerView>::empty());
        }
        game
    }

    /// Sets the game up: the deck is shuffled, the players take their seats
    /// and the first hands are dealt. The deck deals a whole game to at most
    /// `MAX_PLAYERS` players.
    pub fn setup(&mut self)
        requires
            1 <= old(self)@.number_of_players <= MAX_PLAYERS,
        ensures
            exists|shuffled: Seq<Card>| #[trigger]
                shuffled.to_multiset() == standard_deck().to_multiset() && final(self)@ == opening(
                    shuffled,
                    old(self)@.number_of_players,
                    0,
                ),
            final(self)@.wf(),
            !final(self)@.game_over,
    {
        //---- Setup
        self.current_player = 0;
        self.game_over = false;
        self.current_round = 0;
        self.winner = 0;

        self.deck = setup_deck();
        shuffle(&mut self.deck);
        let ghost shuffled = self.deck@;

        //---- Create players.
        self.players = setup_players(self.number_of_players as u8);

        //---- Deal players some cards.
        proof {
            broadcast use vstd::seq_lib::group_to_multiset_ensures;

            assert(shuffled.len() == shuffled.to_multiset().len());
            assert(standard_deck().len() == standard_deck().to_multiset().len());
            assert(views(self.players@) == fresh_players(self.number_of_players as int));
        }
        deal_cards(&mut self.players, &mut self.deck);
        proof {
            assert(self@ == opening(shuffled, self.number_of_players, 0));
            lemma_opening(shuffled, self.number_of_players, 0);
        }
    }

    /// Plays the action of the current player: a card of the hand, or the
    /// placeholder to decline an extra pick. The game goes on as the rules
    /// say and comes nearer to its end. When the last round is over, the
    /// final scores are recorded, and the winner is drawn by lot among those
    /// with the highest.
    pub fn step(&mut self, action: Card) -> (result: StepResult)
        requires
            old(self)@.wf(),
            !old(self)@.game_over,
            old(self)@.allows(action),
        ensures
            final(self)@ == (GameView {
                winner: final(self)@.winner,
                ..next_state(old(self)@, action)
            }),
            result == step_result(old(self)@, action),
            final(self)@.wf(),
            0 <= final(self)@.steps_left() < old(self)@.steps_left(),
            final(self)@.game_over <==> result == StepResult::GameOver,
            final(self)@.game_over ==> is_top_scorer(
                final(self)@.players,
                final(self)@.winner as int,
            ),
            final(self)@.game_over ==> final(self)@.winning_score() >= 0,
            !final(self)@.game_over ==> final(self)@.winner == old(self)@.winner,
    {
        proof {
            lemma_progressed(old(self)@, action);
            lemma_step(old(self)@, action);
        }
        let mut result = self.update_game(action);

        if self.game_over {
            self.winner = self.calculate_winner();
            result = StepResult::GameOver;
        }
        result
    }

    /// How many players sit at the table.
    pub fn get_num_players(&self) -> (count: usize)
        ensures
            count == self@.players.len(),
    {
        self.players.len()
    }

    /// A copy of the hand of the player in that seat.
    pub fn get_player_hand(&self, id: usize) -> (hand: Vec<Card>)
        requires
            id < self@.players.len(),
        ensures
            hand@ == self@.players[id as int].hand,
    {
        self.players[id].get_hand()
    }

    /// A copy of the played pile of the player in that seat.
    pub fn get_player_chosen(&self, id: usize) -> (chosen: Vec<Card>)
        requires
            id < self@.players.len(),
        ensures
            chosen@ == self@.players[id as int].chosen,
    {
        self.players[id].get_chosen_cards()
    }

    /// The seat of the player whose turn it is.
    pub fn get_current_player_id(&self) -> (id: usize)
        ensures
            id == self@.current_player,
    {
        self.current_player
    }

    /// A copy of the hand of the player whose turn it is.
    pub fn get_current_player_hand(&self) -> (hand: Vec<Card>)
        requires
            self@.current_player < self@.players.len(),
        ensures
            hand@ == self@.players[self@.current_player as int].hand,
    {
        self.players[self.current_player].get_hand()
    }

    /// The player whose turn it is.
    pub fn get_current_player(&self) -> (player: &Player)
        requires
            self@.current_player < self@.players.len(),
        ensures
            player@ == self@.players[self@.current_player as int],
    {
        &self.players[self.current_player]
    }

    /// The players in the order of their seats.
    pub fn get_players(&self) -> (players: &Vec<Player>)
        ensures
            views(players@) == self@.players,
    {
        &self.players
    }

    /// The rounds that are over.
    pub fn get_current_round(&self) -> (round: u8)
        ensures
            round == self@.current_round,
    {
        self.current_round
    }

    /// Whether the last round is over.
    pub fn is_over(&self) -> (over: bool)
        ensures
            over == self@.game_over,
    {
        self.game_over
    }

    /// Whether the current player may play that card now.
    pub fn can_play(&self, action: Card) -> (allowed: bool)
        requires
            self@.current_player < self@.players.len(),
        ensures
            allowed == self@.allows(action),
    {
        self.players[self.current_player].has_card_in_hand(action)
    }

    /// The final score of the winner.
    pub fn get_winning_score(&self) -> (score: i32)
        requires
            self@.winner < self@.players.len(),
        ensures
            score == self@.players[self@.winner as int].final_score,
    {
        self.players[self.winner].get_final_score()
    }

    /// The seat of the winner, once the game is over.
    pub fn get_winner(&self) -> (winner: usize)
        ensures
            winner == self@.winner,
    {
        self.winner
    }

    /// The points of each player for the round that was closed last.
    pub fn prev_round_scores(&self) -> (scores: Vec<i32>)
        requires
            self@.wf(),
            self@.current_round >= 1,
        ensures
            scores@.len() == self@.players.len(),
            forall|i: int|
                0 <= i < self@.players.len() ==> #[trigger] scores@[i] == round_score(
                    round_results_of(self@.players, self@.current_round - 1),
                    i,
                ),
    {
        let prev_round = self.current_round - 1;
        proof {
            assert forall|i: int| 0 <= i < self.players@.len() implies prev_round < (
            #[trigger] self.players@[i])@.rounds.len()
                && self.players@[i]@.rounds[prev_round as int].wf() by {
                assert(self.players@[i]@ == self@.players[i]);
                assert(self@.players[i].wf());
            }
        }
        calc_scores_for_round(&self.players, prev_round)
    }

    /// The final score of each player, as recorded when the game ended.
    pub fn final_scores(&self) -> (scores: Vec<i32>)
        ensures
            scores@.len() == self@.players.len(),
            forall|i: int|
                0 <= i < self@.players.len() ==> #[trigger] scores@[i]
                    == self@.players[i].final_score,
    {
        let mut scores: Vec<i32> = Vec::new();
        let mut i: usize = 0;
        while i < self.players.len()
            invariant
                i <= self.players@.len(),
                scores@.len() == i,
                forall|j: int| 0 <= j < i ==> #[trigger] scores@[j] == self@.players[j].final_score,
            decreases self.players@.len() - i,
        {
            scores.push(self.players[i].get_final_score());
            i = i + 1;
        }
        scores
    }

    /// Plays the action out, up to the final scores.
    fn update_game(&mut self, action: Card) -> (result: StepResult)
        requires
            old(self)@.wf(),
            !old(self)@.game_over,
            old(self)@.allows(action),
        ensures
            final(self)@ == progressed(old(self)@, action),
            !final(self)@.game_over ==> result == step_result(old(self)@, action),
    {
        let ghost g = self@;
        let ghost p = g.players[g.current_player as int];
        let ghost q = picked(p, action);
        let mut result = StepResult::NoResult;
        let c = self.current_player;
        proof {
            lemma_picked(p, action);
            lemma_turn_closed(g, action);
            assert(self.players@[c as int]@ == p);
        }

        // As long as we have not chosen to play no card, adjust the players hand.
        if action != Card::NoCard {
            // This will remove a chopsticks from the field and return them to our hand, in the case
            // that we play another card due to the power of chopsticks: the placeholder is in
            // the hand exactly while that extra pick is offered.
            proof {
                lemma_count_contains(p.hand, Card::NoCard);
                lemma_count_contains(p.chosen, Card::Chopsticks);
                assert(p.hand.contains(Card::NoCard) <==> p.spent > 0);
            }
            if self.players[c].has_card_in_hand(Card::NoCard) {
                self.players[c].return_chopsticks();
            }
            proof {
                let r = self.players@[c as int]@;
                assert(r == returned(p));
                let i = choose|i: int| 0 <= i < p.hand.len() && p.hand[i] == action;
                assert(r.hand[i] == action);
            }
            result = if self.players[c].choose_card(action) {
                StepResult::Success
            } else {
                StepResult::Error
            };
        }
        proof {
            assert(self.players@[c as int]@ == q);
            assert(views(self.players@) == g.players.update(c as int, q));
        }

        // Check to see if the current player has fresh chopsticks and give them another turn
        if self.players[c].remove_fresh_chopsticks() && self.players[c].get_hand_size() > 0 {
            self.players[c].add_card_to_hand(Card::NoCard);
            result = StepResult::ChopsticksAvailable;
            proof {
                assert(self.players@[c as int]@ == offered(q));
                assert(views(self.players@) == g.players.update(c as int, offered(q)));
            }
            return result;
        }
        let ghost left = self.players@[c as int]@;
        proof {
            assert(sanitized(left) == sanitized(q));
        }

        // Change all the chopsticks back to fresh chopsticks and remove any 'none' card options.
        sanitize_hands(&mut self.players);
        let ghost cleaned = all_sanitized(g.players.update(c as int, q));
        proof {
            assert(views(self.players@) == cleaned);
        }

        // Check to see if the round is over now that we have acted.
        if check_round_ended(&self.players) {
            proof {
                assert forall|i: int| 0 <= i < self.players@.len() implies (
                #[trigger] self.players@[i])@.chosen.len() <= MAX_TALLIED_CARDS by {
                    assert(self.players@[i]@ == cleaned[i]);
                }
                if g.current_round + 1 < NUMBER_OF_ROUNDS {
                    let deals_left = NUMBER_OF_ROUNDS - 1 - g.current_round;
                    let cards_a_deal = MAX_HAND_SIZE * g.number_of_players;
                    assert(g.deck.len() >= cards_a_deal) by (nonlinear_arith)
                        requires
                            g.deck.len() >= deals_left * cards_a_deal,
                            deals_left >= 1,
                            cards_a_deal >= 0,
                    ;
                }
            }
            self.on_round_end();
            result = StepResult::RoundOver;
            return result;
        }
        // Next players turn

        self.current_player = self.current_player + 1;

        // Round is not over, see if there is another player to act.
        if self.current_player >= self.number_of_players {
            // Everyone has acted, switch hands and start again.
            self.current_player = 0;

            swap_hands(&mut self.players);
        }
        return result;
    }

    /// Closes the round: every player's tally is recorded and the played
    /// piles are emptied. After the last round the game is over; else new
    /// hands are dealt.
    fn on_round_end(&mut self)
        requires
            old(self)@.current_round < NUMBER_OF_ROUNDS,
            forall|i: int|
                0 <= i < old(self).players@.len() ==> (#[trigger] old(self).players@[i])@.chosen.len()
                    <= MAX_TALLIED_CARDS,
            old(self)@.current_round + 1 < NUMBER_OF_ROUNDS ==> old(self)@.deck.len()
                >= MAX_HAND_SIZE * old(self)@.players.len(),
        ensures
            final(self)@ == round_ended(old(self)@),
    {
        self.current_round = self.current_round + 1;
        self.current_player = 0;

        let mut i: usize = 0;
        while i < self.players.len()
            invariant
                i <= self.players@.len() == old(self).players@.len(),
                forall|j: int|
                    0 <= j < old(self).players@.len() ==> (#[trigger] old(
                        self,
                    ).players@[j])@.chosen.len() <= MAX_TALLIED_CARDS,
                forall|j: int|
                    0 <= j < i ==> (#[trigger] self.players@[j])@ == round_closed(
                        old(self).players@[j]@,
                    ),
                forall|j: int| i <= j < self.players@.len() ==> self.players@[j] == old(
                    self,
                ).players@[j],
                self.deck == old(self).deck,
                self.current_round == old(self).current_round + 1,
                self.current_player == 0,
                self.game_over == old(self).game_over,
                self.number_of_players == old(self).number_of_players,
                self.winner == old(self).winner,
            decreases self.players@.len() - i,
        {
            self.players[i].add_round_result();
            self.players[i].clear_chosen_cards();
            i = i + 1;
        }
        proof {
            assert(views(self.players@) == all_round_closed(old(self)@.players));
        }

        if self.current_round >= NUMBER_OF_ROUNDS {
            self.game_over = true;
        } else {
            //---- Deal players some cards.
            deal_cards(&mut self.players, &mut self.deck);
        }
    }

    /// Adds up the points of every player over the rounds and the puddings,
    /// records them as the final scores, and draws the winner by lot among
    /// the players with the highest final score.
    fn calculate_winner(&mut self) -> (winner: usize)
        requires
            old(self)@.wf(),
            old(self)@.game_over,
        ensures
            final(self)@ == settled(old(self)@),
            is_top_scorer(final(self)@.players, winner as int),
            final(self)@.players[winner as int].final_score >= 0,
    {
        let ghost g = self@;
        let ghost n = g.players.len() as int;
        let ghost totals = pudding_totals(g.players, NUMBER_OF_ROUNDS as int);
        proof {
            assert forall|i: int| 0 <= i < n implies (#[trigger] self.players@[i])@
                == g.players[i] by {}
            assert forall|i: int, k: int| 0 <= i < n && 0 <= k <= NUMBER_OF_ROUNDS implies 0
                <= #[trigger] pudding_total(self.players@[i]@.rounds, k) <= MAX_HAND_SIZE * k by {
                assert(self.players@[i]@ == g.players[i]);
                assert forall|r: int| 0 <= r < g.players[i].rounds.len() implies 0 <= (
                #[trigger] g.players[i].rounds[r]).pudding_count <= MAX_HAND_SIZE by {}
                lemma_pudding_total_bounded(g.players[i].rounds, k);
            }
        }

        //---- Scoring the game
        let mut final_scores: Vec<i32> = vec![0; self.players.len()];

        // For each of the rounds.
        let mut round: u8 = 0;
        while round < NUMBER_OF_ROUNDS
            invariant
                round <= NUMBER_OF_ROUNDS,
                self@ == g,
                g.wf(),
                g.game_over,
                n == g.players.len(),
                final_scores@.len() == n,
                forall|p: int|
                    0 <= p < n ==> #[trigger] final_scores@[p] == rounds_score(
                        g.players,
                        p,
                        round as int,
                    ),
                forall|p: int| 0 <= p < n ==> 0 <= #[trigger] final_scores@[p] <= 1000006 * round,
            decreases NUMBER_OF_ROUNDS - round,
        {
            proof {
                assert forall|i: int| 0 <= i < n implies round < (
                #[trigger] self.players@[i])@.rounds.len()
                    && self.players@[i]@.rounds[round as int].wf() by {
                    assert(self.players@[i]@ == g.players[i]);
                    assert(g.players[i].wf());
                }
            }
            // Get the score for those results.
            let round_scores = calc_scores_for_round(&self.players, round);

            // Add the scores together.
            let mut p: usize = 0;
            while p < round_scores.len()
                invariant
                    p <= round_scores@.len() == n == final_scores@.len(),
                    round < NUMBER_OF_ROUNDS,
                    forall|k: int|
                        0 <= k < n ==> #[trigger] round_scores@[k] == round_score(
                            round_results_of(g.players, round as int),
                            k,
                        ),
                    forall|k: int| 0 <= k < n ==> 0 <= #[trigger] round_scores@[k] <= 1000006,
                    forall|k: int|
                        0 <= k < p ==> #[trigger] final_scores@[k] == rounds_score(
                            g.players,
                            k,
                            round + 1,
                        ),
                    forall|k: int|
                        p <= k < n ==> #[trigger] final_scores@[k] == rounds_score(
                            g.players,
                            k,
                            round as int,
                        ),
                    forall|k: int|
                        0 <= k < n ==> 0 <= #[trigger] final_scores@[k] <= 1000006 * (round + 1),
                    forall|k: int| p <= k < n ==> #[trigger] final_scores@[k] <= 1000006 * round,
                decreases round_scores@.len() - p,
            {
                final_scores[p] = final_scores[p] + round_scores[p];
                p = p + 1;
            }
            round = round + 1;
        }

        proof {
            assert forall|k: int| 0 <= k < n implies 0 <= #[trigger] rounds_score(
                g.players,
                k,
                NUMBER_OF_ROUNDS as int,
            ) by {
                assert(final_scores@[k] >= 0);
            }
        }

        // Add on score for puddings.
        let pudding_scores = calc_pudding_scores_for_game(&self.players, NUMBER_OF_ROUNDS);
        let mut p: usize = 0;
        while p < pudding_scores.len()
            invariant
                p <= pudding_scores@.len() == n == final_scores@.len(),
                self@ == g,
                n == g.players.len(),
                totals == pudding_totals(g.players, NUMBER_OF_ROUNDS as int),
                forall|k: int|
                    0 <= k < n ==> #[trigger] pudding_scores@[k] == pudding_points(totals, k),
                forall|k: int| 0 <= k < n ==> -6 <= #[trigger] pudding_scores@[k] <= 6,
                forall|k: int|
                    0 <= k < n ==> 0 <= #[trigger] rounds_score(
                        g.players,
                        k,
                        NUMBER_OF_ROUNDS as int,
                    ),
                forall|k: int|
                    0 <= k < p ==> #[trigger] final_scores@[k] == final_score_of(g.players, k),
                forall|k: int|
                    p <= k < n ==> #[trigger] final_scores@[k] == rounds_score(
                        g.players,
                        k,
                        NUMBER_OF_ROUNDS as int,
                    ),
                forall|k: int| p <= k < n ==> 0 <= #[trigger] final_scores@[k] <= 3000018,
                forall|k: int| 0 <= k < n ==> -6 <= #[trigger] final_scores@[k] <= 3000024,
            decreases pudding_scores@.len() - p,
        {
            final_scores[p] = final_scores[p] + pudding_scores[p];
            p = p + 1;
        }
        proof {
            // the player with the most puddings loses nothing for them
            lemma_greatest(totals);
            let j = choose|j: int| 0 <= j < totals.len() && totals[j] == greatest(totals);
            lemma_positions_of(totals, greatest(totals));
            let holders = occurrences(totals, greatest(totals)) as int;
            assert(6int / holders >= 0) by (nonlinear_arith)
                requires
                    holders > 0,
            ;
            assert(pudding_points(totals, j) >= 0);
            assert(rounds_score(g.players, j, NUMBER_OF_ROUNDS as int) >= 0);
            assert(final_scores@[j] == final_score_of(g.players, j));
            assert(final_scores@[j] >= 0);
        }

        // Work out the highest score.
        let mut highest_score: i32 = 0;
        p = 0;
        while p < final_scores.len()
            invariant
                p <= final_scores@.len() == n,
                highest_score >= 0,
                forall|k: int| 0 <= k < p ==> #[trigger] final_scores@[k] <= highest_score,
                highest_score == 0 || exists|k: int|
                    0 <= k < p && #[trigger] final_scores@[k] == highest_score,
            decreases final_scores@.len() - p,
        {
            if final_scores[p] >= highest_score {
                highest_score = final_scores[p];
            }
            p = p + 1;
        }
        let ghost top = choose|k: int| 0 <= k < n && #[trigger] final_scores@[k] == highest_score;
        proof {
            if highest_score == 0 {
                let j = choose|j: int| 0 <= j < n && #[trigger] final_scores@[j] >= 0;
                assert(final_scores@[j] == highest_score);
            }
            assert(0 <= top < n && final_scores@[top] == highest_score);
        }

        // Set players final scores and add any winners to the pot.
        let mut winners: Vec<usize> = Vec::new();
        p = 0;
        while p < self.players.len()
            invariant
                p <= self.players@.len() == n == final_scores@.len(),
                n == g.players.len(),
                forall|k: int|
                    0 <= k < n ==> #[trigger] final_scores@[k] == final_score_of(g.players, k),
                forall|k: int| 0 <= k < n ==> #[trigger] final_scores@[k] <= highest_score,
                forall|k: int| 0 <= k < p ==> (#[trigger] self.players@[k])@ == scored(g.players)[k],
                forall|k: int| p <= k < n ==> (#[trigger] self.players@[k])@ == g.players[k],
                forall|w: int|
                    0 <= w < winners@.len() ==> (#[trigger] winners@[w]) < n
                        && final_scores@[winners@[w] as int] == highest_score,
                0 <= top < n,
                final_scores@[top] == highest_score,
                top < p ==> winners@.len() > 0,
                self.deck@ == g.deck,
                self.current_player == g.current_player,
                self.game_over == g.game_over,
                self.current_round == g.current_round,
                self.number_of_players == g.number_of_players,
                self.winner == g.winner,
            decreases self.players@.len() - p,
        {
            self.players[p].set_final_score(final_scores[p]);

            if self.players[p].get_final_score() == highest_score {
                winners.push(p);
            }
            p = p + 1;
        }
        proof {
            assert(views(self.players@) == scored(g.players));
        }

        // Pick a random winner amongst the players with the highest score.
        let ghost tied = winners@;
        shuffle(&mut winners);
        proof {
            broadcast use vstd::seq_lib::group_to_multiset_ensures;

            assert(winners@.len() == winners@.to_multiset().len());
            assert(tied.len() == tied.to_multiset().len());
            assert(winners@.contains(winners@[0]));
            assert(winners@.to_multiset().count(winners@[0]) > 0);
            assert(tied.contains(winners@[0]));
        }
        let winner = winners[0];
        proof {
            let w = choose|w: int| 0 <= w < tied.len() && tied[w] == winner;
            assert(tied[w] < n && final_scores@[tied[w] as int] == highest_score);
            assert forall|i: int| 0 <= i < n implies (#[trigger] scored(g.players)[i]).final_score
                <= scored(g.players)[winner as int].final_score by {
                assert(final_scores@[i] <= highest_score);
            }
        }
        winner
    }
}

} // verus!
