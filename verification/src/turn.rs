//! The rules of a turn, stated on plain values: what a step makes of a game,
//! which games are in order, and how far a game is from its end.

use vstd::prelude::*;
use crate::card::Card;
use crate::game::{
    all_sanitized, dealt_hand, dealt_to, deck_after_deal, hands_empty, rotated, sanitized,
    standard_deck, GameView, StepResult, DECK_SIZE, MAX_HAND_SIZE, MAX_PLAYERS, NUMBER_OF_ROUNDS,
};
use crate::pile::{
    lemma_count_contains, lemma_count_push, lemma_holds_another, lemma_remove_first,
    lemma_without, remove_first,
};
use crate::player::PlayerView;
use crate::pudding::{
    lemma_no_pudding_points_when_all_equal, pudding_points, pudding_total, pudding_totals,
};
use crate::score::{round_results_of, round_score};
use crate::tally::{
    count_of, lemma_counts_bounded, lemma_tally_records, tally_of, SushiResult,
};

verus! {

/// The player after taking back the chopsticks that pay for an extra pick:
/// where some are spent, the first chopsticks of the played pile go to the
/// end of the hand.
pub open spec fn returned(p: PlayerView) -> PlayerView {
    if p.spent > 0 {
        PlayerView {
            hand: p.hand.push(Card::Chopsticks),
            chosen: remove_first(p.chosen, Card::Chopsticks),
            spent: (p.spent - 1) as nat,
            ..p
        }
    } else {
        p
    }
}

/// The player after playing a card from the hand.
pub open spec fn played(p: PlayerView, card: Card) -> PlayerView {
    PlayerView {
        hand: remove_first(p.hand, card),
        chosen: p.chosen.push(card),
        spent: if card == Card::Chopsticks {
            p.spent + 1
        } else {
            p.spent
        },
        ..p
    }
}

/// The player after the action of a step: nothing changes on a pass; else
/// the chopsticks that pay for the pick come back, and the card is played.
pub open spec fn picked(p: PlayerView, action: Card) -> PlayerView {
    if action == Card::NoCard {
        p
    } else {
        played(returned(p), action)
    }
}

/// Whether the player is offered an extra pick: fresh chopsticks lie in the
/// played pile, and the hand is not empty.
pub open spec fn offers_extra_pick(p: PlayerView) -> bool {
    p.fresh_chopsticks() > 0 && p.hand.len() > 0
}

/// The player after the offer of an extra pick: one more chopsticks are
/// spent, and a placeholder in the hand stands for declining.
pub open spec fn offered(p: PlayerView) -> PlayerView {
    PlayerView { hand: p.hand.push(Card::NoCard), spent: p.spent + 1, ..p }
}

/// The player after a round is closed: the tally of the played pile is
/// recorded, and the pile is empty.
pub open spec fn round_closed(p: PlayerView) -> PlayerView {
    PlayerView { rounds: p.rounds.push(tally_of(p.chosen)), chosen: Seq::empty(), spent: 0, ..p }
}

/// All players after a round is closed.
pub open spec fn all_round_closed(players: Seq<PlayerView>) -> Seq<PlayerView> {
    Seq::new(players.len(), |i: int| round_closed(players[i]))
}

/// The points of player `i` for the first `rounds` rounds together.
pub open spec fn rounds_score(players: Seq<PlayerView>, i: int, rounds: int) -> int
    decreases rounds,
{
    if rounds <= 0 {
        0
    } else {
        rounds_score(players, i, rounds - 1) + round_score(
            round_results_of(players, rounds - 1),
            i,
        )
    }
}

/// The score that player `i` ends the game with: the points of all rounds
/// and the points for the puddings of the whole game.
pub open spec fn final_score_of(players: Seq<PlayerView>, i: int) -> int {
    rounds_score(players, i, NUMBER_OF_ROUNDS as int) + pudding_points(
        pudding_totals(players, NUMBER_OF_ROUNDS as int),
        i,
    )
}

/// The players with their final scores recorded.
pub open spec fn scored(players: Seq<PlayerView>) -> Seq<PlayerView> {
    Seq::new(
        players.len(),
        |i: int| PlayerView { final_score: final_score_of(players, i) as i32, ..players[i] },
    )
}

/// Whether player `w` has a final score that no player exceeds.
pub open spec fn is_top_scorer(players: Seq<PlayerView>, w: int) -> bool {
    &&& 0 <= w < players.len()
    &&& forall|i: int|
        0 <= i < players.len() ==> (#[trigger] players[i]).final_score <= players[w].final_score
}

/// The game after the round is closed: the tallies are recorded and the
/// next round begins with player 0. After the last round the game is over;
/// else new hands are dealt.
pub open spec fn round_ended(g: GameView) -> GameView {
    let closed = all_round_closed(g.players);
    let round = (g.current_round + 1) as u8;
    if round >= NUMBER_OF_ROUNDS {
        GameView { players: closed, current_round: round, current_player: 0, game_over: true, ..g }
    } else {
        GameView {
            players: dealt_to(closed, g.deck),
            deck: deck_after_deal(g.deck, g.players.len() as int),
            current_round: round,
            current_player: 0,
            ..g
        }
    }
}

/// The game after the turn of the current player is over, who is left as
/// `q`: every player is cleaned up; then the round ends, if no cards are
/// left, or the next player is on, and after the last player the hands go
/// round and the first is on.
pub open spec fn turn_ended(g: GameView, q: PlayerView) -> GameView {
    let cleaned = all_sanitized(g.players.update(g.current_player as int, q));
    if hands_empty(cleaned) {
        round_ended(GameView { players: cleaned, ..g })
    } else if g.current_player + 1 >= g.number_of_players {
        GameView { players: rotated(cleaned), current_player: 0, ..g }
    } else {
        GameView { players: cleaned, current_player: (g.current_player + 1) as usize, ..g }
    }
}

/// The game after the action of a step is played out: the current player is
/// offered an extra pick, or the turn is over.
pub open spec fn progressed(g: GameView, action: Card) -> GameView {
    let q = picked(g.players[g.current_player as int], action);
    if offers_extra_pick(q) {
        GameView { players: g.players.update(g.current_player as int, offered(q)), ..g }
    } else {
        turn_ended(g, q)
    }
}

/// The game with the final scores recorded, if it is over.
pub open spec fn settled(g: GameView) -> GameView {
    if g.game_over {
        GameView { players: scored(g.players), ..g }
    } else {
        g
    }
}

/// The game after a step with the given action, but for the winner, who is
/// drawn by lot among the top scorers when the game ends.
pub open spec fn next_state(g: GameView, action: Card) -> GameView {
    settled(progressed(g, action))
}

/// What a step with the given action reports.
pub open spec fn step_result(g: GameView, action: Card) -> StepResult {
    let q = picked(g.players[g.current_player as int], action);
    if offers_extra_pick(q) {
        StepResult::ChopsticksAvailable
    } else if hands_empty(all_sanitized(g.players.update(g.current_player as int, q))) {
        if g.current_round + 1 >= NUMBER_OF_ROUNDS {
            StepResult::GameOver
        } else {
            StepResult::RoundOver
        }
    } else if action == Card::NoCard {
        StepResult::NoResult
    } else {
        StepResult::Success
    }
}

/// Whether every tally of the first `rounds` rounds counts at most a hand
/// of puddings, and not less than none.
pub open spec fn puddings_bounded(players: Seq<PlayerView>, rounds: int) -> bool {
    forall|i: int, r: int|
        0 <= i < players.len() && 0 <= r < rounds ==> 0 <= (
        #[trigger] players[i].rounds[r]).pudding_count <= MAX_HAND_SIZE
}

/// Players that carry the same tallies as before keep the bound on their
/// puddings.
pub proof fn lemma_puddings_carried(before: Seq<PlayerView>, after: Seq<PlayerView>, rounds: int)
    requires
        puddings_bounded(before, rounds),
        after.len() == before.len(),
        forall|i: int| 0 <= i < after.len() ==> (#[trigger] after[i]).rounds == before[i].rounds,
    ensures
        puddings_bounded(after, rounds),
{
    assert forall|i: int, r: int| 0 <= i < after.len() && 0 <= r < rounds implies 0 <= (
    #[trigger] after[i].rounds[r]).pudding_count <= MAX_HAND_SIZE by {
        assert(after[i].rounds == before[i].rounds);
        assert(0 <= before[i].rounds[r].pudding_count <= MAX_HAND_SIZE);
    }
}

/// The cards in the hand that are no placeholders.
pub open spec fn real_hand(p: PlayerView) -> int {
    p.hand.len() - count_of(p.hand, Card::NoCard)
}

impl GameView {
    /// The player whose turn it is.
    pub open spec fn current(self) -> PlayerView {
        self.players[self.current_player as int]
    }

    /// The final score of the winner.
    pub open spec fn winning_score(self) -> i32 {
        self.players[self.winner as int].final_score
    }

    /// Whether the current player was offered an extra pick and has not
    /// answered yet.
    pub open spec fn extra_pick_pending(self) -> bool {
        self.players[self.current_player as int].spent > 0
    }

    /// The cards that each hand of this pass round the table started with.
    pub open spec fn cards_per_hand(self) -> int {
        real_hand(self.players[self.players.len() - 1]) + if self.current_player
            == self.players.len() - 1 && self.extra_pick_pending() {
            1int
        } else {
            0int
        }
    }

    /// The cards that the hand of the player in seat `i` holds: one less
    /// than the hand started with, once the player has picked.
    pub open spec fn expected_hand(self, i: int) -> int {
        self.cards_per_hand() - if i < self.current_player || (i == self.current_player
            && self.extra_pick_pending()) {
            1int
        } else {
            0int
        }
    }

    /// The seats, the rounds and the deck are in order.
    pub open spec fn table_in_order(self) -> bool {
        &&& self.players.len() == self.number_of_players
        &&& 1 <= self.number_of_players <= MAX_PLAYERS
        &&& self.current_player < self.number_of_players
        &&& self.winner < self.number_of_players
        &&& self.current_round <= NUMBER_OF_ROUNDS
        &&& self.game_over <==> self.current_round == NUMBER_OF_ROUNDS
        &&& count_of(self.deck, Card::NoCard) == 0
        &&& self.deck.len() >= (NUMBER_OF_ROUNDS - 1 - self.current_round) * (MAX_HAND_SIZE
            * self.number_of_players)
        &&& forall|i: int|
            0 <= i < self.players.len() ==> {
                &&& (#[trigger] self.players[i]).id == i
                &&& self.players[i].wf()
                &&& self.players[i].rounds.len() == self.current_round
            }
        &&& puddings_bounded(self.players, self.current_round as int)
    }

    /// The hands are in order for a game in play. All hands of a pass round
    /// the table start with the same number of cards, and a player's turn
    /// takes one card from the hand and adds one to the played pile. Only
    /// the current player, and only while an extra pick is offered, holds
    /// placeholders and has chopsticks spent.
    pub open spec fn hands_in_order(self) -> bool {
        &&& 1 <= self.cards_per_hand() <= MAX_HAND_SIZE
        &&& forall|i: int|
            0 <= i < self.players.len() ==> {
                &&& real_hand(#[trigger] self.players[i]) == self.expected_hand(i)
                &&& self.players[i].chosen.len() + real_hand(self.players[i]) == MAX_HAND_SIZE
            }
        &&& forall|i: int|
            0 <= i < self.players.len() && i != self.current_player ==> {
                &&& count_of((#[trigger] self.players[i]).hand, Card::NoCard) == 0
                &&& self.players[i].spent == 0
            }
        &&& !self.extra_pick_pending() ==> count_of(
            self.players[self.current_player as int].hand,
            Card::NoCard,
        ) == 0
        &&& self.extra_pick_pending() ==> {
            &&& count_of(self.players[self.current_player as int].hand, Card::NoCard) > 0
            &&& real_hand(self.players[self.current_player as int]) >= 1
        }
    }

    /// Nothing is left on the table of a game that is over.
    pub open spec fn table_cleared(self) -> bool {
        &&& self.current_player == 0
        &&& forall|i: int|
            0 <= i < self.players.len() ==> {
                &&& (#[trigger] self.players[i]).hand.len() == 0
                &&& self.players[i].chosen.len() == 0
                &&& self.players[i].spent == 0
            }
    }

    /// The game is in order: set up, and played by the rules since.
    pub open spec fn wf(self) -> bool {
        &&& self.table_in_order()
        &&& if self.game_over {
            self.table_cleared()
        } else {
            self.hands_in_order()
        }
    }

    /// Whether the current player may take the given action: it is a card of
    /// the hand. The placeholder is in the hand exactly while an extra pick
    /// is offered, so that is when the player may pass.
    pub open spec fn allows(self, action: Card) -> bool {
        self.players[self.current_player as int].hand.contains(action)
    }

    /// The turns that are left in this round.
    pub open spec fn turns_left(self) -> int {
        self.number_of_players * self.cards_per_hand() - self.current_player
    }

    /// The offers of an extra pick that the current player can still get in
    /// this turn, the pick that starts the turn counted with them.
    pub open spec fn offers_left(self) -> int {
        self.players[self.current_player as int].fresh_chopsticks() + if self.extra_pick_pending() {
            0int
        } else {
            1int
        }
    }

    /// A bound on the steps that the game can still take; none when it is
    /// over. Every step brings it down.
    pub open spec fn steps_left(self) -> int {
        if self.game_over {
            0
        } else {
            (((NUMBER_OF_ROUNDS - self.current_round) * (MAX_PLAYERS * MAX_HAND_SIZE + 1)
                + self.turns_left()) * (MAX_HAND_SIZE + 2)) + self.offers_left()
        }
    }
}

/// What the action of a step does to the player who takes it: the first pick
/// of a turn moves one card from the hand to the played pile; an extra pick
/// takes the chopsticks back for the card, so that both piles keep their
/// sizes; a pass changes nothing. The fresh chopsticks and the placeholders
/// stay as they are.
pub proof fn lemma_picked(p: PlayerView, action: Card)
    requires
        p.wf(),
        p.hand.contains(action),
    ensures
        picked(p, action).wf(),
        picked(p, action).fresh_chopsticks() == p.fresh_chopsticks(),
        count_of(picked(p, action).hand, Card::NoCard) == count_of(p.hand, Card::NoCard),
        picked(p, action).id == p.id,
        picked(p, action).rounds == p.rounds,
        picked(p, action).final_score == p.final_score,
        action != Card::NoCard && p.spent == 0 ==> real_hand(picked(p, action)) == real_hand(p)
            - 1 && picked(p, action).chosen.len() == p.chosen.len() + 1,
        action == Card::NoCard || p.spent > 0 ==> real_hand(picked(p, action)) == real_hand(p)
            && picked(p, action).chosen.len() == p.chosen.len(),
        picked(p, action).cards_held() == p.cards_held(),
{
    if action != Card::NoCard {
        let r = returned(p);
        if p.spent > 0 {
            lemma_count_contains(p.chosen, Card::Chopsticks);
            lemma_remove_first(p.chosen, Card::Chopsticks, Card::Chopsticks);
            lemma_count_push(p.hand, Card::Chopsticks, Card::NoCard);
            assert(r.hand[p.hand.len() as int] == Card::Chopsticks);
            let i = choose|i: int| 0 <= i < p.hand.len() && p.hand[i] == action;
            assert(r.hand[i] == action);
        }
        assert(r.hand.contains(action));
        lemma_remove_first(r.hand, action, Card::NoCard);
        lemma_count_push(r.chosen, action, Card::Chopsticks);
    }
}

/// What the clean-up leaves of a player: the hand without its placeholders,
/// and all chopsticks fresh.
pub proof fn lemma_sanitized(p: PlayerView)
    requires
        p.wf(),
    ensures
        sanitized(p).wf(),
        sanitized(p).hand.len() == real_hand(p),
        real_hand(sanitized(p)) == real_hand(p),
        count_of(sanitized(p).hand, Card::NoCard) == 0,
        count_of(p.hand, Card::NoCard) == 0 ==> sanitized(p).hand == p.hand,
{
    lemma_without(p.hand, Card::NoCard, Card::NoCard);
    lemma_count_contains(p.hand, Card::NoCard);
}

/// A pile that is part of a pile without placeholders holds none either.
pub proof fn lemma_no_placeholder_dealt(deck: Seq<Card>, seats: int, seat: int)
    requires
        count_of(deck, Card::NoCard) == 0,
        0 <= seat < seats,
        deck.len() >= MAX_HAND_SIZE * seats,
    ensures
        count_of(dealt_hand(deck, seat), Card::NoCard) == 0,
        count_of(deck_after_deal(deck, seats), Card::NoCard) == 0,
        dealt_hand(deck, seat).len() == MAX_HAND_SIZE,
        deck_after_deal(deck, seats).len() == deck.len() - MAX_HAND_SIZE * seats,
{
    lemma_count_contains(deck, Card::NoCard);
    let hand = dealt_hand(deck, seat);
    let rest = deck_after_deal(deck, seats);
    lemma_count_contains(hand, Card::NoCard);
    lemma_count_contains(rest, Card::NoCard);
    if hand.contains(Card::NoCard) {
        let k = choose|k: int| 0 <= k < hand.len() && hand[k] == Card::NoCard;
        assert(deck[deck.len() - 1 - (MAX_HAND_SIZE * seat + k)] == Card::NoCard);
    }
    if rest.contains(Card::NoCard) {
        let k = choose|k: int| 0 <= k < rest.len() && rest[k] == Card::NoCard;
        assert(deck[k] == Card::NoCard);
    }
}

/// An offer of an extra pick leaves a game in order, and one offer less.
pub proof fn lemma_offer(g: GameView, action: Card)
    requires
        g.wf(),
        !g.game_over,
        g.allows(action),
        offers_extra_pick(picked(g.players[g.current_player as int], action)),
    ensures
        progressed(g, action).wf(),
        progressed(g, action).steps_left() < g.steps_left(),
{
    let c = g.current_player as int;
    let n = g.players.len() as int;
    let p = g.players[c];
    let q = picked(p, action);
    let o = offered(q);
    let h = progressed(g, action);
    lemma_picked(p, action);
    lemma_count_push(q.hand, Card::NoCard, Card::NoCard);
    assert(h.players == g.players.update(c, o));
    assert(h.players[c] == o);
    assert(h.extra_pick_pending());
    assert(real_hand(o) == real_hand(q));
    if !g.extra_pick_pending() {
        // the hand held no placeholder, so the pick was a card, and one is left
        lemma_count_contains(p.hand, Card::NoCard);
        assert(action != Card::NoCard);
        assert(real_hand(q) == q.hand.len());
    }
    assert(h.cards_per_hand() == g.cards_per_hand()) by {
        if c != n - 1 {
            assert(h.players[n - 1] == g.players[n - 1]);
        }
    }
    assert forall|i: int| 0 <= i < h.players.len() implies {
        &&& (#[trigger] h.players[i]).id == i
        &&& h.players[i].wf()
        &&& h.players[i].rounds.len() == h.current_round
        &&& real_hand(h.players[i]) == h.expected_hand(i)
        &&& h.players[i].chosen.len() + real_hand(h.players[i]) == MAX_HAND_SIZE
    } by {
        if i != c {
            assert(h.players[i] == g.players[i]);
        }
    }
    lemma_puddings_carried(g.players, h.players, h.current_round as int);
    assert forall|i: int| 0 <= i < h.players.len() && i != h.current_player implies {
        &&& count_of((#[trigger] h.players[i]).hand, Card::NoCard) == 0
        &&& h.players[i].spent == 0
    } by {
        assert(h.players[i] == g.players[i]);
    }
    assert(h.turns_left() == g.turns_left());
    assert(h.offers_left() < g.offers_left());
}

/// The players as the clean-up at the end of a turn leaves them: nobody
/// holds a placeholder or has chopsticks spent, the players up to the one
/// whose turn it was have picked, and the others have not.
pub open spec fn turn_closed(g: GameView, cleaned: Seq<PlayerView>) -> bool {
    &&& cleaned.len() == g.players.len()
    &&& forall|i: int|
        0 <= i < cleaned.len() ==> {
            &&& (#[trigger] cleaned[i]).id == i
            &&& cleaned[i].wf()
            &&& cleaned[i].rounds == g.players[i].rounds
            &&& cleaned[i].final_score == g.players[i].final_score
            &&& cleaned[i].spent == 0
            &&& count_of(cleaned[i].hand, Card::NoCard) == 0
            &&& cleaned[i].hand.len() == g.cards_per_hand() - if i <= g.current_player {
                1int
            } else {
                0int
            }
            &&& cleaned[i].chosen.len() + cleaned[i].hand.len() == MAX_HAND_SIZE
        }
}

/// The end of a turn leaves the players as `turn_closed` says.
pub proof fn lemma_turn_closed(g: GameView, action: Card)
    requires
        g.wf(),
        !g.game_over,
        g.allows(action),
    ensures
        turn_closed(
            g,
            all_sanitized(
                g.players.update(
                    g.current_player as int,
                    picked(g.players[g.current_player as int], action),
                ),
            ),
        ),
{
    let c = g.current_player as int;
    let p = g.players[c];
    let q = picked(p, action);
    let moved = g.players.update(c, q);
    let cleaned = all_sanitized(moved);
    lemma_picked(p, action);
    if !g.extra_pick_pending() {
        lemma_count_contains(p.hand, Card::NoCard);
    }
    assert forall|i: int| 0 <= i < cleaned.len() implies {
        &&& (#[trigger] cleaned[i]).id == i
        &&& cleaned[i].wf()
        &&& cleaned[i].rounds == g.players[i].rounds
        &&& cleaned[i].final_score == g.players[i].final_score
        &&& cleaned[i].spent == 0
        &&& count_of(cleaned[i].hand, Card::NoCard) == 0
        &&& cleaned[i].hand.len() == g.cards_per_hand() - if i <= g.current_player {
            1int
        } else {
            0int
        }
        &&& cleaned[i].chosen.len() + cleaned[i].hand.len() == MAX_HAND_SIZE
    } by {
        assert(cleaned[i] == sanitized(moved[i]));
        lemma_sanitized(moved[i]);
        if i != c {
            assert(moved[i] == g.players[i]);
            assert(real_hand(g.players[i]) == g.expected_hand(i));
        } else {
            assert(real_hand(p) == g.expected_hand(c));
        }
    }
}

/// Passing the turn to the next player leaves a game in order, and one turn
/// less in the round.
pub proof fn lemma_next_player(g: GameView, cleaned: Seq<PlayerView>)
    requires
        g.wf(),
        !g.game_over,
        turn_closed(g, cleaned),
        !hands_empty(cleaned),
        g.current_player + 1 < g.number_of_players,
    ensures
        (GameView { players: cleaned, current_player: (g.current_player + 1) as usize, ..g }).wf(),
        (GameView {
            players: cleaned,
            current_player: (g.current_player + 1) as usize,
            ..g
        }).steps_left() < g.steps_left(),
{
    let h = GameView { players: cleaned, current_player: (g.current_player + 1) as usize, ..g };
    let n = g.players.len() as int;
    let c = g.current_player as int;
    assert(!h.extra_pick_pending());
    assert(real_hand(cleaned[n - 1]) == cleaned[n - 1].hand.len());
    assert(h.cards_per_hand() == g.cards_per_hand());
    assert forall|i: int| 0 <= i < h.players.len() implies {
        &&& (#[trigger] h.players[i]).id == i
        &&& h.players[i].wf()
        &&& h.players[i].rounds.len() == h.current_round
        &&& real_hand(h.players[i]) == h.expected_hand(i)
        &&& h.players[i].chosen.len() + real_hand(h.players[i]) == MAX_HAND_SIZE
    } by {
        assert(cleaned[i].rounds == g.players[i].rounds);
    }
    lemma_puddings_carried(g.players, h.players, h.current_round as int);
    lemma_steps_bounds(g);
    lemma_steps_bounds(h);
    assert(h.turns_left() == g.turns_left() - 1);
}

/// Passing the hands round after the last player's turn leaves a game in
/// order, and one turn less in the round.
pub proof fn lemma_hands_passed(g: GameView, cleaned: Seq<PlayerView>)
    requires
        g.wf(),
        !g.game_over,
        turn_closed(g, cleaned),
        !hands_empty(cleaned),
        g.current_player + 1 >= g.number_of_players,
    ensures
        (GameView { players: rotated(cleaned), current_player: 0, ..g }).wf(),
        (GameView { players: rotated(cleaned), current_player: 0, ..g }).steps_left()
            < g.steps_left(),
{
    let h = GameView { players: rotated(cleaned), current_player: 0, ..g };
    let n = g.players.len() as int;
    let per_hand = g.cards_per_hand();
    let some = choose|i: int| 0 <= i < cleaned.len() && (#[trigger] cleaned[i]).hand.len() != 0;
    assert(cleaned[some].hand.len() == per_hand - 1);
    assert forall|i: int| 0 <= i < n implies 0 <= #[trigger] ((i + n - 1) % n) < n by {
        assert(0 <= (i + n - 1) % n < n) by (nonlinear_arith)
            requires
                n > 0,
                0 <= i,
        ;
    }
    assert forall|i: int| 0 <= i < n implies {
        &&& (#[trigger] h.players[i]).hand.len() == per_hand - 1
        &&& count_of(h.players[i].hand, Card::NoCard) == 0
        &&& h.players[i].chosen == cleaned[i].chosen
        &&& h.players[i].spent == 0
        &&& h.players[i].rounds == g.players[i].rounds
    } by {
        let from = (i + n - 1) % n;
        assert(0 <= from < n);
        assert(h.players[i].hand == cleaned[from].hand);
        assert(cleaned[from].hand.len() == per_hand - 1);
        assert(cleaned[i].hand.len() == per_hand - 1);
    }
    assert(!h.extra_pick_pending());
    assert(h.cards_per_hand() == per_hand - 1);
    assert forall|i: int| 0 <= i < h.players.len() implies {
        &&& (#[trigger] h.players[i]).id == i
        &&& h.players[i].wf()
        &&& h.players[i].rounds.len() == h.current_round
        &&& real_hand(h.players[i]) == h.expected_hand(i)
        &&& h.players[i].chosen.len() + real_hand(h.players[i]) == MAX_HAND_SIZE
    } by {
        assert(cleaned[i].wf());
        assert(cleaned[i].hand.len() == per_hand - 1);
    }
    lemma_puddings_carried(g.players, h.players, h.current_round as int);
    lemma_steps_bounds(g);
    lemma_steps_bounds(h);
    assert(n * (per_hand - 1) == n * per_hand - n) by (nonlinear_arith);
    assert(h.turns_left() == g.turns_left() - 1);
}

/// The sum of the puddings of a player whose tallies each count at most a
/// hand of puddings.
pub proof fn lemma_pudding_total_bounded(rounds: Seq<SushiResult>, total_rounds: int)
    requires
        0 <= total_rounds <= rounds.len(),
        forall|r: int|
            0 <= r < rounds.len() ==> 0 <= (#[trigger] rounds[r]).pudding_count <= MAX_HAND_SIZE,
    ensures
        0 <= pudding_total(rounds, total_rounds) <= MAX_HAND_SIZE * total_rounds,
    decreases total_rounds,
{
    if total_rounds > 0 {
        lemma_pudding_total_bounded(rounds, total_rounds - 1);
    }
}

/// Closing a round leaves a game in order: when it was the last round, the
/// game is over and the table is cleared; else new hands are dealt and a
/// round less is left to play.
pub proof fn lemma_round_over(g: GameView, cleaned: Seq<PlayerView>)
    requires
        g.wf(),
        !g.game_over,
        turn_closed(g, cleaned),
        hands_empty(cleaned),
    ensures
        round_ended(GameView { players: cleaned, ..g }).wf(),
        round_ended(GameView { players: cleaned, ..g }).steps_left() < g.steps_left(),
        round_ended(GameView { players: cleaned, ..g }).game_over <==> g.current_round + 1
            >= NUMBER_OF_ROUNDS,
{
    let before = GameView { players: cleaned, ..g };
    let h = round_ended(before);
    let n = g.players.len() as int;
    let closed = all_round_closed(cleaned);
    let round = g.current_round + 1;
    assert forall|i: int| 0 <= i < n implies {
        &&& (#[trigger] closed[i]).id == i
        &&& closed[i].wf()
        &&& closed[i].rounds.len() == round
        &&& closed[i].hand.len() == 0
        &&& closed[i].chosen.len() == 0
        &&& closed[i].spent == 0
        &&& forall|r: int|
            0 <= r < round ==> 0 <= (#[trigger] closed[i].rounds[r]).pudding_count
                <= MAX_HAND_SIZE
    } by {
        assert(cleaned[i].hand.len() == 0);
        assert(cleaned[i].wf());
        assert(cleaned[i].rounds == g.players[i].rounds);
        lemma_tally_records(cleaned[i].chosen);
        lemma_counts_bounded(cleaned[i].chosen, Card::Pudding);
        assert forall|r: int| 0 <= r < round implies 0 <= (
        #[trigger] closed[i].rounds[r]).pudding_count <= MAX_HAND_SIZE && closed[i].rounds[r].wf() by {
            if r < round - 1 {
                assert(closed[i].rounds[r] == g.players[i].rounds[r]);
                assert(g.players[i].wf());
            }
        }
    }
    lemma_steps_bounds(g);
    if round >= NUMBER_OF_ROUNDS {
        assert(h.players == closed);
        let deals_left = NUMBER_OF_ROUNDS - 1 - h.current_round;
        let cards_a_deal = MAX_HAND_SIZE * h.number_of_players;
        assert(deals_left * cards_a_deal <= 0) by (nonlinear_arith)
            requires
                deals_left == -1,
                cards_a_deal >= 0,
        ;
        assert forall|i: int| 0 <= i < n implies {
            &&& (#[trigger] h.players[i]).id == i
            &&& h.players[i].wf()
            &&& h.players[i].rounds.len() == h.current_round
            &&& h.players[i].hand.len() == 0
            &&& h.players[i].chosen.len() == 0
            &&& h.players[i].spent == 0
        } by {
            assert(closed[i].wf());
            assert(h.players[i].rounds == closed[i].rounds);
        }
        assert(puddings_bounded(closed, h.current_round as int));
        lemma_puddings_carried(closed, h.players, h.current_round as int);
    } else {
        assert(h.players == dealt_to(closed, g.deck));
        assert(g.deck.len() >= MAX_HAND_SIZE * n) by (nonlinear_arith)
            requires
                g.deck.len() >= (NUMBER_OF_ROUNDS - 1 - g.current_round) * (MAX_HAND_SIZE * n),
                NUMBER_OF_ROUNDS - 1 - g.current_round >= 1,
                n >= 0,
        ;
        assert forall|i: int| 0 <= i < n implies {
            &&& (#[trigger] h.players[i]).id == i
            &&& h.players[i].wf()
            &&& h.players[i].rounds.len() == h.current_round
            &&& h.players[i].hand.len() == MAX_HAND_SIZE
            &&& count_of(h.players[i].hand, Card::NoCard) == 0
            &&& h.players[i].chosen.len() == 0
            &&& h.players[i].spent == 0
        } by {
            assert(closed[i].wf());
            lemma_no_placeholder_dealt(g.deck, n, i);
            assert(closed[i].hand + dealt_hand(g.deck, i) == dealt_hand(g.deck, i));
            assert(h.players[i].rounds == closed[i].rounds);
        }
        lemma_no_placeholder_dealt(g.deck, n, 0);
        assert(!h.extra_pick_pending());
        assert(h.cards_per_hand() == MAX_HAND_SIZE);
        assert(puddings_bounded(closed, h.current_round as int));
        lemma_puddings_carried(closed, h.players, h.current_round as int);
        let deals_left = NUMBER_OF_ROUNDS - 1 - h.current_round;
        let cards_a_deal = MAX_HAND_SIZE * h.number_of_players;
        assert(h.deck.len() >= deals_left * cards_a_deal) by (nonlinear_arith)
            requires
                h.deck.len() == g.deck.len() - cards_a_deal,
                g.deck.len() >= (deals_left + 1) * cards_a_deal,
        ;
        lemma_steps_bounds(h);
        let turn_span = MAX_PLAYERS * MAX_HAND_SIZE + 1;
        let rounds_left = NUMBER_OF_ROUNDS - g.current_round;
        assert(turn_span == 33);
        assert((rounds_left - 1) * turn_span == rounds_left * turn_span - turn_span)
            by (nonlinear_arith);
        assert(h.steps_left() == ((rounds_left - 1) * turn_span + h.turns_left()) * 10
            + h.offers_left());
        assert(g.steps_left() == (rounds_left * turn_span + g.turns_left()) * 10
            + g.offers_left());
    }
}

/// Playing out the action of a step leaves a game in order and brings it
/// nearer to its end.
pub proof fn lemma_progressed(g: GameView, action: Card)
    requires
        g.wf(),
        !g.game_over,
        g.allows(action),
    ensures
        progressed(g, action).wf(),
        0 <= progressed(g, action).steps_left() < g.steps_left(),
        progressed(g, action).number_of_players == g.number_of_players,
        progressed(g, action).winner == g.winner,
        progressed(g, action).game_over <==> step_result(g, action) == StepResult::GameOver,
{
    let c = g.current_player as int;
    let q = picked(g.players[c], action);
    let h = progressed(g, action);
    if offers_extra_pick(q) {
        lemma_offer(g, action);
    } else {
        let cleaned = all_sanitized(g.players.update(c, q));
        lemma_turn_closed(g, action);
        if hands_empty(cleaned) {
            lemma_round_over(g, cleaned);
        } else if g.current_player + 1 >= g.number_of_players {
            lemma_hands_passed(g, cleaned);
        } else {
            lemma_next_player(g, cleaned);
        }
    }
    if !h.game_over {
        lemma_steps_bounds(h);
    }
}

/// Recording the final scores leaves a game in order, and as near to its end
/// as it was.
pub proof fn lemma_settled(g: GameView)
    requires
        g.wf(),
    ensures
        settled(g).wf(),
        settled(g).steps_left() == g.steps_left(),
{
    let h = settled(g);
    if g.game_over {
        assert forall|i: int| 0 <= i < h.players.len() implies {
            &&& (#[trigger] h.players[i]).id == i
            &&& h.players[i].wf()
            &&& h.players[i].rounds.len() == h.current_round
            &&& h.players[i].hand.len() == 0
            &&& h.players[i].chosen.len() == 0
            &&& h.players[i].spent == 0
        } by {
            assert(g.players[i].wf());
            assert(h.players[i].rounds == g.players[i].rounds);
        }
        lemma_puddings_carried(g.players, h.players, h.current_round as int);
    }
}

/// Every step leaves a game in order and brings it nearer to its end: this
/// is why every game ends.
pub proof fn lemma_step(g: GameView, action: Card)
    requires
        g.wf(),
        !g.game_over,
        g.allows(action),
    ensures
        next_state(g, action).wf(),
        0 <= next_state(g, action).steps_left() < g.steps_left(),
        next_state(g, action).number_of_players == g.number_of_players,
        next_state(g, action).winner == g.winner,
        next_state(g, action).game_over <==> step_result(g, action) == StepResult::GameOver,
{
    lemma_progressed(g, action);
    lemma_settled(progressed(g, action));
}

/// The players of a new game: the seats are their identities, and they hold
/// nothing.
pub open spec fn fresh_players(seats: int) -> Seq<PlayerView> {
    Seq::new(
        seats as nat,
        |i: int|
            PlayerView {
                id: i as usize,
                hand: Seq::empty(),
                chosen: Seq::empty(),
                spent: 0,
                rounds: Seq::empty(),
                final_score: 0,
            },
    )
}

/// The game as it opens, once the deck is shuffled: the first hands are
/// dealt, and player 0 starts round 0.
pub open spec fn opening(shuffled: Seq<Card>, seats: usize, winner: usize) -> GameView {
    GameView {
        deck: deck_after_deal(shuffled, seats as int),
        players: dealt_to(fresh_players(seats as int), shuffled),
        current_player: 0,
        game_over: false,
        current_round: 0,
        number_of_players: seats,
        winner,
    }
}

/// The deck out of the box holds `DECK_SIZE` cards and no placeholder.
pub proof fn lemma_standard_deck()
    ensures
        standard_deck().len() == DECK_SIZE,
        count_of(standard_deck(), Card::NoCard) == 0,
{
    let deck = standard_deck();
    lemma_count_contains(deck, Card::NoCard);
    assert(deck.len() == 114);
    if deck.contains(Card::NoCard) {
        let k = choose|k: int| 0 <= k < deck.len() && deck[k] == Card::NoCard;
        assert(deck[k] != Card::NoCard);
    }
}

/// The deck deals every round of a game to as many as `MAX_PLAYERS` players:
/// no deal of a game finds the deck short.
pub proof fn lemma_deck_suffices(seats: int, deals_made: int)
    requires
        0 <= seats <= MAX_PLAYERS,
        0 <= deals_made < NUMBER_OF_ROUNDS,
    ensures
        DECK_SIZE - deals_made * (MAX_HAND_SIZE * seats) >= MAX_HAND_SIZE * seats,
        DECK_SIZE >= NUMBER_OF_ROUNDS * (MAX_HAND_SIZE * seats),
{
    assert((deals_made + 1) * (8 * seats) <= 96) by (nonlinear_arith)
        requires
            0 <= seats <= 4,
            0 <= deals_made < 3,
    ;
    assert((deals_made + 1) * (8 * seats) == deals_made * (8 * seats) + 8 * seats)
        by (nonlinear_arith);
}

/// A deck that holds a hand for every player in every round is never short:
/// whatever the sizes, whoever deals from it finds a hand for each player as
/// long as rounds are left.
pub proof fn lemma_deals_never_run_short(
    deck_size: int,
    seats: int,
    hand_size: int,
    rounds: int,
    deals_made: int,
)
    requires
        0 <= seats,
        0 <= hand_size,
        0 <= deals_made < rounds,
        deck_size >= rounds * (hand_size * seats),
    ensures
        deck_size - deals_made * (hand_size * seats) >= hand_size * seats,
{
    assert(rounds * (hand_size * seats) >= (deals_made + 1) * (hand_size * seats))
        by (nonlinear_arith)
        requires
            rounds >= deals_made + 1,
            hand_size * seats >= 0,
    ;
    assert(hand_size * seats >= 0) by (nonlinear_arith)
        requires
            0 <= seats,
            0 <= hand_size,
    ;
    assert((deals_made + 1) * (hand_size * seats) == deals_made * (hand_size * seats) + hand_size
        * seats) by (nonlinear_arith);
}

/// A game opens in order, whatever order the shuffle left the deck in.
pub proof fn lemma_opening(shuffled: Seq<Card>, seats: usize, winner: usize)
    requires
        shuffled.to_multiset() == standard_deck().to_multiset(),
        1 <= seats <= MAX_PLAYERS,
        winner < seats,
    ensures
        opening(shuffled, seats, winner).wf(),
        opening(shuffled, seats, winner).cards_per_hand() == MAX_HAND_SIZE,
{
    broadcast use vstd::seq_lib::group_to_multiset_ensures;

    let g = opening(shuffled, seats, winner);
    let n = seats as int;
    lemma_standard_deck();
    lemma_count_contains(standard_deck(), Card::NoCard);
    lemma_count_contains(shuffled, Card::NoCard);
    assert(shuffled.len() == shuffled.to_multiset().len());
    assert(standard_deck().len() == standard_deck().to_multiset().len());
    assert(shuffled.contains(Card::NoCard) <==> shuffled.to_multiset().count(Card::NoCard) > 0);
    assert(standard_deck().contains(Card::NoCard) <==> standard_deck().to_multiset().count(
        Card::NoCard,
    ) > 0);
    lemma_deck_suffices(n, 0);
    assert forall|i: int| 0 <= i < n implies {
        &&& (#[trigger] g.players[i]).id == i
        &&& g.players[i].wf()
        &&& g.players[i].rounds.len() == 0
        &&& g.players[i].hand.len() == MAX_HAND_SIZE
        &&& count_of(g.players[i].hand, Card::NoCard) == 0
        &&& g.players[i].chosen.len() == 0
        &&& g.players[i].spent == 0
    } by {
        lemma_no_placeholder_dealt(shuffled, n, i);
        assert(fresh_players(n)[i].hand + dealt_hand(shuffled, i) == dealt_hand(shuffled, i));
    }
    lemma_no_placeholder_dealt(shuffled, n, 0);
    assert(!g.extra_pick_pending());
    assert(g.cards_per_hand() == MAX_HAND_SIZE);
    let deals_left = NUMBER_OF_ROUNDS - 1 - g.current_round;
    let cards_a_deal = MAX_HAND_SIZE * g.number_of_players;
    assert(g.deck.len() >= deals_left * cards_a_deal) by (nonlinear_arith)
        requires
            g.deck.len() == 114 - cards_a_deal,
            deals_left == 2,
            cards_a_deal <= 32,
    ;
}

/// Passing the hands round is a permutation: every player takes the hand of
/// exactly one other seat, every hand goes to exactly one player, and
/// nothing but the hands changes.
pub proof fn lemma_hands_go_round(players: Seq<PlayerView>, seat: int, other: int)
    requires
        0 <= seat < players.len(),
        0 <= other < players.len(),
    ensures
        rotated(players).len() == players.len(),
        0 <= (seat + players.len() - 1) % (players.len() as int) < players.len(),
        rotated(players)[seat] == (PlayerView {
            hand: players[(seat + players.len() - 1) % (players.len() as int)].hand,
            ..players[seat]
        }),
        rotated(players)[(seat + 1) % (players.len() as int)].hand == players[seat].hand,
        seat != other ==> (seat + players.len() - 1) % (players.len() as int) != (other
            + players.len() - 1) % (players.len() as int),
{
    let n = players.len() as int;
    assert(0 <= (seat + n - 1) % n < n && 0 <= (seat + 1) % n < n && ((seat + 1) % n + n - 1) % n
        == seat) by (nonlinear_arith)
        requires
            0 <= seat < n,
    ;
    assert(seat != other ==> (seat + n - 1) % n != (other + n - 1) % n) by (nonlinear_arith)
        requires
            0 <= seat < n,
            0 <= other < n,
    ;
}

/// Paying for a pick with chopsticks changes no count of cards: when the
/// player answers the offer of an extra pick with a card, the deck stays as
/// it is, and every player has as many cards as before, hand and played
/// pile together, the placeholders not counted.
pub proof fn lemma_chopsticks_keep_the_cards(g: GameView, action: Card, seat: int)
    requires
        g.wf(),
        !g.game_over,
        g.allows(action),
        g.extra_pick_pending(),
        action != Card::NoCard,
        0 <= seat < g.players.len(),
    ensures
        progressed(g, action).deck == g.deck,
        progressed(g, action).players.len() == g.players.len(),
        real_hand(progressed(g, action).players[seat]) + progressed(
            g,
            action,
        ).players[seat].chosen.len() == real_hand(g.players[seat])
            + g.players[seat].chosen.len(),
        picked(g.players[g.current_player as int], action).cards_held()
            == g.players[g.current_player as int].cards_held(),
{
    let c = g.current_player as int;
    let q = picked(g.players[c], action);
    let h = progressed(g, action);
    lemma_picked(g.players[c], action);
    lemma_progressed(g, action);
    if !offers_extra_pick(q) {
        let cleaned = all_sanitized(g.players.update(c, q));
        lemma_turn_closed(g, action);
        assert(cleaned[c].hand.len() >= 1);
        assert(!hands_empty(cleaned));
    }
    assert(!h.game_over);
    assert(h.players[seat].chosen.len() + real_hand(h.players[seat]) == MAX_HAND_SIZE);
    assert(g.players[seat].chosen.len() + real_hand(g.players[seat]) == MAX_HAND_SIZE);
}

/// A game in play is never stuck: the current player holds a card to play.
pub proof fn lemma_current_player_can_play(g: GameView)
    requires
        g.wf(),
        !g.game_over,
    ensures
        g.players[g.current_player as int].hand.len() > 0,
        exists|card: Card| card != Card::NoCard && #[trigger] g.allows(card),
{
    let p = g.players[g.current_player as int];
    assert(real_hand(p) == g.expected_hand(g.current_player as int));
    assert(real_hand(p) >= 1);
    lemma_holds_another(p.hand, Card::NoCard);
    let i = choose|i: int| 0 <= i < p.hand.len() && p.hand[i] != Card::NoCard;
    assert(g.allows(p.hand[i]));
}

/// The longest game: a game takes at most 1311 steps from its opening, and
/// fewer with fewer players.
pub proof fn lemma_game_length(shuffled: Seq<Card>, seats: usize, winner: usize)
    requires
        shuffled.to_multiset() == standard_deck().to_multiset(),
        1 <= seats <= MAX_PLAYERS,
        winner < seats,
    ensures
        opening(shuffled, seats, winner).steps_left() == (NUMBER_OF_ROUNDS * 33 + seats
            * MAX_HAND_SIZE) * 10 + 1,
        opening(shuffled, seats, winner).steps_left() <= 1311,
{
    let g = opening(shuffled, seats, winner);
    lemma_opening(shuffled, seats, winner);
    assert(g.players[0].chosen.len() == 0);
    assert(count_of(g.players[0].chosen, Card::Chopsticks) == 0);
    assert(g.offers_left() == 1);
    assert(g.turns_left() == seats * 8) by (nonlinear_arith)
        requires
            g.turns_left() == seats * g.cards_per_hand() - 0,
            g.cards_per_hand() == 8,
    ;
}

/// Where every player ends the game with the same number of puddings, the
/// puddings change no final score: it is the points of the rounds alone.
pub proof fn lemma_tied_puddings_change_no_score(players: Seq<PlayerView>, i: int)
    requires
        forall|j: int, k: int|
            0 <= j < players.len() && 0 <= k < players.len() ==> pudding_total(
                players[j].rounds,
                NUMBER_OF_ROUNDS as int,
            ) == pudding_total(players[k].rounds, NUMBER_OF_ROUNDS as int),
    ensures
        final_score_of(players, i) == rounds_score(players, i, NUMBER_OF_ROUNDS as int),
{
    let totals = pudding_totals(players, NUMBER_OF_ROUNDS as int);
    assert forall|j: int, k: int| 0 <= j < totals.len() && 0 <= k < totals.len() implies totals[j]
        == totals[k] by {
        assert(pudding_total(players[j].rounds, NUMBER_OF_ROUNDS as int) == pudding_total(
            players[k].rounds,
            NUMBER_OF_ROUNDS as int,
        ));
    }
    lemma_no_pudding_points_when_all_equal(totals, i);
}

/// The turn of the last player passes the hands round. Where the last
/// player, with no chopsticks in the played pile, plays a card and cards are
/// left to play, the step succeeds and the first player is on; the first
/// player holds what the last has left, every other player holds the hand
/// that the seat before held, and the card lies on top of the pile of the
/// player who played it. No hand is made or lost on the way.
pub proof fn lemma_last_turn_passes_the_hands(g: GameView, action: Card, seat: int)
    requires
        g.wf(),
        !g.game_over,
        g.allows(action),
        action != Card::NoCard,
        g.current_player == g.players.len() - 1,
        count_of(g.current().chosen, Card::Chopsticks) == 0,
        g.cards_per_hand() > 1,
        0 <= seat < g.players.len(),
    ensures
        step_result(g, action) == StepResult::Success,
        next_state(g, action).current_player == 0,
        next_state(g, action).deck == g.deck,
        next_state(g, action).players.len() == g.players.len(),
        next_state(g, action).players[0].hand == remove_first(g.current().hand, action),
        seat > 0 ==> next_state(g, action).players[seat].hand == g.players[seat - 1].hand,
        next_state(g, action).players[seat].chosen == if seat == g.current_player {
            g.current().chosen.push(action)
        } else {
            g.players[seat].chosen
        },
{
    let c = g.current_player as int;
    let n = g.players.len() as int;
    let p = g.players[c];
    let q = picked(p, action);
    let moved = g.players.update(c, q);
    let cleaned = all_sanitized(moved);
    assert(p.wf());
    assert(p.spent == 0);
    assert(!g.extra_pick_pending());
    lemma_picked(p, action);
    lemma_count_push(p.chosen, action, Card::Chopsticks);
    assert(q.fresh_chopsticks() == 0);
    lemma_turn_closed(g, action);
    assert(cleaned[0].hand.len() >= 1);
    assert(!hands_empty(cleaned));
    assert(progressed(g, action) == GameView { players: rotated(cleaned), current_player: 0, ..g });
    assert forall|i: int| 0 <= i < n implies (#[trigger] cleaned[i]).hand == moved[i].hand
        && cleaned[i].chosen == moved[i].chosen by {
        assert(cleaned[i] == sanitized(moved[i]));
        if i != c {
            assert(moved[i] == g.players[i]);
            assert(g.players[i].wf());
        }
        lemma_sanitized(moved[i]);
    }
    lemma_hands_go_round(cleaned, seat, seat);
    lemma_hands_go_round(cleaned, 0, 0);
    assert((0 + n - 1) % n == n - 1) by (nonlinear_arith)
        requires
            n > 0,
    ;
    if seat > 0 {
        assert((seat + n - 1) % n == seat - 1) by (nonlinear_arith)
            requires
                0 < seat < n,
        ;
        assert(moved[seat - 1] == g.players[seat - 1]);
    }
}

/// How far the parts of `steps_left` reach in a game in play.
pub proof fn lemma_steps_bounds(g: GameView)
    requires
        g.table_in_order(),
        !g.game_over,
        g.hands_in_order(),
    ensures
        1 <= g.turns_left() <= MAX_PLAYERS * MAX_HAND_SIZE,
        0 <= g.offers_left() <= MAX_HAND_SIZE + 1,
        g.steps_left() > 0,
{
    let n = g.number_of_players as int;
    let per_hand = g.cards_per_hand();
    let c = g.current_player as int;
    assert(n <= n * per_hand <= 32) by (nonlinear_arith)
        requires
            1 <= n <= 4,
            1 <= per_hand <= 8,
    ;
    let p = g.players[c];
    assert(p.wf());
    lemma_counts_bounded(p.chosen, Card::Chopsticks);
    assert(p.chosen.len() + real_hand(p) == MAX_HAND_SIZE);
    lemma_counts_bounded(p.hand, Card::NoCard);
    if g.extra_pick_pending() {
        assert(real_hand(p) >= 1);
    }
}

} // verus!
