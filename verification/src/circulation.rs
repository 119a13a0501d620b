//! The cards in circulation: while a round goes on, a step moves cards
//! between hands and played piles, and makes or loses none.

use vstd::prelude::*;
use crate::card::Card;
use crate::game::{
    all_sanitized, hands_empty, rotated, sanitized, GameView, StepResult, MAX_HAND_SIZE,
};
use crate::pile::{lemma_count_contains, lemma_count_push, lemma_remove_first, lemma_without};
use crate::player::PlayerView;
use crate::tally::count_of;
use crate::turn::{
    lemma_picked, lemma_progressed, next_state, offered, offers_extra_pick, picked, progressed,
    real_hand, returned, step_result,
};

verus! {

/// The values together.
pub open spec fn total(values: Seq<int>) -> int
    decreases values.len(),
{
    if values.len() == 0 {
        0
    } else {
        total(values.drop_last()) + values.last()
    }
}

/// The values after each has moved on one place, the last to the front.
pub open spec fn shifted(values: Seq<int>) -> Seq<int> {
    Seq::new(values.len(), |i: int| values[(i + values.len() - 1) % (values.len() as int)])
}

/// How many cards of a kind each player holds in hand.
pub open spec fn in_hands(players: Seq<PlayerView>, kind: Card) -> Seq<int> {
    Seq::new(players.len(), |i: int| count_of(players[i].hand, kind) as int)
}

/// How many cards of a kind each player has in the played pile.
pub open spec fn in_piles(players: Seq<PlayerView>, kind: Card) -> Seq<int> {
    Seq::new(players.len(), |i: int| count_of(players[i].chosen, kind) as int)
}

/// The cards of a kind in circulation: in the deck, in the hands of all
/// players and in their played piles.
pub open spec fn in_circulation(g: GameView, kind: Card) -> int {
    count_of(g.deck, kind) + total(in_hands(g.players, kind)) + total(in_piles(g.players, kind))
}

/// The cards with each player, hand and played pile together, the
/// placeholders not counted.
pub open spec fn with_players(players: Seq<PlayerView>) -> Seq<int> {
    Seq::new(players.len(), |i: int| real_hand(players[i]) + players[i].chosen.len())
}

/// The total after one value is put in the place of another.
pub proof fn lemma_total_update(values: Seq<int>, at: int, value: int)
    requires
        0 <= at < values.len(),
    ensures
        total(values.update(at, value)) == total(values) - values[at] + value,
    decreases values.len(),
{
    let changed = values.update(at, value);
    if at == values.len() - 1 {
        assert(changed.drop_last() == values.drop_last());
    } else {
        lemma_total_update(values.drop_last(), at, value);
        assert(changed.drop_last() == values.drop_last().update(at, value));
    }
}

/// The total with one more value in front.
pub proof fn lemma_total_prepend(first: int, values: Seq<int>)
    ensures
        total(seq![first] + values) == first + total(values),
    decreases values.len(),
{
    let all = seq![first] + values;
    if values.len() == 0 {
        assert(all.len() == 1);
        assert(all.last() == first);
        assert(all.drop_last() == Seq::<int>::empty());
        assert(total(all.drop_last()) == 0);
    } else {
        lemma_total_prepend(first, values.drop_last());
        assert(all.last() == values.last());
        assert(all.drop_last() == seq![first] + values.drop_last());
    }
}

/// Moving every value on one place changes nothing of the total.
pub proof fn lemma_total_shifted(values: Seq<int>)
    ensures
        total(shifted(values)) == total(values),
{
    let n = values.len() as int;
    if n > 0 {
        let moved = seq![values.last()] + values.drop_last();
        assert forall|i: int| 0 <= i < n implies shifted(values)[i] == moved[i] by {
            if i == 0 {
                assert((0 + n - 1) % n == n - 1) by (nonlinear_arith)
                    requires
                        n > 0,
                ;
            } else {
                assert((i + n - 1) % n == i - 1) by (nonlinear_arith)
                    requires
                        0 < i < n,
                ;
            }
        }
        assert(shifted(values) == moved);
        lemma_total_prepend(values.last(), values.drop_last());
    }
}

/// Values that are all one number add up to that number for each of them.
pub proof fn lemma_total_of_equals(values: Seq<int>, each: int)
    requires
        forall|i: int| 0 <= i < values.len() ==> #[trigger] values[i] == each,
    ensures
        total(values) == each * values.len(),
    decreases values.len(),
{
    if values.len() > 0 {
        assert forall|i: int| 0 <= i < values.drop_last().len() implies #[trigger] values.drop_last()[i]
            == each by {
            assert(values[i] == each);
        }
        lemma_total_of_equals(values.drop_last(), each);
        assert(values[values.len() - 1] == each);
        assert(each * (values.len() - 1) + each == each * values.len()) by (nonlinear_arith);
    }
}

/// What a player does in a step makes and loses no card: of every kind but
/// the placeholder the player has as many as before, hand and played pile
/// together. This holds with and without chopsticks to pay for the pick.
pub proof fn lemma_player_keeps_the_cards(p: PlayerView, action: Card, kind: Card)
    requires
        p.wf(),
        p.hand.contains(action),
        kind != Card::NoCard,
    ensures
        count_of(picked(p, action).hand, kind) + count_of(picked(p, action).chosen, kind)
            == count_of(p.hand, kind) + count_of(p.chosen, kind),
        count_of(offered(picked(p, action)).hand, kind) == count_of(picked(p, action).hand, kind),
        count_of(sanitized(picked(p, action)).hand, kind) == count_of(
            picked(p, action).hand,
            kind,
        ),
{
    let q = picked(p, action);
    if action != Card::NoCard {
        let r = returned(p);
        if p.spent > 0 {
            lemma_count_contains(p.chosen, Card::Chopsticks);
            lemma_remove_first(p.chosen, Card::Chopsticks, kind);
            lemma_count_push(p.hand, Card::Chopsticks, kind);
            let i = choose|i: int| 0 <= i < p.hand.len() && p.hand[i] == action;
            assert(r.hand[i] == action);
        }
        assert(r.hand.contains(action));
        lemma_remove_first(r.hand, action, kind);
        lemma_count_push(r.chosen, action, kind);
    }
    lemma_count_push(q.hand, Card::NoCard, kind);
    lemma_without(q.hand, Card::NoCard, kind);
}

/// No card is made or lost while a round goes on: after a step that does
/// not end the round, the deck is as it was, and of every kind of card as
/// many are in circulation as before, in the deck, the hands and the played
/// piles together. This holds for every player, with chopsticks in the
/// played pile or without.
pub proof fn lemma_cards_stay_in_circulation(g: GameView, action: Card, kind: Card)
    requires
        g.wf(),
        !g.game_over,
        g.allows(action),
        kind != Card::NoCard,
        step_result(g, action) != StepResult::RoundOver,
        step_result(g, action) != StepResult::GameOver,
    ensures
        next_state(g, action) == progressed(g, action),
        next_state(g, action).deck == g.deck,
        in_circulation(next_state(g, action), kind) == in_circulation(g, kind),
{
    let c = g.current_player as int;
    let n = g.players.len() as int;
    let p = g.players[c];
    let q = picked(p, action);
    let h = progressed(g, action);
    lemma_progressed(g, action);
    lemma_picked(p, action);
    lemma_player_keeps_the_cards(p, action, kind);
    let hands = in_hands(g.players, kind);
    let piles = in_piles(g.players, kind);
    assert(hands[c] == count_of(p.hand, kind));
    assert(piles[c] == count_of(p.chosen, kind));
    if offers_extra_pick(q) {
        let o = offered(q);
        assert(in_hands(h.players, kind) == hands.update(c, count_of(o.hand, kind) as int));
        assert(in_piles(h.players, kind) == piles.update(c, count_of(o.chosen, kind) as int));
        lemma_total_update(hands, c, count_of(o.hand, kind) as int);
        lemma_total_update(piles, c, count_of(o.chosen, kind) as int);
    } else {
        let moved = g.players.update(c, q);
        let cleaned = all_sanitized(moved);
        assert(!hands_empty(cleaned));
        assert forall|i: int| 0 <= i < n implies count_of((#[trigger] cleaned[i]).hand, kind)
            == count_of(moved[i].hand, kind) && cleaned[i].chosen == moved[i].chosen by {
            assert(cleaned[i] == sanitized(moved[i]));
            lemma_without(moved[i].hand, Card::NoCard, kind);
        }
        assert(in_hands(cleaned, kind) == hands.update(c, count_of(q.hand, kind) as int));
        assert(in_piles(cleaned, kind) == piles.update(c, count_of(q.chosen, kind) as int));
        lemma_total_update(hands, c, count_of(q.hand, kind) as int);
        lemma_total_update(piles, c, count_of(q.chosen, kind) as int);
        if g.current_player + 1 >= g.number_of_players {
            assert(h.players == rotated(cleaned));
            assert(in_hands(rotated(cleaned), kind) == shifted(in_hands(cleaned, kind)));
            assert(in_piles(rotated(cleaned), kind) == in_piles(cleaned, kind));
            lemma_total_shifted(in_hands(cleaned, kind));
        } else {
            assert(h.players == cleaned);
        }
    }
}

/// In a game in play every player has a hand's worth of cards, hand and
/// played pile together, so that the players have `MAX_HAND_SIZE` cards
/// each at every step of a round.
pub proof fn lemma_cards_with_players(g: GameView)
    requires
        g.wf(),
        !g.game_over,
    ensures
        total(with_players(g.players)) == MAX_HAND_SIZE * g.players.len(),
{
    assert forall|i: int| 0 <= i < with_players(g.players).len() implies #[trigger] with_players(
        g.players,
    )[i] == MAX_HAND_SIZE as int by {
        assert(g.players[i].chosen.len() + real_hand(g.players[i]) == MAX_HAND_SIZE);
    }
    lemma_total_of_equals(with_players(g.players), MAX_HAND_SIZE as int);
}

} // verus!
