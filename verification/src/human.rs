//! The turn of a human player: what the player is shown of the table, and
//! which card an answer stands for.

use vstd::prelude::*;
use crate::card::Card;
use crate::game::SushiGoGame;

verus! {

/// The part of a played pile that the current player is shown: as many of
/// its first cards as the current player has played.
pub open spec fn shown_of(pile: Seq<Card>, own_pile_size: int) -> Seq<Card> {
    if pile.len() <= own_pile_size {
        pile
    } else {
        pile.take(own_pile_size)
    }
}

/// The cards of the played pile of the player in that seat that the current
/// player is shown.
pub fn visible_cards(game: &SushiGoGame, seat: usize) -> (visible: Vec<Card>)
    requires
        seat < game@.players.len(),
        game@.current_player < game@.players.len(),
    ensures
        visible@ == shown_of(
            game@.players[seat as int].chosen,
            game@.players[game@.current_player as int].chosen.len() as int,
        ),
{
    let chosen = game.get_player_chosen(seat);
    let own_pile_size = game.get_player_chosen(game.get_current_player_id()).len();
    let mut visible_cards: Vec<Card> = Vec::new();
    let mut i: usize = 0;
    while i < chosen.len()
        invariant
            i <= chosen@.len(),
            visible_cards@ == shown_of(chosen@.take(i as int), own_pile_size as int),
        decreases chosen@.len() - i,
    {
        if i < own_pile_size {
            visible_cards.push(chosen[i]);
            proof {
                assert(chosen@.take(i + 1) == chosen@.take(i as int).push(chosen@[i as int]));
            }
        } else {
            proof {
                assert(chosen@.take(i + 1).take(own_pile_size as int) == chosen@.take(
                    i as int,
                ).take(own_pile_size as int));
            }
        }
        i = i + 1;
    }
    proof {
        assert(chosen@.take(i as int) == chosen@);
    }
    visible_cards
}

/// The card that the answer of a human player stands for: the card in the
/// chosen slot of the hand, and the first card of the hand where there is no
/// such slot.
pub fn card_for_slot(current_hand: &Vec<Card>, chosen_slot: usize) -> (card: Card)
    requires
        current_hand@.len() > 0,
    ensures
        card == if chosen_slot < current_hand@.len() {
            current_hand@[chosen_slot as int]
        } else {
            current_hand@[0]
        },
        current_hand@.contains(card),
{
    if chosen_slot < current_hand.len() {
        current_hand[chosen_slot]
    } else {
        current_hand[0]
    }
}

} // verus!
