//! The wide model: the policy sees which card lies at each place of the hand
//! and of the played pile.

use vstd::prelude::*;
use crate::card::{card_index, Card, CARD_KINDS};
use crate::game::{SushiGoGame, MAX_HAND_SIZE};

verus! {

/// The nodes of the hidden layer of the wide model.
pub const HIDDEN_LAYER_SIZE: usize = 136;

/// The sizes of the three layers of the wide model.
#[derive(Clone, Copy, Debug, PartialEq, Eq, Structural)]
pub struct NodeCount {
    pub input_size: usize,
    pub hidden_layer_size: usize,
    pub output_layer_size: usize,
}

/// Whether the pile holds, at that place, the card with that index; no
/// beyond the end of the pile.
pub open spec fn lies_at(pile: Seq<Card>, place: int, index: int) -> bool {
    place < pile.len() && card_index(pile[place]) == index
}

/// What the policy is shown of the game, for the current player: first, for
/// each of the `MAX_HAND_SIZE` places of the hand and each kind of card,
/// whether that card lies at that place; then the same for the first
/// `MAX_HAND_SIZE` places of the played pile.
pub fn get_nn_input(game: &SushiGoGame) -> (player_state: Vec<bool>)
    requires
        game@.current_player < game@.players.len(),
    ensures
        player_state@.len() == 2 * MAX_HAND_SIZE * CARD_KINDS,
        forall|place: int, index: int|
            0 <= place < MAX_HAND_SIZE && 0 <= index < CARD_KINDS ==> #[trigger] player_state@[place
                * CARD_KINDS + index] == lies_at(
                game@.players[game@.current_player as int].hand,
                place,
                index,
            ),
        forall|place: int, index: int|
            0 <= place < MAX_HAND_SIZE && 0 <= index < CARD_KINDS ==> #[trigger] player_state@[(
            MAX_HAND_SIZE + place) * CARD_KINDS + index] == lies_at(
                game@.players[game@.current_player as int].chosen,
                place,
                index,
            ),
{
    let ghost hand = game@.players[game@.current_player as int].hand;
    let ghost chosen = game@.players[game@.current_player as int].chosen;
    let mut player_state: Vec<bool> = Vec::new();

    // For the number of cards we can have in our hand.
    let mut i: usize = 0;
    while i < MAX_HAND_SIZE
        invariant
            i <= MAX_HAND_SIZE,
            game@.current_player < game@.players.len(),
            hand == game@.players[game@.current_player as int].hand,
            player_state@.len() == i * CARD_KINDS,
            forall|place: int, index: int|
                0 <= place < i && 0 <= index < CARD_KINDS ==> #[trigger] player_state@[place
                    * CARD_KINDS + index] == lies_at(hand, place, index),
        decreases MAX_HAND_SIZE - i,
    {
        // For each type of possible card
        let mut j: usize = 0;
        while j < CARD_KINDS
            invariant
                j <= CARD_KINDS,
                i < MAX_HAND_SIZE,
                game@.current_player < game@.players.len(),
                hand == game@.players[game@.current_player as int].hand,
                player_state@.len() == i * CARD_KINDS + j,
                forall|place: int, index: int|
                    0 <= place < i && 0 <= index < CARD_KINDS ==> #[trigger] player_state@[place
                        * CARD_KINDS + index] == lies_at(hand, place, index),
                forall|index: int|
                    0 <= index < j ==> #[trigger] player_state@[i * CARD_KINDS + index] == lies_at(
                        hand,
                        i as int,
                        index,
                    ),
            decreases CARD_KINDS - j,
        {
            // Enter a yes if that card is in this position, or a no if it isn't.
            if game.get_current_player().card_is_at_position_hand(i, &j) {
                player_state.push(true);
            } else {
                player_state.push(false);
            }
            j = j + 1;
        }
        i = i + 1;
    }

    i = 0;
    while i < MAX_HAND_SIZE
        invariant
            i <= MAX_HAND_SIZE,
            game@.current_player < game@.players.len(),
            hand == game@.players[game@.current_player as int].hand,
            chosen == game@.players[game@.current_player as int].chosen,
            player_state@.len() == (MAX_HAND_SIZE + i) * CARD_KINDS,
            forall|place: int, index: int|
                0 <= place < MAX_HAND_SIZE && 0 <= index < CARD_KINDS
                    ==> #[trigger] player_state@[place * CARD_KINDS + index] == lies_at(
                    hand,
                    place,
                    index,
                ),
            forall|place: int, index: int|
                0 <= place < i && 0 <= index < CARD_KINDS ==> #[trigger] player_state@[(
                MAX_HAND_SIZE + place) * CARD_KINDS + index] == lies_at(chosen, place, index),
        decreases MAX_HAND_SIZE - i,
    {
        // For each type of possible card
        let mut j: usize = 0;
        while j < CARD_KINDS
            invariant
                j <= CARD_KINDS,
                i < MAX_HAND_SIZE,
                game@.current_player < game@.players.len(),
                hand == game@.players[game@.current_player as int].hand,
                chosen == game@.players[game@.current_player as int].chosen,
                player_state@.len() == (MAX_HAND_SIZE + i) * CARD_KINDS + j,
                forall|place: int, index: int|
                    0 <= place < MAX_HAND_SIZE && 0 <= index < CARD_KINDS
                        ==> #[trigger] player_state@[place * CARD_KINDS + index] == lies_at(
                        hand,
                        place,
                        index,
                    ),
                forall|place: int, index: int|
                    0 <= place < i && 0 <= index < CARD_KINDS ==> #[trigger] player_state@[(
                    MAX_HAND_SIZE + place) * CARD_KINDS + index] == lies_at(chosen, place, index),
                forall|index: int|
                    0 <= index < j ==> #[trigger] player_state@[(MAX_HAND_SIZE + i) * CARD_KINDS
                        + index] == lies_at(chosen, i as int, index),
            decreases CARD_KINDS - j,
        {
            // Enter a yes if that card is in this position, or a no if it isn't.
            if game.get_current_player().card_is_at_position_chosen_cards(i, &j) {
                player_state.push(true);
            } else {
                player_state.push(false);
            }
            j = j + 1;
        }
        i = i + 1;
    }

    player_state
}

/// The sizes of the layers of the wide model.
pub fn get_node_count() -> (count: NodeCount)
    ensures
        count.input_size == 2 * MAX_HAND_SIZE * CARD_KINDS,
        count.hidden_layer_size == HIDDEN_LAYER_SIZE,
        count.output_layer_size == CARD_KINDS,
{
    let input_size: usize = MAX_HAND_SIZE * Card::CardMax.index() * 2;
    let hidden_layer_size: usize = HIDDEN_LAYER_SIZE;
    let output_layer_size: usize = Card::CardMax.index();

    NodeCount { input_size, hidden_layer_size, output_layer_size }
}

} // verus!
