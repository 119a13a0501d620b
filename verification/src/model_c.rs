//! The small model: the policy sees which kinds of card the hand holds.

use vstd::prelude::*;
use crate::card::{card_at, Card, CARD_KINDS};
use crate::game::SushiGoGame;
use crate::neural_network::NeuralNetworkProperties;

verus! {

/// The nodes of the hidden layer of the small model.
pub const HIDDEN_NODE_COUNT: usize = 20;

/// What the policy is shown of the game: for each kind of card, in the order
/// of the enumeration, whether the hand of the current player holds one. The
/// same list says which outputs of the policy stand for a card that can be
/// played.
pub fn get_nn_input(game: &SushiGoGame) -> (player_state: Vec<bool>)
    requires
        game@.current_player < game@.players.len(),
    ensures
        player_state@.len() == CARD_KINDS,
        forall|i: int|
            0 <= i < CARD_KINDS ==> #[trigger] player_state@[i] == game@.allows(card_at(i)),
{
    let mut player_state: Vec<bool> = Vec::new();
    let mut i: usize = 0;
    while i < CARD_KINDS
        invariant
            i <= CARD_KINDS,
            game@.current_player < game@.players.len(),
            player_state@.len() == i,
            forall|j: int| 0 <= j < i ==> #[trigger] player_state@[j] == game@.allows(card_at(j)),
        decreases CARD_KINDS - i,
    {
        if game.get_current_player().has_card_in_hand(Card::from(i)) {
            player_state.push(true);
        } else {
            player_state.push(false);
        }
        i = i + 1;
    }
    player_state
}

/// The sizes of the layers of the small model.
pub fn get_node_count() -> (count: NeuralNetworkProperties)
    ensures
        count == (NeuralNetworkProperties {
            input_node_count: CARD_KINDS,
            hidden_node_count: HIDDEN_NODE_COUNT,
            output_node_count: CARD_KINDS,
        }),
{
    let input_node_count: usize = Card::CardMax.index();
    let hidden_node_count: usize = HIDDEN_NODE_COUNT;
    let output_node_count: usize = Card::CardMax.index();

    NeuralNetworkProperties { input_node_count, hidden_node_count, output_node_count }
}

} // verus!
