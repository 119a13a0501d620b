//! The shape of a decision policy. Its numbers are kept outside this
//! library; here is only what the game has to know of it.

use vstd::prelude::*;

verus! {

/// The sizes of the three layers of a policy network.
#[derive(Clone, Copy, Debug, PartialEq, Eq, Structural)]
pub struct NeuralNetworkProperties {
    /// The inputs that say which cards the player holds.
    pub input_node_count: usize,
    /// The nodes of the hidden layer.
    pub hidden_node_count: usize,
    /// The outputs, one for each card that can be chosen.
    pub output_node_count: usize,
}

} // verus!
