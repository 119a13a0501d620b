//! A trick-drafting card game among several players, its scoring, and the
//! bookkeeping of matches for training decision policies by self-play.
//!
//! The game is a state machine. [`game::SushiGoGame::step`] plays one action
//! of the current player; [`turn`] states on plain values what a step makes
//! of a game, which games are in order, and why every game ends. A player
//! ([`player`]) holds a hand and a pile of played cards; the tally of the
//! pile ([`tally`]) is what the scoring ([`score`], [`pudding`]) reads at the
//! end of a round and of the game. [`circulation`] states that no card is
//! made or lost while a round goes on.
//!
//! A match ([`runner`]) binds agents to the seats of one game. The library
//! plays the turns of the agents that pick at random; the choice of any other
//! agent is handed in, so that the policy itself, and all that it computes,
//! stays with the caller. [`competition`] sizes the rounds of a knock-out
//! tournament.
//!
//! Chance enters in two places, both in [`chance`]: the shuffle of the deck
//! and of the tied winners, and the draw of a random player.

pub mod card;
pub mod chance;
pub mod circulation;
pub mod competition;
pub mod game;
pub mod gen_algorithm;
pub mod human;
pub mod model_b;
pub mod model_c;
pub mod neural_network;
pub mod pile;
pub mod player;
pub mod pudding;
pub mod ranking;
pub mod runner;
pub mod score;
pub mod tally;
pub mod turn;
