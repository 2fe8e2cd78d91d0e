//! Beggar-my-neighbour: playing games fast, recording positions where both
//! players hold 26 cards, and walking games backwards trick by trick.
//!
//! Hands are stored as vectors whose last element is the top card.

pub mod cards;
pub mod seqs;
pub mod game;
pub mod game_laws;
pub mod untrick;
pub mod districk;
pub mod unplay_spec;
pub mod unplay;
pub mod setup;
pub mod search;
pub mod many;
