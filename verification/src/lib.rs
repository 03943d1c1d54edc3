//! A verified core for deciding whether a dealt game of Klondike solitaire
//! (single deck, draw one) is winnable.
//!
//! The crate models cards as packed bytes, game states as stacks of cards,
//! and provides a move generator, a canonical state encoder for duplicate
//! detection, and a best-first search driver that returns a winning move
//! sequence when it finds one.
pub mod card;
pub mod stack;
pub mod moves;
pub mod game;
pub mod mutate;
pub mod deal;
pub mod encode;
pub mod solver;
pub mod validate;
pub mod laws;
