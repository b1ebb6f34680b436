//! A verified Othello (Reversi) engine: a bitboard move generator, a
//! PUCT-style Monte-Carlo tree search guided by an external position
//! evaluator, and a few baseline players.

pub mod bits;
pub mod board;
pub mod evaluator;
pub mod mcts;
pub mod othello_logic;
pub mod players;
pub mod rng;
pub mod utils;

pub use board::{Board, BoardError, Position, Positions, Stone, StoneCount, SIZE};
