//! An Ataxx engine core: 49-bit bitboards for the 7x7 board, positions with
//! FEN input and output, legal move generation, perft, and a Monte Carlo tree
//! search with UCT selection.

pub mod bitboard;
pub mod board;
pub mod distance;
pub mod fen;
pub mod flat;
pub mod game;
pub mod mcts;
pub mod moves;
pub mod moving;
pub mod numerics;
pub mod perft;
pub mod position;
pub mod state;
pub mod stone;
pub mod tile;
