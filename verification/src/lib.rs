//! A verified Othello (Reversi) engine: bitboard move generation, move
//! application with flip runs, status classification, and time-bounded
//! decision agents (random, minimax, alpha-beta, Monte Carlo tree search).

pub mod action;
pub mod agents;
pub mod bitboard;
pub mod board;
pub mod clock;
pub mod constants;
pub mod enums;
pub mod evals;
pub mod state;
pub mod turn;
