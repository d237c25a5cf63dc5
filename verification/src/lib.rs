//! Brute-force search for chess positions on a double-width board whose
//! per-rank and per-file material sums match given targets.

pub mod piece;
pub mod text;
pub mod colors;
pub mod board;
pub mod piece_set;
pub mod attack;
pub mod search;
pub mod walk;
pub mod balance;
pub mod puzzle;
pub mod render;
pub mod placement;
pub mod laws;
pub mod attack_laws;
pub mod reply;
