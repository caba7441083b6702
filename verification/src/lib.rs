//! A move chooser for chess on a 6x6 board with pawns, knights, rooks,
//! queens and kings: move geometry, move execution, material evaluation and
//! a fixed-depth negamax search with alpha-beta pruning.

pub mod board;
pub mod codec;
pub mod exhaustive;
pub mod geometry;
pub mod piece;
pub mod play;
pub mod search;
