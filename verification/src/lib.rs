//! International (10x10) draughts: board model, legal-move generator,
//! evaluation and game-tree search, with machine-checked contracts.

pub mod algorithm;
pub mod board;
pub mod engine;
