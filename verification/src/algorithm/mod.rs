//! Game-tree search: scopes that shape the depth, the interface to the
//! evaluator, and the search drivers.

pub mod adaptive;
pub mod alphabeta;
pub mod bns;
pub mod depth;
pub mod judge;
pub mod logarithmic;
pub mod meta;
pub mod metric;
pub mod minimax;
pub mod mtdf;
pub mod parallel;
pub mod scope;
pub mod search;
