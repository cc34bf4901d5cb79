//! The outcome of one search.

use super::judge::Eval;
use crate::board::mv::Move;
use vstd::prelude::*;

verus! {

/// An evaluation, and the move that earns it where the search found one.
#[derive(Clone, Copy, Debug)]
pub struct SearchResult {
    pub mv: Option<Move>,
    pub evaluation: Eval,
}

impl SearchResult {
    /// The outcome that `mv` earns `evaluation`.
    pub fn with_move(mv: Move, evaluation: Eval) -> (result: SearchResult)
        ensures
            result.mv == Some(mv),
            result.evaluation == evaluation,
    {
        SearchResult { mv: Some(mv), evaluation }
    }

    /// The outcome `evaluation`, without a move.
    pub fn evaluation(evaluation: Eval) -> (result: SearchResult)
        ensures
            result.mv is None,
            result.evaluation == evaluation,
    {
        SearchResult { mv: None, evaluation }
    }
}

} // verus!
