//! Engines: evaluators with the loop that deepens the search step by
//! step.

pub mod randaap;
pub mod scoring;
pub mod sherlock;
pub mod slonenok;
pub mod table;

use crate::algorithm::judge::{is_eval, Eval, MAX_EVAL, MIN_EVAL, ZERO_EVAL};
use crate::algorithm::meta::{Meta, Nodes};
use crate::algorithm::mtdf::playable;
use crate::algorithm::scope::Depth;
use crate::board::mv::Move;
use crate::board::position::Position;
use vstd::prelude::*;

verus! {

/// The outcome of one step of the deepening: the best move, its
/// evaluation, and the effort so far.
#[derive(Clone, Copy, Debug)]
pub struct EngineResult {
    pub mv: Move,
    pub evaluation: Eval,
    pub meta: Meta,
}

impl EngineResult {
    /// The outcome with the given parts.
    pub fn create(mv: Move, evaluation: Eval, meta: Meta) -> (result: EngineResult)
        ensures
            result.mv == mv,
            result.evaluation == evaluation,
            result.meta == meta,
    {
        EngineResult { mv, evaluation, meta }
    }

    /// Whether this is the outcome before any search: no move, the
    /// evaluation zero, no effort.
    pub open spec fn is_empty(&self) -> bool {
        self.mv.is_null() && self.evaluation == ZERO_EVAL && self.meta.spec_nodes() == 0
            && self.meta.spec_depth() == 0
    }

    /// The outcome before any search.
    pub fn empty() -> (result: EngineResult)
        ensures
            result.is_empty(),
    {
        EngineResult::create(Move::null(), ZERO_EVAL, Meta::create())
    }

    /// Whether the deepening stops after this outcome: the budget of nodes
    /// is used up, the depth is beyond the greatest depth, or the
    /// evaluation is one of the sentinels.
    pub open spec fn spec_exhausted(&self, max_nodes: Nodes, max_depth: Depth) -> bool {
        self.meta.spec_nodes() >= max_nodes || self.meta.spec_depth() > max_depth
            || self.evaluation == MIN_EVAL || self.evaluation == MAX_EVAL
    }

    /// Whether the deepening stops after this outcome.
    #[verifier::when_used_as_spec(spec_exhausted)]
    pub fn exhausted(&self, max_nodes: Nodes, max_depth: Depth) -> (result: bool)
        ensures
            result == self.spec_exhausted(max_nodes, max_depth),
    {
        self.meta.get_nodes() >= max_nodes || self.meta.get_depth() > max_depth || self.evaluation
            == MIN_EVAL || self.evaluation == MAX_EVAL
    }
}

/// The state of a deepening, as the contracts of an engine see it.
pub struct Deepening {
    /// The position under analysis; none before the first `set_position`.
    pub position: Option<Position>,
    /// The outcome of the last step; the empty outcome before the first.
    pub previous: EngineResult,
    /// Whether no step was made since the position was set.
    pub fresh: bool,
    /// The budget of nodes.
    pub max_nodes: Nodes,
    /// The greatest depth after which a step is made.
    pub max_depth: Depth,
}

impl Deepening {
    /// Whether the sequence of outcomes has ended.
    pub open spec fn stopped(&self) -> bool {
        self.position is None || self.previous.spec_exhausted(self.max_nodes, self.max_depth)
    }

    /// Whether `result` and `after` are what a step from this state may
    /// give. A stopped deepening gives nothing and stays as it is. Else the
    /// step searches at depth zero where it is the first, one deeper than
    /// the last where it is not; the nodes add up; the outcome is an
    /// evaluation with a move to play, and is the new last outcome.
    pub open spec fn steps_to(&self, result: Option<EngineResult>, after: Deepening) -> bool {
        if self.stopped() {
            result is None && after == *self
        } else {
            &&& result is Some
            &&& after.position == self.position
            &&& after.max_nodes == self.max_nodes
            &&& after.max_depth == self.max_depth
            &&& !after.fresh
            &&& after.previous == result->Some_0
            &&& result->Some_0.meta.spec_depth() == (if self.fresh {
                0int
            } else {
                self.previous.meta.spec_depth() + 1
            })
            &&& result->Some_0.meta.spec_nodes() >= self.previous.meta.spec_nodes()
            &&& is_eval(result->Some_0.evaluation as int)
            &&& playable(self.position->Some_0, result->Some_0.mv)
        }
    }

    /// The state after the position was set to `position`.
    pub open spec fn restarted(&self, position: Position, after: Deepening) -> bool {
        &&& after.position == Some(position)
        &&& after.previous.is_empty()
        &&& after.fresh
        &&& after.max_nodes == self.max_nodes
        &&& after.max_depth == self.max_depth
    }
}

/// An engine yields, step by step, the outcomes of ever deeper searches of
/// the position that it was given.
pub trait Engine {
    /// The invariant of the engine.
    spec fn inv(&self) -> bool;

    /// The state of the deepening.
    spec fn state(&self) -> Deepening;

    /// The name under which the engine is shown.
    spec fn spec_display_name(&self) -> Seq<char>;

    /// The name under which the engine is shown.
    fn display_name(&self) -> (name: &str)
        ensures
            name@ == self.spec_display_name(),
    ;

    /// Sets the position to analyse and starts the deepening anew.
    fn set_position(&mut self, position: &Position)
        requires
            old(self).inv(),
        ensures
            final(self).inv(),
            old(self).state().restarted(*position, final(self).state()),
    ;

    /// The next outcome; none once the deepening has stopped, or before a
    /// position was set.
    fn next(&mut self) -> (result: Option<EngineResult>)
        requires
            old(self).inv(),
        ensures
            final(self).inv(),
            old(self).state().steps_to(result, final(self).state()),
    ;
}

} // verus!
