//! The judge: what the search asks of an evaluator.

use super::scope::Depth;
use crate::board::mv::Move;
use crate::board::position::{Field, Position};
use crate::board::rules::is_legal_list;
use vstd::prelude::*;

verus! {

/// The value of a position: positive where the side to move stands better.
pub type Eval = i16;

/// The greatest evaluation: the side to move has won.
pub const MAX_EVAL: Eval = 15_000;

/// The evaluation of a balanced position.
pub const ZERO_EVAL: Eval = 0;

/// The evaluation of a drawn position.
pub const DRAW_EVAL: Eval = 0;

/// The least evaluation: the side to move has lost.
pub const MIN_EVAL: Eval = -15_000;

/// Whether `eval` is an evaluation: a value between the two sentinels.
pub open spec fn is_eval(eval: int) -> bool {
    MIN_EVAL <= eval <= MAX_EVAL
}

/// What is remembered of a position: bounds on its value from a search of
/// the given depth, and the move that the search liked best, as origin and
/// landing field; origin and landing field are both zero where no move is
/// known.
#[derive(Clone, Copy, Debug, PartialEq, Eq, Structural)]
pub struct PositionMemory {
    pub depth: Depth,
    pub lower: Eval,
    pub upper: Eval,
    pub from: Field,
    pub to: Field,
}

impl PositionMemory {
    /// The memory that knows nothing.
    pub open spec fn spec_empty() -> PositionMemory {
        PositionMemory { depth: 0, lower: MIN_EVAL, upper: MAX_EVAL, from: 0, to: 0 }
    }

    /// Whether the bounds are evaluations that do not cross.
    pub open spec fn bounded(&self) -> bool {
        is_eval(self.lower as int) && is_eval(self.upper as int) && self.lower <= self.upper
    }

    /// Whether the memory names a move.
    pub open spec fn spec_has_move(&self) -> bool {
        self.from != 0 || self.to != 0
    }

    /// The memory that knows nothing.
    pub fn empty() -> (result: PositionMemory)
        ensures
            result == Self::spec_empty(),
    {
        PositionMemory { depth: 0, lower: MIN_EVAL, upper: MAX_EVAL, from: 0, to: 0 }
    }

    /// The memory with the given parts.
    pub fn create(depth: Depth, lower: Eval, upper: Eval, from: Field, to: Field) -> (result:
        PositionMemory)
        ensures
            result == (PositionMemory { depth, lower, upper, from, to }),
    {
        PositionMemory { depth, lower, upper, from, to }
    }

    /// Whether the memory names a move.
    #[verifier::when_used_as_spec(spec_has_move)]
    pub fn has_move(&self) -> (result: bool)
        ensures
            result == self.spec_has_move(),
    {
        self.from != 0 || self.to != 0
    }
}

/// Whether `a` judges as `b` does: the same values, the same quiet moves
/// and positions, and both with or both without a memory.
pub open spec fn same_judgement<J: Judgement>(a: &J, b: &J) -> bool {
    &&& a.keeps_memory() == b.keeps_memory()
    &&& forall|p: Position| #[trigger] a.spec_evaluate(p) == b.spec_evaluate(p)
    &&& forall|p: Position, mv: Move| #[trigger]
        a.spec_quiet_move(p, mv) == b.spec_quiet_move(p, mv)
    &&& forall|p: Position, moves: Seq<Move>| #[trigger]
        a.spec_quiet_position(p, moves) == b.spec_quiet_position(p, moves)
}

/// What a judge holds of positions and moves, as mathematics: the model
/// that the contracts of a judge speak of.
pub trait Judgement: Sized {
    /// The invariant of the judge.
    spec fn inv(&self) -> bool;

    /// The static value of `position` for the side to move.
    spec fn spec_evaluate(&self, position: Position) -> Eval;

    /// Whether `mv` is a quiet move in `position`.
    spec fn spec_quiet_move(&self, position: Position, mv: Move) -> bool;

    /// Whether `position`, with the legal moves `moves`, is quiet.
    spec fn spec_quiet_position(&self, position: Position, moves: Seq<Move>) -> bool;

    /// What the judge remembers of `position` for a search of `depth`.
    spec fn spec_recall(&self, position: Position, depth: Depth) -> PositionMemory;

    /// Whether the judge remembers anything at all.
    spec fn keeps_memory(&self) -> bool;

    /// Whether this is the judge `before` after it was told the outcome of
    /// a search of `position`: `evaluation` as an upper bound where `low`
    /// is set, as a lower bound where it is not, with the move `mv`.
    spec fn spec_remembered(
        &self,
        before: Self,
        position: Position,
        depth: Depth,
        evaluation: Eval,
        mv: Option<Move>,
        low: bool,
    ) -> bool;

    /// Whether this is the judge `before` after it merged what it had
    /// learnt into the memory that it shares.
    spec fn spec_consolidated(&self, before: Self) -> bool;

    /// Whether this is the judge `before` after it took over what `other`
    /// had consolidated.
    spec fn spec_learnt(&self, before: Self, other: Self) -> bool;

    /// The name under which the judge is shown.
    spec fn spec_display_name(&self) -> Seq<char>;
}

/// An evaluator as the search sees it. It values positions, lists and
/// orders the legal moves, tells quiet situations from forcing ones, and
/// may remember what earlier searches found.
pub trait Judge: Judgement {
    /// The best bounds known for `position` from a search of at least
    /// `depth`; the empty memory where nothing is known, or where what is
    /// known contradicts itself. The bounds that are given do not cross.
    fn recall(&self, position: &Position, depth: Depth) -> (memory: PositionMemory)
        requires
            self.inv(),
        ensures
            memory == self.spec_recall(*position, depth),
            memory.bounded(),
            memory.lower <= memory.upper,
            memory.depth >= depth || memory == PositionMemory::spec_empty(),
            !self.keeps_memory() ==> memory == PositionMemory::spec_empty(),
    ;

    /// Records the outcome of a search of `position`: `evaluation` is an
    /// upper bound where `low` is set, a lower bound where it is not.
    fn remember(
        &mut self,
        position: &Position,
        depth: Depth,
        evaluation: Eval,
        mv: Option<Move>,
        low: bool,
    )
        requires
            old(self).inv(),
            is_eval(evaluation as int),
        ensures
            final(self).inv(),
            same_judgement(final(self), old(self)),
            final(self).spec_remembered(*old(self), *position, depth, evaluation, mv, low),
    ;

    /// Merges what this judge has learnt into the memory that it shares.
    fn consolidate(&mut self)
        requires
            old(self).inv(),
        ensures
            final(self).inv(),
            same_judgement(final(self), old(self)),
            final(self).spec_consolidated(*old(self)),
    ;

    /// Takes over what `other` has consolidated, so that judges that work
    /// side by side profit from each other.
    fn learn(&mut self, other: &Self)
        requires
            old(self).inv(),
            other.inv(),
        ensures
            final(self).inv(),
            same_judgement(final(self), old(self)),
            final(self).spec_learnt(*old(self), *other),
    ;

    /// The static value of `position`: positive where the side to move
    /// stands better.
    fn evaluate(&self, position: &Position) -> (eval: Eval)
        requires
            self.inv(),
        ensures
            eval == self.spec_evaluate(*position),
            is_eval(eval as int),
    ;

    /// The legal moves of `position`, in the order in which the search
    /// should try them.
    fn moves(&self, position: &Position, depth: Depth) -> (list: Vec<Move>)
        requires
            self.inv(),
        ensures
            is_legal_list(*position, list@),
    ;

    /// The name under which the judge is shown.
    fn display_name(&self) -> (name: &str)
        ensures
            name@ == self.spec_display_name(),
    ;

    fn quiet_move(&self, position: &Position, mv: &Move) -> (quiet: bool)
        requires
            self.inv(),
            mv.wf(),
            mv.spec_from() < 50,
            mv.spec_to() < 50,
        ensures
            quiet == self.spec_quiet_move(*position, *mv),
    ;

    fn quiet_position(&self, position: &Position, moves: &[Move]) -> (quiet: bool)
        requires
            self.inv(),
            forall|i: int|
                0 <= i < moves@.len() ==> (#[trigger] moves@[i]).wf() && moves@[i].spec_from() < 50
                    && moves@[i].spec_to() < 50,
        ensures
            quiet == self.spec_quiet_position(*position, moves@),
    ;
}

} // verus!
