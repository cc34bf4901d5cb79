//! MTD(f): the value of a position, found by repeated searches with a
//! window of width one.

use super::alphabeta::{
    lemma_same_judgement, lemma_same_judgement_refl, lemma_taught_on, makes_cut, spec_shortcut,
    taught, MAX_PLIES,
};
use super::judge::{is_eval, same_judgement, Eval, Judge, MAX_EVAL, MIN_EVAL};
use super::meta::Meta;
use super::minimax::{
    bound_holds, lemma_move_bounds, lemma_node_bounds, lemma_rules_same, lemma_spec_moves,
    move_value, node_open, node_value, rules_of, spec_moves, tame,
};
use super::scope::{Depth, Scope};
use crate::board::mv::Move;
use crate::board::position::Position;
use crate::board::rules::legal;
use vstd::prelude::*;

verus! {

/// The state of the driver: the value lies from `lower` up to, but not
/// including, `upper`; `guess` is the cut of the next search.
#[derive(Clone, Copy, Debug, PartialEq, Eq, Structural)]
pub struct MtdState {
    pub lower: Eval,
    pub guess: Eval,
    pub upper: Eval,
}

impl MtdState {
    /// The state before the first search: the bounds are the widest.
    pub fn initial(guess: Eval) -> (result: MtdState)
        ensures
            result == (MtdState { lower: MIN_EVAL, guess, upper: (MAX_EVAL + 1) as Eval }),
    {
        MtdState { lower: MIN_EVAL, guess, upper: MAX_EVAL + 1 }
    }

    /// The state after a search with the cut `guess` returned `eval`: an
    /// evaluation below the guess is an upper bound and the next guess, one
    /// that reaches it is a lower bound, and the next guess lies just above.
    pub open spec fn spec_next(&self, eval: Eval) -> MtdState {
        if eval < self.guess {
            MtdState { lower: self.lower, guess: eval, upper: (eval + 1) as Eval }
        } else {
            MtdState { lower: eval, guess: (eval + 1) as Eval, upper: self.upper }
        }
    }

    /// The state after a search with the cut `guess` returned `eval`.
    pub fn next(&self, eval: Eval) -> (result: MtdState)
        requires
            eval < Eval::MAX,
        ensures
            result == self.spec_next(eval),
    {
        if eval < self.guess {
            MtdState { lower: self.lower, guess: eval, upper: eval + 1 }
        } else {
            MtdState { lower: eval, guess: eval + 1, upper: self.upper }
        }
    }

    /// Whether the bounds have met.
    pub open spec fn spec_finished(&self) -> bool {
        self.guess >= self.upper
    }

    /// Whether the bounds have met.
    #[verifier::when_used_as_spec(spec_finished)]
    pub fn finished(&self) -> (result: bool)
        ensures
            result == self.spec_finished(),
    {
        self.guess >= self.upper
    }
}

/// The driver closes in on the value, whatever the guess and whoever
/// searched. Let the value lie within the bounds of the state, and let a
/// search with the cut `guess` return an evaluation that is right about the
/// value: a lower bound where it reaches the cut, an upper bound where it
/// does not. Then the value lies within the bounds of the next state, and
/// where the bounds of the next state have met, its lower bound is the
/// value.
pub proof fn lemma_mtd_step(state: MtdState, eval: Eval, value: int)
    requires
        state.lower <= value < state.upper,
        eval < Eval::MAX,
        bound_holds(eval as int, state.guess as int, value),
    ensures
        state.spec_next(eval).lower <= value < state.spec_next(eval).upper,
        state.spec_next(eval).spec_finished() ==> state.spec_next(eval).lower == value,
{
}

/// The outcome of MTD(f): a move, the value that it earns, and the effort.
pub struct MtdResult {
    pub mv: Move,
    pub evaluation: Eval,
    pub meta: Meta,
}

impl MtdResult {
    /// The outcome with the given parts.
    pub fn create(mv: Move, evaluation: Eval, meta: Meta) -> (result: MtdResult)
        ensures
            result.mv == mv,
            result.evaluation == evaluation,
            result.meta == meta,
    {
        MtdResult { mv, evaluation, meta }
    }
}

/// Whether `mv` is a move to play in `position`: a legal move, or no move
/// where there is no legal move.
pub open spec fn playable(position: Position, mv: Move) -> bool {
    legal(position, mv) || (mv.is_null() && forall|other: Move| !#[trigger] legal(position, other))
}

/// The move to play where no search returned one: the first of `moves`,
/// and no move where there is none.
pub fn first_or_null(moves: &Vec<Move>) -> (result: Move)
    ensures
        moves@.len() > 0 ==> result == moves@[0],
        moves@.len() == 0 ==> result.is_null(),
{
    if moves.len() > 0 {
        moves[0]
    } else {
        Move::null()
    }
}

/// The value of `position` at the given depth, with a move that earns it.
/// The driver searches with the cut `guess` first and moves the cut to what
/// each search returns, until the bounds meet. The move is the last that a
/// search returned, else the first of the moves that the judge lists, else
/// no move. The count is that of all the searches together: one node at
/// least, unless the judge's memory settled the first search, and one node
/// exactly where a judge without memory finds no legal move. The judge is
/// left as it was, or was told last the outcome of a search of the position
/// of this depth.
///
/// With a judge that keeps no memory, and where the tree does not depend
/// on how it is walked, the evaluation is the value that the full search of
/// the tree defines, whatever the guess, and the move is one that earns it,
/// where the search goes down from the position at all.
pub fn mtd_f<J: Judge, S: Scope>(judge: &mut J, position: &Position, depth: Depth, guess: Eval) -> (result:
    MtdResult)
    requires
        old(judge).inv(),
    ensures
        final(judge).inv(),
        same_judgement(final(judge), old(judge)),
        is_eval(result.evaluation as int),
        playable(*position, result.mv),
        result.meta.spec_depth() == 0,
        (forall|other: Move| !legal(*position, other)) ==> result.mv.is_null(),
        taught(
            *old(judge),
            *final(judge),
            *position,
            S::spec_from_depth(depth).spec_depth(),
        ),
        !old(judge).keeps_memory() ==> result.meta.spec_nodes() >= 1,
        !old(judge).keeps_memory() && (forall|other: Move| !legal(*position, other))
            ==> result.evaluation == MIN_EVAL && result.meta.spec_nodes() == 1,
        MIN_EVAL < guess <= MAX_EVAL && spec_shortcut(
            old(judge).spec_recall(*position, S::spec_from_depth(depth).spec_depth()),
            S::spec_from_depth(depth).spec_depth(),
            guess,
        ) is None ==> result.meta.spec_nodes() >= 1,
        !old(judge).keeps_memory() && tame::<S>(rules_of(*old(judge))) && position.wf()
            ==> result.evaluation == node_value(
            rules_of(*old(judge)),
            *position,
            S::spec_from_depth(depth),
            MAX_PLIES as nat,
        ),
        !old(judge).keeps_memory() && tame::<S>(rules_of(*old(judge))) && position.wf()
            && node_open(
            rules_of(*old(judge)),
            *position,
            S::spec_from_depth(depth),
            MAX_PLIES as nat,
        ) ==> move_value(
            rules_of(*old(judge)),
            *position,
            S::spec_from_depth(depth),
            MAX_PLIES as nat,
            spec_moves(*position).len(),
            result.mv,
        ) >= result.evaluation,
{
    let ghost judge0 = *judge;
    let ghost rules = rules_of(judge0);
    let ghost measured = !judge0.keeps_memory() && tame::<S>(rules) && position.wf();
    let ghost value = node_value(rules, *position, S::spec_from_depth(depth), MAX_PLIES as nat);
    let ghost blank = !judge0.keeps_memory();
    let ghost lost = forall|other: Move| !legal(*position, other);
    let ghost entered = MIN_EVAL < guess <= MAX_EVAL && spec_shortcut(
        judge0.spec_recall(*position, S::spec_from_depth(depth).spec_depth()),
        S::spec_from_depth(depth).spec_depth(),
        guess,
    ) is None;
    proof {
        lemma_same_judgement_refl(judge);
        if measured {
            lemma_node_bounds(rules, *position, S::spec_from_depth(depth), MAX_PLIES as nat);
        }
    }
    let scope = S::from_depth(depth);
    let mut state = MtdState::initial(guess);
    let mut meta = Meta::create();
    let mut mv: Option<Move> = None;
    let mut first = true;
    loop
        invariant
            judge0 == *old(judge),
            judge.inv(),
            same_judgement(judge, &judge0),
            rules == rules_of(judge0),
            scope == S::spec_from_depth(depth),
            measured == (!judge0.keeps_memory() && tame::<S>(rules) && position.wf()),
            value == node_value(rules, *position, scope, MAX_PLIES as nat),
            measured ==> state.lower <= value < state.upper,
            measured && mv is Some && node_open(rules, *position, scope, MAX_PLIES as nat)
                ==> move_value(
                rules,
                *position,
                scope,
                MAX_PLIES as nat,
                spec_moves(*position).len(),
                mv->Some_0,
            ) >= state.lower,
            measured && mv is None && node_open(rules, *position, scope, MAX_PLIES as nat)
                ==> state.lower == MIN_EVAL,
            meta.spec_depth() == 0,
            taught(judge0, *judge, *position, scope.spec_depth()),
            blank == !judge0.keeps_memory(),
            lost == (forall|other: Move| !legal(*position, other)),
            blank && meta.spec_nodes() == 0 ==> state.lower == MIN_EVAL && state.upper == MAX_EVAL
                + 1,
            blank && lost ==> state.lower == MIN_EVAL && meta.spec_nodes() <= 1,
            blank && lost && meta.spec_nodes() == 1 ==> state.upper == MIN_EVAL + 1 && state.guess
                == MIN_EVAL,
            entered && !first ==> meta.spec_nodes() >= 1,
            first ==> *judge == judge0 && meta.spec_nodes() == 0,
            entered == (MIN_EVAL < guess <= MAX_EVAL && spec_shortcut(
                judge0.spec_recall(*position, scope.spec_depth()),
                scope.spec_depth(),
                guess,
            ) is None),
            mv is Some ==> legal(*position, mv->Some_0),
            first ==> state == (MtdState {
                lower: MIN_EVAL,
                guess,
                upper: (MAX_EVAL + 1) as Eval,
            }),
            !first ==> is_eval(state.lower as int) && MIN_EVAL <= state.guess < state.upper
                <= MAX_EVAL + 1,
        decreases
                (if first {
                    1int
                } else {
                    0int
                }),
                state.upper - MIN_EVAL,
                state.upper - state.guess,
    {
        let ghost before = *judge;
        proof {
            lemma_rules_same(before, judge0);
            if measured && mv is Some {
                lemma_move_bounds(
                    rules,
                    *position,
                    scope,
                    MAX_PLIES as nat,
                    spec_moves(*position).len(),
                    mv->Some_0,
                );
            }
        }
        let result = makes_cut(judge, &mut meta, position, &scope, state.guess);
        proof {
            lemma_same_judgement(judge, &before, &judge0);
            lemma_taught_on(judge0, before, *judge, *position, scope.spec_depth());
        }
        state = state.next(result.evaluation);
        first = false;
        if let Some(best_move) = result.mv {
            mv = Some(best_move);
        }
        if state.finished() {
            let mv = match mv {
                Some(mv) => mv,
                None => {
                    let moves = judge.moves(position, depth);
                    proof {
                        lemma_spec_moves(*position, moves@);
                        if moves@.len() > 0 {
                            assert(moves@.contains(moves@[0]));
                            if measured {
                                lemma_move_bounds(
                                    rules,
                                    *position,
                                    scope,
                                    MAX_PLIES as nat,
                                    spec_moves(*position).len(),
                                    moves@[0],
                                );
                            }
                        } else {
                            assert forall|other: Move| !#[trigger] legal(*position, other) by {
                                assert(!moves@.contains(other));
                            }
                        }
                    }
                    first_or_null(&moves)
                },
            };
            return MtdResult::create(mv, state.lower, meta);
        }
    }
}

} // verus!
