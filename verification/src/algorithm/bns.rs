//! Best-node search: the best move at the root, found by narrowing the
//! bounds until one move stands out.

use super::alphabeta::{
    lemma_lesson_same, lemma_same_judgement, lemma_same_judgement_refl, lesson, makes_cut, taught,
    MAX_PLIES,
};
use super::judge::{is_eval, same_judgement, Eval, Judge, Judgement, MAX_EVAL, MIN_EVAL};
use super::meta::Meta;
use super::minimax::{
    lemma_node_bounds, lemma_rules_same, reply_value, rules_of, tame, Rules,
};
use super::mtdf::{mtd_f, playable};
use super::scope::{Depth, Scope};
use super::search::SearchResult;
use crate::board::generator::lemma_legal_fields;
use crate::board::mv::Move;
use crate::board::position::Position;
use crate::board::rules::legal;
use vstd::prelude::*;

verus! {

/// The outcome of a best-node search: the best move, a lower bound on what
/// it earns, and the effort.
pub struct BnsResult {
    pub lower: Eval,
    pub meta: Meta,
    pub mv: Move,
}

/// A small number of moves.
pub type MoveCount = u8;

/// The state of the search: the value of the best move lies from `lower`
/// up to, but not including, `upper`; `cut` is what the moves are tested
/// against next, `mv` the best move so far, and `count` how many moves that
/// beat the cut end the next round; zero where the search is over.
#[derive(Clone, Copy, Debug)]
pub struct BnsState {
    pub lower: Eval,
    pub upper: Eval,
    pub cut: Eval,
    pub mv: Move,
    pub count: MoveCount,
}

/// Whether `eval` is an evaluation or lies not far outside.
pub open spec fn near_eval(eval: int) -> bool {
    -16_000 <= eval <= 16_000
}

impl BnsState {
    /// The invariant of the state: its values are evaluations or lie not far
    /// outside.
    pub open spec fn wf(&self) -> bool {
        near_eval(self.lower as int) && near_eval(self.upper as int) && near_eval(self.cut as int)
    }

    /// The state before the first round: the bounds are the widest, and two
    /// moves that beat the cut end a round.
    pub fn initial(cut: Eval, mv: Move) -> (result: BnsState)
        ensures
            result.lower == MIN_EVAL,
            result.upper == MAX_EVAL + 1,
            result.cut == cut,
            result.mv == mv,
            result.count == 2,
    {
        BnsState { lower: MIN_EVAL, upper: MAX_EVAL + 1, cut, mv, count: 2 }
    }

    /// The upper bound after a round in which `better_count` moves beat the
    /// cut and the best move earned `evaluation`.
    pub open spec fn next_upper(&self, better_count: MoveCount, evaluation: Eval) -> int {
        if better_count > 0 {
            self.upper as int
        } else if self.cut <= evaluation + 1 {
            self.cut as int
        } else {
            evaluation + 1
        }
    }

    /// The lower bound after such a round.
    pub open spec fn next_lower(&self, better_count: MoveCount) -> int {
        if better_count > 0 {
            self.cut as int
        } else {
            self.lower as int
        }
    }

    /// The state after a round in which `better_count` moves beat the cut
    /// and the best of all moves was `search_result`. Where a move beat the
    /// cut, the cut becomes the lower bound and that move the best move;
    /// where none did, the upper bound comes down to the cut, or to just
    /// above what the best move earned. The next cut lies just below the
    /// upper bound. The search is over once the bounds meet or exactly one
    /// move beat the cut.
    pub fn next(&self, better_count: MoveCount, search_result: &SearchResult) -> (result: BnsState)
        requires
            self.wf(),
            near_eval(search_result.evaluation as int),
            better_count > 0 ==> search_result.mv is Some,
        ensures
            result.lower == self.next_lower(better_count),
            result.upper == self.next_upper(better_count, search_result.evaluation),
            result.cut == result.upper - 1,
            result.mv == (if better_count > 0 {
                search_result.mv->Some_0
            } else {
                self.mv
            }),
            result.count == (if result.upper - result.lower <= 1 || better_count == 1 {
                0int
            } else if result.upper - result.cut <= 1 {
                1int
            } else {
                2int
            }),
    {
        let up = better_count > 0;
        let lower = if up {
            self.cut
        } else {
            self.lower
        };
        let upper = if up {
            self.upper
        } else if self.cut <= search_result.evaluation + 1 {
            self.cut
        } else {
            search_result.evaluation + 1
        };
        let cut = upper - 1;
        let mv = if up {
            search_result.mv.unwrap()
        } else {
            self.mv
        };
        let count = if upper - lower <= 1 || better_count == 1 {
            0
        } else if upper - cut <= 1 {
            1
        } else {
            2
        };
        BnsState { lower, upper, cut, mv, count }
    }
}


/// The books of one round: how many moves beat the cut so far, the best
/// outcome so far, and what the next move is tested against.
#[derive(Clone, Copy, Debug)]
pub struct Round {
    pub better_count: MoveCount,
    pub best: SearchResult,
    pub beta: Eval,
}

impl Round {
    /// The books before the first move of a round: no move beat the cut,
    /// the best outcome lies below every evaluation, and the moves are
    /// tested against the value just below the cut.
    pub fn start(state: &BnsState) -> (result: Round)
        requires
            state.wf(),
        ensures
            result.better_count == 0,
            result.best.mv is None,
            result.best.evaluation == MIN_EVAL - 1,
            result.beta == state.cut - 1,
    {
        Round { better_count: 0, best: SearchResult::evaluation(MIN_EVAL - 1), beta: state.cut - 1 }
    }

    /// The books after `mv` earned `score`, as a function.
    pub open spec fn spec_scored(self, state: BnsState, mv: Move, score: Eval) -> Round {
        Round {
            better_count: if score > self.beta {
                (self.better_count + 1) as MoveCount
            } else {
                self.better_count
            },
            best: if score > self.best.evaluation {
                SearchResult { mv: Some(mv), evaluation: score }
            } else {
                self.best
            },
            beta: if score > self.beta && self.better_count + 1 < state.count {
                state.cut
            } else {
                self.beta
            },
        }
    }

    /// Enters the outcome of `mv` in the books, and tells whether the round
    /// is over: it is once as many moves beat what they were tested against
    /// as the state asks for. After the first such move the others are
    /// tested against the cut itself.
    pub fn scored(&mut self, state: &BnsState, mv: Move, score: Eval) -> (done: bool)
        requires
            old(self).better_count < 255,
        ensures
            *final(self) == old(self).spec_scored(*state, mv, score),
            done == (score > old(self).beta && old(self).better_count + 1 >= state.count),
    {
        if score > self.best.evaluation {
            self.best = SearchResult::with_move(mv, score);
        }
        if score > self.beta {
            self.better_count += 1;
            if self.better_count >= state.count {
                return true;
            }
            self.beta = state.cut;
        }
        false
    }
}

/// Whether the last lesson of the judge `left` is the outcome of a search
/// of the position after the move `mv`: a search of the given depth, or,
/// where the depth is more than one, of one level less.
pub open spec fn reply_lesson<J: Judgement, S: Scope>(
    judge: J,
    left: J,
    position: Position,
    mv: Move,
    depth: Depth,
) -> bool {
    lesson(judge, left, position.spec_go(mv), S::spec_from_depth(depth).spec_depth()) || (depth > 1
        && lesson(
        judge,
        left,
        position.spec_go(mv),
        S::spec_from_depth((depth - 1) as Depth).spec_depth(),
    ))
}

/// Whether `left` is what a best-node search of `position` of the given
/// depth leaves of the judge `judge`: the judge as it was, or a judge whose
/// last lesson is the outcome of a search of the position after a legal
/// move, of the given depth or, where a shallower search went first, of one
/// level less.
pub open spec fn replies_taught<J: Judgement, S: Scope>(
    judge: J,
    left: J,
    position: Position,
    depth: Depth,
) -> bool {
    left == judge || exists|mv: Move|
        legal(position, mv) && #[trigger] reply_lesson::<J, S>(judge, left, position, mv, depth)
}

/// A search of the position after a legal move keeps what a best-node
/// search leaves of the judge.
pub proof fn lemma_reply_taught<J: Judgement, S: Scope>(
    judge: J,
    before: J,
    left: J,
    position: Position,
    mv: Move,
    depth: Depth,
    less: bool,
)
    requires
        same_judgement(&before, &judge),
        replies_taught::<J, S>(judge, before, position, depth),
        legal(position, mv),
        less ==> depth > 1,
        taught(
            before,
            left,
            position.spec_go(mv),
            S::spec_from_depth(
                if less {
                    (depth - 1) as Depth
                } else {
                    depth
                },
            ).spec_depth(),
        ),
    ensures
        replies_taught::<J, S>(judge, left, position, depth),
{
    if left != before {
        lemma_lesson_same(
            before,
            judge,
            left,
            position.spec_go(mv),
            S::spec_from_depth(
                if less {
                    (depth - 1) as Depth
                } else {
                    depth
                },
            ).spec_depth(),
        );
        assert(reply_lesson::<J, S>(judge, left, position, mv, depth));
    }
}

/// What a round that is over has shown, where the values are measured.
/// No legal move earns the upper bound of the next state or more; and where
/// the next state ends the search, no legal move earns more than its move.
pub proof fn lemma_round_end<S: Scope>(
    rules: Rules,
    position: Position,
    top: S,
    moves: Seq<Move>,
    state: BnsState,
    round: Round,
    next: BnsState,
    first: bool,
)
    requires
        forall|mv: Move| #[trigger] moves.contains(mv) <==> legal(position, mv),
        forall|other: Move|
            legal(position, other) ==> #[trigger] reply_value(
                rules,
                position,
                other,
                top,
                MAX_PLIES as nat,
            ) < state.upper,
        reply_value(rules, position, state.mv, top, MAX_PLIES as nat) >= state.lower,
        !first ==> state.lower < state.cut == state.upper - 1,
        round.better_count > 0 ==> round.best.mv is Some && reply_value(
            rules,
            position,
            round.best.mv->Some_0,
            top,
            MAX_PLIES as nat,
        ) >= state.cut,
        round.better_count == 0 ==> forall|k: int|
            0 <= k < moves.len() ==> #[trigger] reply_value(
                rules,
                position,
                moves[k],
                top,
                MAX_PLIES as nat,
            ) <= round.best.evaluation,
        round.better_count == 0 ==> round.best.evaluation < state.cut,
        round.better_count == 1 && first ==> forall|k: int|
            0 <= k < moves.len() ==> moves[k] == round.best.mv->Some_0 || #[trigger] reply_value(
                rules,
                position,
                moves[k],
                top,
                MAX_PLIES as nat,
            ) <= state.cut,
        next.lower == state.next_lower(round.better_count),
        next.upper == state.next_upper(round.better_count, round.best.evaluation),
        next.mv == (if round.better_count > 0 {
            round.best.mv->Some_0
        } else {
            state.mv
        }),
        next.count == 0 ==> next.upper - next.lower <= 1 || round.better_count == 1,
    ensures
        forall|other: Move|
            legal(position, other) ==> #[trigger] reply_value(
                rules,
                position,
                other,
                top,
                MAX_PLIES as nat,
            ) < next.upper,
        next.count == 0 ==> forall|other: Move|
            legal(position, other) ==> #[trigger] reply_value(
                rules,
                position,
                other,
                top,
                MAX_PLIES as nat,
            ) <= reply_value(rules, position, next.mv, top, MAX_PLIES as nat),
{
    assert forall|other: Move| legal(position, other) implies #[trigger] reply_value(
        rules,
        position,
        other,
        top,
        MAX_PLIES as nat,
    ) < next.upper by {
        if round.better_count == 0 {
            assert(moves.contains(other));
            let k = choose|k: int| 0 <= k < moves.len() && moves[k] == other;
            assert(reply_value(rules, position, moves[k], top, MAX_PLIES as nat)
                <= round.best.evaluation);
        }
    }
    if next.count == 0 {
        assert forall|other: Move| legal(position, other) implies #[trigger] reply_value(
            rules,
            position,
            other,
            top,
            MAX_PLIES as nat,
        ) <= reply_value(rules, position, next.mv, top, MAX_PLIES as nat) by {
            if round.better_count == 1 && first {
                assert(moves.contains(other));
                let k = choose|k: int| 0 <= k < moves.len() && moves[k] == other;
                assert(moves[k] == round.best.mv->Some_0 || reply_value(
                    rules,
                    position,
                    moves[k],
                    top,
                    MAX_PLIES as nat,
                ) <= state.cut);
            }
        }
    }
}

/// Moves that no legal move beats earn alike: where neither of two legal
/// moves of a position is beaten by any legal move, both earn the same.
pub proof fn lemma_best_moves_earn_alike<S: Scope>(
    rules: Rules,
    position: Position,
    top: S,
    a: Move,
    b: Move,
)
    requires
        legal(position, a),
        legal(position, b),
        forall|other: Move|
            legal(position, other) ==> #[trigger] reply_value(
                rules,
                position,
                other,
                top,
                MAX_PLIES as nat,
            ) <= reply_value(rules, position, a, top, MAX_PLIES as nat),
        forall|other: Move|
            legal(position, other) ==> #[trigger] reply_value(
                rules,
                position,
                other,
                top,
                MAX_PLIES as nat,
            ) <= reply_value(rules, position, b, top, MAX_PLIES as nat),
    ensures
        reply_value(rules, position, a, top, MAX_PLIES as nat) == reply_value(
            rules,
            position,
            b,
            top,
            MAX_PLIES as nat,
        ),
{
}

/// The best move of `position` at the given depth, with a lower bound on
/// its value. Where `initial` brings the best move of a shallower search, a
/// legal move, and the depth is more than one, that move is tried first and the value that MTD(f) finds for it one
/// level less deep is the first cut; else the first cut is the evaluation
/// of `initial`. Each round tests the moves against the cut and narrows the
/// bounds, until the bounds meet or exactly one move beats the cut. A
/// position without legal moves is lost: the outcome is the least
/// evaluation and no move.
///
/// Whatever the judge, with a position that is well formed it is left as
/// it was, or was told last the outcome
/// of a search of the position after a legal move, of this depth, or of one
/// level less where the search of the hint was the last to tell it
/// anything.
///
/// With a judge that keeps no memory, and where the tree does not depend
/// on how it is walked, the bound is right and the move is best: the move
/// that is returned earns at least the lower bound that is returned with
/// it, and no legal move earns more than it does.
pub fn best_node_search<J: Judge, S: Scope>(
    judge: &mut J,
    position: &Position,
    depth: Depth,
    initial: &SearchResult,
) -> (result: BnsResult)
    requires
        old(judge).inv(),
        is_eval(initial.evaluation as int),
    ensures
        final(judge).inv(),
        same_judgement(final(judge), old(judge)),
        is_eval(result.lower as int),
        playable(*position, result.mv),
        result.mv.is_null() ==> result.lower == MIN_EVAL,
        result.meta.spec_depth() == 0,
        position.wf() ==> replies_taught::<J, S>(*old(judge), *final(judge), *position, depth),
        (forall|other: Move| !legal(*position, other)) ==> result.mv.is_null()
            && result.meta.spec_nodes() == 0,
        depth > 1 && initial.mv is Some && legal(*position, initial.mv->Some_0)
            ==> result.meta.spec_nodes() >= 1,
        !old(judge).keeps_memory() && tame::<S>(rules_of(*old(judge))) && position.wf()
            ==> reply_value(
            rules_of(*old(judge)),
            *position,
            result.mv,
            S::spec_from_depth(depth),
            MAX_PLIES as nat,
        ) >= result.lower,
        !old(judge).keeps_memory() && tame::<S>(rules_of(*old(judge))) && position.wf()
            ==> forall|other: Move|
            legal(*position, other) ==> #[trigger] reply_value(
                rules_of(*old(judge)),
                *position,
                other,
                S::spec_from_depth(depth),
                MAX_PLIES as nat,
            ) <= reply_value(
                rules_of(*old(judge)),
                *position,
                result.mv,
                S::spec_from_depth(depth),
                MAX_PLIES as nat,
            ),
{
    let ghost judge0 = *judge;
    let ghost rules = rules_of(judge0);
    let ghost measured = !judge0.keeps_memory() && tame::<S>(rules) && position.wf();
    let ghost top = S::spec_from_depth(depth);
    proof {
        lemma_same_judgement_refl(judge);
        if measured {
            assert forall|mv: Move|
                MIN_EVAL <= #[trigger] reply_value(rules, *position, mv, top, MAX_PLIES as nat)
                    <= MAX_EVAL by {
                lemma_node_bounds(rules, position.spec_go(mv), top, MAX_PLIES as nat);
            }
        }
    }
    let mut moves = judge.moves(position, depth);
    let mut meta = Meta::create();
    proof {
        if moves@.len() > 0 {
            assert(moves@.contains(moves@[0]));
        }
    }
    if moves.len() == 0 {
        proof {
            assert forall|other: Move| !#[trigger] legal(*position, other) by {
                assert(!moves@.contains(other));
            }
        }
        return BnsResult { lower: MIN_EVAL, meta, mv: Move::null() };
    }
    proof {
        assert(moves@.contains(moves@[0]));
    }
    let mut state = match hint_index(&moves, initial, depth) {
        Some(found) => {
            let mv = moves[found];
            proof {
                assert(moves@.contains(moves@[found as int]));
                lemma_legal_fields(*position, mv);
            }
            let ghost before = *judge;
            let mtd = mtd_f::<J, S>(judge, &position.go(&mv), depth - 1, -initial.evaluation);
            proof {
                lemma_same_judgement(judge, &before, &judge0);
                super::alphabeta::lemma_hoist(moves@, found as int);
                if position.wf() {
                    lemma_reply_taught::<J, S>(judge0, before, *judge, *position, mv, depth, true);
                }
            }
            let nodes = mtd.meta.get_nodes();
            meta.add_nodes(nodes);
            meta.add_nodes(1);
            if found > 0 {
                moves.remove(found);
                moves.insert(0, mv);
            }
            BnsState::initial(-mtd.evaluation, mv)
        },
        None => BnsState::initial(initial.evaluation, moves[0]),
    };
    let mut first = true;
    let ghost floor = meta.spec_nodes();
    loop
        invariant
            judge0 == *old(judge),
            judge.inv(),
            same_judgement(judge, &judge0),
            rules == rules_of(judge0),
            top == S::spec_from_depth(depth),
            measured == (!judge0.keeps_memory() && tame::<S>(rules) && position.wf()),
            measured ==> reply_value(rules, *position, state.mv, top, MAX_PLIES as nat)
                >= state.lower,
            measured ==> forall|other: Move|
                legal(*position, other) ==> #[trigger] reply_value(
                    rules,
                    *position,
                    other,
                    top,
                    MAX_PLIES as nat,
                ) < state.upper,
            meta.spec_depth() == 0,
            position.wf() ==> replies_taught::<J, S>(judge0, *judge, *position, depth),
            meta.spec_nodes() >= floor,
            depth > 1 && initial.mv is Some && legal(*position, initial.mv->Some_0) ==> floor >= 1,
            moves@.len() > 0,
            forall|mv: Move| #[trigger] moves@.contains(mv) <==> legal(*position, mv),
            state.count == (if first {
                2int
            } else {
                1int
            }),
            MIN_EVAL <= state.lower,
            state.upper <= MAX_EVAL + 1,
            is_eval(state.cut as int),
            legal(*position, state.mv),
            first ==> state.lower == MIN_EVAL && state.upper == MAX_EVAL + 1,
            !first ==> state.lower < state.cut == state.upper - 1,
        decreases
                (if first {
                    1int
                } else {
                    0int
                }),
                state.upper - state.lower,
    {
        let scope = S::from_depth(depth);
        let mut round = Round::start(&state);
        let mut i: usize = 0;
        let mut done = false;
        while i < moves.len() && !done
            invariant
                i <= moves@.len(),
                judge0 == *old(judge),
                judge.inv(),
                same_judgement(judge, &judge0),
                rules == rules_of(judge0),
                scope == top,
                top == S::spec_from_depth(depth),
                measured == (!judge0.keeps_memory() && tame::<S>(rules) && position.wf()),
                measured && round.better_count > 0 ==> reply_value(
                    rules,
                    *position,
                    round.best.mv->Some_0,
                    top,
                    MAX_PLIES as nat,
                ) >= state.cut,
                measured && round.better_count == 0 ==> forall|k: int|
                    0 <= k < i ==> #[trigger] reply_value(
                        rules,
                        *position,
                        moves@[k],
                        top,
                        MAX_PLIES as nat,
                    ) <= round.best.evaluation,
                measured && round.better_count == 1 && state.count == 2 ==> forall|k: int|
                    0 <= k < i ==> moves@[k] == round.best.mv->Some_0 || #[trigger] reply_value(
                        rules,
                        *position,
                        moves@[k],
                        top,
                        MAX_PLIES as nat,
                    ) <= state.cut,
                round.better_count == 1 && state.count == 2 ==> round.beta == state.cut,
                meta.spec_depth() == 0,
                position.wf() ==> replies_taught::<J, S>(judge0, *judge, *position, depth),
                meta.spec_nodes() >= floor,
                moves@.len() > 0,
                forall|mv: Move| #[trigger] moves@.contains(mv) <==> legal(*position, mv),
                state.count == 1 || state.count == 2,
                is_eval(state.cut as int),
                round.beta == state.cut - 1 || round.beta == state.cut,
                round.better_count == 0 ==> round.beta == state.cut - 1,
                round.better_count <= 2,
                done ==> round.better_count >= state.count,
                !done ==> round.better_count < state.count,
                i == 0 ==> round.best.evaluation == MIN_EVAL - 1 && round.best.mv is None
                    && round.better_count == 0,
                i > 0 ==> is_eval(round.best.evaluation as int) && round.best.mv is Some && legal(
                    *position,
                    round.best.mv->Some_0,
                ),
                round.better_count > 0 ==> i > 0 && round.best.evaluation >= state.cut,
                round.better_count == 0 && i > 0 ==> round.best.evaluation < state.cut,
            decreases moves@.len() - i + (if done {
                0int
            } else {
                1int
            }),
        {
            let mv = moves[i];
            proof {
                assert(moves@.contains(mv));
                lemma_legal_fields(*position, mv);
            }
            let ghost before = *judge;
            proof {
                lemma_rules_same(before, judge0);
            }
            let score = -makes_cut(judge, &mut meta, &position.go(&mv), &scope, -round.beta).evaluation;
            proof {
                lemma_same_judgement(judge, &before, &judge0);
                if position.wf() {
                    lemma_reply_taught::<J, S>(
                        judge0,
                        before,
                        *judge,
                        *position,
                        mv,
                        depth,
                        false,
                    );
                }
            }
            done = round.scored(&state, mv, score);
            i += 1;
        }
        let better_count = round.better_count;
        let best = round.best;
        let next = state.next(better_count, &best);
        proof {
            if measured {
                lemma_round_end(rules, *position, top, moves@, state, round, next, first);
            }
        }
        if next.count == 0 {
            return BnsResult { lower: next.lower, meta, mv: next.mv };
        }
        state = next;
        first = false;
    }
}

/// Where in `moves` the move stands from which a search of the given depth
/// starts: the best move of the shallower search `initial`, if that brings
/// a move, the depth is more than one, and `moves` holds the move.
pub fn hint_index(moves: &Vec<Move>, initial: &SearchResult, depth: Depth) -> (result: Option<usize>)
    ensures
        match result {
            Some(found) => depth > 1 && found < moves@.len() && initial.mv == Some(
                moves@[found as int],
            ) && forall|k: int| 0 <= k < found ==> moves@[k] != moves@[found as int],
            None => depth <= 1 || initial.mv is None || !moves@.contains(initial.mv->Some_0),
        },
{
    match initial.mv {
        Some(mv) => {
            let found = first_equal(moves, &mv);
            if depth > 1 && found < moves.len() {
                Some(found)
            } else {
                None
            }
        },
        None => None,
    }
}

/// The index of the first move of `moves` that is `mv`; the length of
/// `moves` where there is none.
pub fn first_equal(moves: &Vec<Move>, mv: &Move) -> (result: usize)
    ensures
        result <= moves@.len(),
        result < moves@.len() ==> moves@[result as int] == *mv,
        forall|k: int| 0 <= k < result ==> moves@[k] != *mv,
{
    let mut i: usize = 0;
    while i < moves.len()
        invariant
            i <= moves@.len(),
            forall|k: int| 0 <= k < i ==> moves@[k] != *mv,
        decreases moves@.len() - i,
    {
        if moves[i] == *mv {
            return i;
        }
        i += 1;
    }
    i
}

} // verus!
