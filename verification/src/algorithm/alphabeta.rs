//! The core of the search: a fail-soft search with a window of width one.

use super::judge::{
    is_eval, same_judgement, Eval, Judge, Judgement, PositionMemory, MAX_EVAL, MIN_EVAL,
};
use super::meta::{spec_add_nodes, Meta};
use super::minimax::{
    best_value, bound_holds, gap_free, lemma_best_lower, lemma_best_upper, lemma_node_bounds,
    lemma_rules_same, lemma_spec_moves, move_value, node_open, node_value, quiet_at, rules_of,
    spec_moves, tame, value_at,
};
use super::scope::{Depth, Scope};
use super::search::SearchResult;
use crate::board::generator::lemma_legal_fields;
use crate::board::mv::Move;
use crate::board::position::{Field, Position};
use crate::board::rules::{is_legal_list, legal};
use vstd::prelude::*;

verus! {

/// The greatest number of levels that a search goes down, whatever the
/// scope allows.
pub const MAX_PLIES: usize = 512;

/// The index of the first move of `moves`, at or after index `k`, that goes
/// from `from` to `to`; the length of `moves` where there is none.
pub open spec fn first_with(moves: Seq<Move>, from: Field, to: Field, k: int) -> int
    decreases moves.len() - k,
{
    if k < 0 || k >= moves.len() {
        moves.len() as int
    } else if moves[k].spec_from() == from && moves[k].spec_to() == to {
        k
    } else {
        first_with(moves, from, to, k + 1)
    }
}

/// `moves` with the first move that goes from `from` to `to` put in front,
/// the others in their order; `moves` itself where there is no such move.
pub open spec fn spec_hoist(moves: Seq<Move>, from: Field, to: Field) -> Seq<Move> {
    let i = first_with(moves, from, to, 0);
    if 0 < i < moves.len() {
        moves.remove(i).insert(0, moves[i])
    } else {
        moves
    }
}

/// Putting one element in front keeps the elements.
pub proof fn lemma_hoist(moves: Seq<Move>, i: int)
    requires
        0 <= i < moves.len(),
    ensures
        moves.remove(i).insert(0, moves[i]).len() == moves.len(),
        forall|mv: Move| #[trigger]
            moves.remove(i).insert(0, moves[i]).contains(mv) <==> moves.contains(mv),
        moves.no_duplicates() ==> moves.remove(i).insert(0, moves[i]).no_duplicates(),
        forall|k: int|
            0 <= k < moves.len() ==> #[trigger] moves.remove(i).insert(0, moves[i])[k] == (if k
                == 0 {
                moves[i]
            } else if k <= i {
                moves[k - 1]
            } else {
                moves[k]
            }),
{
    let r = moves.remove(i).insert(0, moves[i]);
    assert forall|k: int| 0 <= k < moves.len() implies #[trigger] r[k] == (if k == 0 {
        moves[i]
    } else if k <= i {
        moves[k - 1]
    } else {
        moves[k]
    }) by {}
    assert forall|mv: Move| #[trigger] r.contains(mv) <==> moves.contains(mv) by {
        if r.contains(mv) {
            let k = choose|k: int| 0 <= k < r.len() && r[k] == mv;
            if k == 0 {
                assert(moves[i] == mv);
            } else if k <= i {
                assert(moves[k - 1] == mv);
            } else {
                assert(moves[k] == mv);
            }
        }
        if moves.contains(mv) {
            let k = choose|k: int| 0 <= k < moves.len() && moves[k] == mv;
            if k == i {
                assert(r[0] == mv);
            } else if k < i {
                assert(r[k + 1] == mv);
            } else {
                assert(r[k] == mv);
            }
        }
    }
    if moves.no_duplicates() {
        assert forall|a: int, b: int| 0 <= a < r.len() && 0 <= b < r.len() && a != b implies r[a]
            != r[b] by {}
    }
}

/// The index of the first move of `moves` that goes from `from` to `to`;
/// the length of `moves` where there is none.
pub fn find_first(moves: &Vec<Move>, from: Field, to: Field) -> (result: usize)
    ensures
        result == first_with(moves@, from, to, 0),
        result <= moves@.len(),
        result < moves@.len() ==> moves@[result as int].spec_from() == from
            && moves@[result as int].spec_to() == to,
        forall|k: int|
            0 <= k < result ==> !((#[trigger] moves@[k]).spec_from() == from && moves@[k].spec_to()
                == to),
{
    let len = moves.len();
    let mut i: usize = 0;
    while i < len
        invariant
            i <= len,
            len == moves@.len(),
            first_with(moves@, from, to, 0) == first_with(moves@, from, to, i as int),
            forall|k: int|
                0 <= k < i ==> !((#[trigger] moves@[k]).spec_from() == from && moves@[k].spec_to()
                    == to),
        decreases len - i,
    {
        if moves[i].from() == from && moves[i].to() == to {
            return i;
        }
        i += 1;
    }
    len
}

/// Puts the first move that goes from `from` to `to` in front.
pub fn hoist(moves: &mut Vec<Move>, from: Field, to: Field)
    ensures
        final(moves)@ == spec_hoist(old(moves)@, from, to),
        final(moves)@.len() == old(moves)@.len(),
        forall|mv: Move| #[trigger] final(moves)@.contains(mv) <==> old(moves)@.contains(mv),
        old(moves)@.no_duplicates() ==> final(moves)@.no_duplicates(),
{
    let i = find_first(moves, from, to);
    if 0 < i && i < moves.len() {
        let mv = moves[i];
        proof {
            lemma_hoist(moves@, i as int);
        }
        moves.remove(i);
        moves.insert(0, mv);
    }
}

/// Judging alike carries over.
pub proof fn lemma_same_judgement<J: Judgement>(a: &J, b: &J, c: &J)
    requires
        same_judgement(a, b),
        same_judgement(b, c),
    ensures
        same_judgement(a, c),
{
    assert forall|p: Position| #[trigger] a.spec_evaluate(p) == c.spec_evaluate(p) by {
        assert(a.spec_evaluate(p) == b.spec_evaluate(p));
    }
    assert forall|p: Position, mv: Move| #[trigger]
        a.spec_quiet_move(p, mv) == c.spec_quiet_move(p, mv) by {
        assert(a.spec_quiet_move(p, mv) == b.spec_quiet_move(p, mv));
    }
    assert forall|p: Position, moves: Seq<Move>| #[trigger]
        a.spec_quiet_position(p, moves) == c.spec_quiet_position(p, moves) by {
        assert(a.spec_quiet_position(p, moves) == b.spec_quiet_position(p, moves));
    }
}

/// A judge judges as it does.
pub proof fn lemma_same_judgement_refl<J: Judgement>(a: &J)
    ensures
        same_judgement(a, a),
{
}

/// The value between `lower` and `upper` that is nearest to `eval`; `upper`
/// where the bounds cross.
pub open spec fn spec_clamp(eval: Eval, lower: Eval, upper: Eval) -> Eval {
    if eval < lower {
        if lower < upper {
            lower
        } else {
            upper
        }
    } else if eval < upper {
        eval
    } else {
        upper
    }
}

/// The outcome of a search before it visits a node: the sentinel where the
/// cut lies outside the evaluations, and the remembered bound where a
/// search of at least this depth has settled what the cut asks.
pub open spec fn spec_shortcut(memory: PositionMemory, depth: Depth, cut: Eval) -> Option<Eval> {
    if cut <= MIN_EVAL {
        Some(MIN_EVAL)
    } else if cut > MAX_EVAL {
        Some(MAX_EVAL)
    } else if memory.depth >= depth && memory.lower >= cut {
        Some(memory.lower)
    } else if memory.depth >= depth && memory.upper < cut {
        Some(memory.upper)
    } else {
        None
    }
}

/// Whether `result` is an outcome that a search of `position` with the cut
/// `cut` may have: an evaluation, with a move only where the evaluation
/// reaches the cut, and then a legal move.
pub open spec fn sound_result(position: Position, cut: Eval, result: SearchResult) -> bool {
    &&& is_eval(result.evaluation as int)
    &&& result.mv is Some ==> result.evaluation >= cut && legal(position, result.mv->Some_0)
}

/// A node that is to be searched: its moves in the order in which they are
/// tried, whether it is quiet, its static value within the remembered
/// bounds, and the depth that the scope stands for.
pub struct Node {
    pub moves: Vec<Move>,
    pub quiet: bool,
    pub current_score: Eval,
    pub depth: Depth,
}

/// What a search finds at a node before it tries the moves: the outcome,
/// where the node is settled; else the node, open for its moves.
pub enum Opening {
    Settled(SearchResult),
    Open(Node),
}

/// Whether `node` is `position` opened for a search with `scope` and
/// `cut`: it has moves, which are the legal moves; the cut is an
/// evaluation above the least; and the scope lets the search go down.
pub open spec fn node_ok<S: Scope>(position: Position, scope: S, cut: Eval, node: Node) -> bool {
    &&& node.moves@.len() > 0
    &&& is_legal_list(position, node.moves@)
    &&& is_eval(node.current_score as int)
    &&& MIN_EVAL < cut <= MAX_EVAL
    &&& node.depth == scope.spec_depth()
    &&& scope.spec_next(
        node.moves@.len() as usize,
        node.quiet,
        (cut - node.current_score) as Eval,
    ) is Some
}

/// Whether the count `after` is the count `before` with more nodes, if
/// any, and the same depth.
pub open spec fn counted(before: Meta, after: Meta) -> bool {
    after.spec_nodes() >= before.spec_nodes() && after.spec_depth() == before.spec_depth()
}

/// Whether the count `after` is the count `before` with one node more at
/// least, unless the count is full.
pub open spec fn visited(before: Meta, after: Meta) -> bool {
    counted(before, after) && (after.spec_nodes() > before.spec_nodes() || before.spec_nodes()
        == usize::MAX)
}

/// The moves of a node in the order in which they are tried: as the judge
/// listed them, but with the remembered move in front where there is one and
/// the node, of more than one move, is not quiet.
pub open spec fn spec_order(listed: Seq<Move>, quiet: bool, memory: PositionMemory) -> Seq<Move> {
    if !quiet && listed.len() > 1 && memory.spec_has_move() {
        spec_hoist(listed, memory.from, memory.to)
    } else {
        listed
    }
}

/// The static value of `position` as a search of `depth` takes it: the
/// judge's evaluation, held within the bounds that the judge remembers.
pub open spec fn spec_static<J: Judgement>(judge: J, position: Position, depth: Depth) -> Eval {
    let memory = judge.spec_recall(position, depth);
    spec_clamp(judge.spec_evaluate(position), memory.lower, memory.upper)
}

/// The evaluation with which a node is settled before any of the moves
/// `listed` is tried: what the cut or the memory settles; the least
/// evaluation where there is no move; the static value where no level is
/// left or the scope stops. `None` where the moves are tried.
pub open spec fn spec_settled<J: Judgement, S: Scope>(
    judge: J,
    position: Position,
    scope: S,
    cut: Eval,
    plies: usize,
    listed: Seq<Move>,
) -> Option<Eval> {
    let depth = scope.spec_depth();
    let current = spec_static(judge, position, depth);
    match spec_shortcut(judge.spec_recall(position, depth), depth, cut) {
        Some(eval) => Some(eval),
        None => if listed.len() == 0 {
            Some(MIN_EVAL)
        } else if plies == 0 || scope.spec_next(
            listed.len() as usize,
            judge.spec_quiet_position(position, listed),
            (cut - current) as Eval,
        ) is None {
            Some(current)
        } else {
            None
        },
    }
}

/// The count `before` after a node was settled or opened: unchanged where
/// the cut or the memory settled it, and one node more otherwise.
pub open spec fn spec_counted(before: Meta, after: Meta, shortcut: Option<Eval>) -> bool {
    match shortcut {
        Some(_) => after == before,
        None => after.spec_nodes() == spec_add_nodes(before.spec_nodes(), 1) && after.spec_depth()
            == before.spec_depth(),
    }
}

/// Whether `result` is what opening `position` gives where the judge lists
/// the moves `listed`: the node settled as `spec_settled` says, or else
/// open, with the moves in the order of `spec_order`, the judge's word on
/// whether it is quiet, and the static value.
pub open spec fn opened_from<J: Judgement, S: Scope>(
    judge: J,
    position: Position,
    scope: S,
    cut: Eval,
    plies: usize,
    listed: Seq<Move>,
    result: Opening,
) -> bool {
    let depth = scope.spec_depth();
    let memory = judge.spec_recall(position, depth);
    let quiet = judge.spec_quiet_position(position, listed);
    &&& spec_shortcut(memory, depth, cut) is None ==> is_legal_list(position, listed)
    &&& match spec_settled(judge, position, scope, cut, plies, listed) {
        Some(eval) => result matches Opening::Settled(outcome) && outcome.evaluation == eval
            && outcome.mv is None,
        None => result matches Opening::Open(node) && node.moves@ == spec_order(
            listed,
            quiet,
            memory,
        ) && node.quiet == quiet && node.current_score == spec_static(judge, position, depth)
            && node.depth == depth,
    }
}

/// Whether the last that the judge `left` was told is the outcome `result`
/// of a search of `position` of the given depth with the cut `cut`: it was
/// told the evaluation, as an upper bound where the evaluation stays below
/// the cut and as a lower bound where it reaches it, with a move that is
/// the move of the outcome where the outcome has one. The judge that was
/// told judges as `judge` does.
#[verifier::opaque]
pub open spec fn told<J: Judgement>(
    judge: J,
    left: J,
    position: Position,
    depth: Depth,
    cut: Eval,
    result: SearchResult,
) -> bool {
    exists|before: J, pending: Option<Move>, low: bool|
        same_judgement(&before, &judge) && (result.mv is Some ==> pending == result.mv) && low
            == (result.evaluation < cut) && #[trigger] left.spec_remembered(
            before,
            position,
            depth,
            result.evaluation,
            pending,
            low,
        )
}

/// Whether the last that the judge `left` was told is the outcome of some
/// search of `position` of the given depth, by a judge that judges as
/// `judge` does.
#[verifier::opaque]
pub open spec fn lesson<J: Judgement>(judge: J, left: J, position: Position, depth: Depth) -> bool {
    exists|before: J, evaluation: Eval, pending: Option<Move>, low: bool|
        same_judgement(&before, &judge) && #[trigger] left.spec_remembered(
            before,
            position,
            depth,
            evaluation,
            pending,
            low,
        )
}

/// Whether `left` is the judge `judge` as it was, or a judge whose last
/// lesson is the outcome of a search of `position` of the given depth.
pub open spec fn taught<J: Judgement>(judge: J, left: J, position: Position, depth: Depth) -> bool {
    left == judge || lesson(judge, left, position, depth)
}

/// A lesson of a judge is a lesson of every judge that judges alike.
pub proof fn lemma_lesson_same<J: Judgement>(a: J, b: J, left: J, position: Position, depth: Depth)
    requires
        same_judgement(&a, &b),
        lesson(a, left, position, depth),
    ensures
        lesson(b, left, position, depth),
{
    reveal(lesson);
    let (before, evaluation, pending, low) = choose|
        before: J,
        evaluation: Eval,
        pending: Option<Move>,
        low: bool,
    |
        same_judgement(&before, &a) && #[trigger] left.spec_remembered(
            before,
            position,
            depth,
            evaluation,
            pending,
            low,
        );
    lemma_same_judgement(&before, &a, &b);
    assert(same_judgement(&before, &b) && left.spec_remembered(
        before,
        position,
        depth,
        evaluation,
        pending,
        low,
    ));
}

/// Being taught carries over: a judge that was taught since `b`, which was
/// taught since `a`, was taught since `a`, where the lessons are of one
/// position and depth.
pub proof fn lemma_taught_on<J: Judgement>(a: J, b: J, left: J, position: Position, depth: Depth)
    requires
        same_judgement(&b, &a),
        taught(a, b, position, depth),
        taught(b, left, position, depth),
    ensures
        taught(a, left, position, depth),
{
    if left != b {
        lemma_lesson_same(b, a, left, position, depth);
    }
}

/// What was told is a lesson.
pub proof fn lemma_told_is_lesson<J: Judgement>(
    judge: J,
    left: J,
    position: Position,
    depth: Depth,
    cut: Eval,
    result: SearchResult,
)
    requires
        told(judge, left, position, depth, cut, result),
    ensures
        lesson(judge, left, position, depth),
{
    reveal(lesson);
    reveal(told);
    let (before, pending, low) = choose|before: J, pending: Option<Move>, low: bool|
        same_judgement(&before, &judge) && (result.mv is Some ==> pending == result.mv) && low
            == (result.evaluation < cut) && #[trigger] left.spec_remembered(
            before,
            position,
            depth,
            result.evaluation,
            pending,
            low,
        );
    assert(same_judgement(&before, &judge) && left.spec_remembered(
        before,
        position,
        depth,
        result.evaluation,
        pending,
        low,
    ));
}

/// Whether `result` is an outcome of searching `position` where the judge
/// lists the moves `listed`, `after` the count that it leaves of `before`,
/// and `left` the judge that it leaves. Where the node is settled: what
/// settles it, with no node counted but this one, and the judge as it was.
/// Else an evaluation with a move exactly where it reaches the cut, and the
/// judge told that outcome last. Where the values are measured, the move is
/// the first in the order of `spec_order` that reaches the cut: each move
/// before it earns less.
pub open spec fn searched_from<J: Judgement, S: Scope>(
    judge: J,
    position: Position,
    scope: S,
    cut: Eval,
    plies: usize,
    listed: Seq<Move>,
    before: Meta,
    after: Meta,
    left: J,
    result: SearchResult,
) -> bool {
    let depth = scope.spec_depth();
    let memory = judge.spec_recall(position, depth);
    let order = spec_order(listed, judge.spec_quiet_position(position, listed), memory);
    &&& spec_shortcut(memory, depth, cut) is None ==> is_legal_list(position, listed)
    &&& match spec_settled(judge, position, scope, cut, plies, listed) {
        Some(eval) => result.evaluation == eval && result.mv is None && spec_counted(
            before,
            after,
            spec_shortcut(memory, depth, cut),
        ) && left == judge,
        None => {
            &&& result.evaluation >= cut <==> result.mv is Some
            &&& told(judge, left, position, depth, cut, result)
            &&& !judge.keeps_memory() && tame::<S>(rules_of(judge)) && position.wf() && result.mv is Some
                ==> forall|j: int|
                0 <= j < order.index_of(result.mv->Some_0) ==> move_value(
                    rules_of(judge),
                    position,
                    scope,
                    plies as nat,
                    order.len(),
                    #[trigger] order[j],
                ) < cut
        },
    }
}

/// The bookkeeping of a node whose moves are tried in order: how many were
/// tried, the best score among them, and the first move that earned it.
#[derive(Clone, Copy, Debug)]
pub struct Tally {
    pub tried: usize,
    pub best: Eval,
    pub pending: Option<Move>,
}

impl Tally {
    /// The tally before any move was tried.
    pub open spec fn spec_start() -> Tally {
        Tally { tried: 0, best: MIN_EVAL, pending: None }
    }

    /// The tally before any move was tried.
    pub fn start() -> (result: Tally)
        ensures
            result == Self::spec_start(),
    {
        Tally { tried: 0, best: MIN_EVAL, pending: None }
    }

    /// Whether a further move is to be tried at a node of `len` moves:
    /// one is left, and none has reached `cut`.
    pub open spec fn spec_goes_on(&self, len: usize, cut: Eval) -> bool {
        self.tried < len && self.best < cut
    }

    /// Whether a further move is to be tried at a node of `len` moves.
    pub fn goes_on(&self, len: usize, cut: Eval) -> (result: bool)
        ensures
            result == self.spec_goes_on(len, cut),
    {
        self.tried < len && self.best < cut
    }

    /// The tally after the move `mv` earned `score`: one move more is
    /// tried, and `mv` is the best where it earned more than any before.
    pub open spec fn spec_scored(&self, mv: Move, score: Eval) -> Tally {
        Tally {
            tried: (self.tried + 1) as usize,
            best: if score > self.best {
                score
            } else {
                self.best
            },
            pending: if score > self.best {
                Some(mv)
            } else {
                self.pending
            },
        }
    }

    /// Notes that the move `mv` earned `score`.
    pub fn scored(&mut self, mv: Move, score: Eval)
        requires
            old(self).tried < usize::MAX,
        ensures
            *final(self) == old(self).spec_scored(mv, score),
    {
        if score > self.best {
            self.best = score;
            self.pending = Some(mv);
        }
        self.tried = self.tried + 1;
    }
}

/// Opens a node. A cut outside the evaluations is answered at once with
/// the sentinel on its side, and so is a cut that the judge's memory of a
/// search of at least this depth settles. Else the node is counted. A node
/// without moves is lost. The remembered move is put in front, unless the
/// node is quiet. The static value, held within the remembered bounds, is
/// the outcome where the scope, or the number of levels left, lets the
/// search go no further.
///
/// The judge lists the legal moves in an order of its own. The contract
/// says what the node is for the list that the judge gave: there is a list
/// of the legal moves for which `opened_from` holds of the outcome.
pub fn open_node<J: Judge, S: Scope>(
    judge: &J,
    meta: &mut Meta,
    position: &Position,
    scope: &S,
    cut: Eval,
    plies: usize,
) -> (result: Opening)
    requires
        judge.inv(),
    ensures
        counted(*old(meta), *final(meta)),
        match spec_shortcut(judge.spec_recall(*position, scope.spec_depth()), scope.spec_depth(), cut) {
            Some(eval) => result matches Opening::Settled(outcome) && outcome.evaluation == eval
                && *final(meta) == *old(meta),
            None => visited(*old(meta), *final(meta)),
        },
        spec_counted(
            *old(meta),
            *final(meta),
            spec_shortcut(judge.spec_recall(*position, scope.spec_depth()), scope.spec_depth(), cut),
        ),
        exists|listed: Seq<Move>| #[trigger]
            opened_from(*judge, *position, *scope, cut, plies, listed, result),
        !judge.keeps_memory() && MIN_EVAL < cut <= MAX_EVAL ==> spec_shortcut(
            judge.spec_recall(*position, scope.spec_depth()),
            scope.spec_depth(),
            cut,
        ) is None,
        spec_shortcut(judge.spec_recall(*position, scope.spec_depth()), scope.spec_depth(), cut)
            is None && (forall|mv: Move| !legal(*position, mv)) ==> (result matches Opening::Settled(
            outcome,
        ) && outcome.evaluation == MIN_EVAL),
        spec_shortcut(judge.spec_recall(*position, scope.spec_depth()), scope.spec_depth(), cut)
            is None && plies == 0 && (exists|mv: Move| legal(*position, mv))
            ==> (result matches Opening::Settled(outcome) && outcome.evaluation == spec_static(
            *judge,
            *position,
            scope.spec_depth(),
        )),
        match result {
            Opening::Settled(outcome) => outcome.mv is None && is_eval(outcome.evaluation as int),
            Opening::Open(node) => node_ok(*position, *scope, cut, node) && plies > 0
                && node.current_score == spec_clamp(
                judge.spec_evaluate(*position),
                judge.spec_recall(*position, scope.spec_depth()).lower,
                judge.spec_recall(*position, scope.spec_depth()).upper,
            ),
        },
        !judge.keeps_memory() && tame::<S>(rules_of(*judge)) ==> match result {
            Opening::Settled(outcome) => bound_holds(
                outcome.evaluation as int,
                cut as int,
                node_value(rules_of(*judge), *position, *scope, plies as nat),
            ) && (MIN_EVAL < cut <= MAX_EVAL ==> !node_open(
                rules_of(*judge),
                *position,
                *scope,
                plies as nat,
            ) && outcome.evaluation == node_value(rules_of(*judge), *position, *scope, plies as nat)),
            Opening::Open(node) => node_open(rules_of(*judge), *position, *scope, plies as nat)
                && node_value(rules_of(*judge), *position, *scope, plies as nat)
                == best_value(
                rules_of(*judge),
                *position,
                *scope,
                plies as nat,
                spec_moves(*position),
                spec_moves(*position).len(),
            ) && node.moves@.len() == spec_moves(*position).len() && node.current_score
                == value_at(rules_of(*judge), *position),
        },
        !judge.keeps_memory() && tame::<S>(rules_of(*judge)) && MIN_EVAL < cut <= MAX_EVAL
            && node_open(rules_of(*judge), *position, *scope, plies as nat) ==> result is Open,
{
    let ghost rules = rules_of(*judge);
    let ghost measured = !judge.keeps_memory() && tame::<S>(rules);
    let ghost none: Seq<Move> = Seq::empty();
    proof {
        if measured {
            lemma_node_bounds(rules, *position, *scope, plies as nat);
        }
    }
    if cut <= MIN_EVAL {
        let result = Opening::Settled(SearchResult::evaluation(MIN_EVAL));
        proof {
            assert(opened_from(*judge, *position, *scope, cut, plies, none, result));
        }
        return result;
    }
    if cut > MAX_EVAL {
        let result = Opening::Settled(SearchResult::evaluation(MAX_EVAL));
        proof {
            assert(opened_from(*judge, *position, *scope, cut, plies, none, result));
        }
        return result;
    }
    let depth = scope.depth();
    let memory = judge.recall(position, depth);
    if memory.depth >= depth {
        if memory.lower >= cut {
            let result = Opening::Settled(SearchResult::evaluation(memory.lower));
            proof {
                assert(opened_from(*judge, *position, *scope, cut, plies, none, result));
            }
            return result;
        }
        if memory.upper < cut {
            let result = Opening::Settled(SearchResult::evaluation(memory.upper));
            proof {
                assert(opened_from(*judge, *position, *scope, cut, plies, none, result));
            }
            return result;
        }
    }
    meta.add_nodes(1);

    let mut moves = judge.moves(position, depth);
    let ghost listed = moves@;
    proof {
        lemma_spec_moves(*position, moves@);
        if listed.len() > 0 {
            assert(listed.contains(listed[0]));
        }
        if exists|mv: Move| legal(*position, mv) {
            let mv = choose|mv: Move| legal(*position, mv);
            assert(listed.contains(mv));
        }
    }
    if moves.len() == 0 {
        let result = Opening::Settled(SearchResult::evaluation(MIN_EVAL));
        proof {
            assert(opened_from(*judge, *position, *scope, cut, plies, listed, result));
        }
        return result;
    }
    proof {
        if measured {
            assert(quiet_at(rules, *position, moves@) == quiet_at(
                rules,
                *position,
                spec_moves(*position),
            ));
        }
        assert forall|i: int| 0 <= i < moves@.len() implies (#[trigger] moves@[i]).wf()
            && moves@[i].spec_from() < 50 && moves@[i].spec_to() < 50 by {
            assert(moves@.contains(moves@[i]));
            lemma_legal_fields(*position, moves@[i]);
        }
    }
    let quiet = judge.quiet_position(position, moves.as_slice());
    let len = moves.len();
    if !quiet && len > 1 && memory.has_move() {
        hoist(&mut moves, memory.from, memory.to);
    }
    let evaluation = judge.evaluate(position);
    let current_score = if evaluation < memory.lower {
        if memory.lower < memory.upper {
            memory.lower
        } else {
            memory.upper
        }
    } else if evaluation < memory.upper {
        evaluation
    } else {
        memory.upper
    };
    proof {
        if measured {
            assert(gap_free(*scope, len, quiet, (cut - current_score) as Eval, 0));
            assert(current_score == value_at(rules, *position));
        }
    }
    if plies == 0 || scope.next(len, quiet, cut - current_score).is_none() {
        let result = Opening::Settled(SearchResult::evaluation(current_score));
        proof {
            assert(opened_from(*judge, *position, *scope, cut, plies, listed, result));
        }
        return result;
    }
    let result = Opening::Open(Node { moves, quiet, current_score, depth });
    proof {
        assert(opened_from(*judge, *position, *scope, cut, plies, listed, result));
    }
    result
}

/// The scope with which the search goes down after the move `mv` at a
/// node with `len` moves and the static value `current_score`, if it goes
/// down. A move is quiet where the judge calls it quiet, but never where it
/// is the only move.
pub fn child_scope<J: Judge, S: Scope>(
    judge: &J,
    position: &Position,
    mv: &Move,
    scope: &S,
    len: usize,
    current_score: Eval,
    cut: Eval,
) -> (next: Option<S>)
    requires
        judge.inv(),
        legal(*position, *mv),
        MIN_EVAL < cut <= MAX_EVAL,
        is_eval(current_score as int),
    ensures
        next == scope.spec_next(
            len,
            len != 1 && judge.spec_quiet_move(*position, *mv),
            (cut - current_score) as Eval,
        ),
{
    proof {
        lemma_legal_fields(*position, *mv);
    }
    let quiet = len != 1 && judge.quiet_move(position, mv);
    scope.next(len, quiet, cut - current_score)
}

/// What the move `mv` earns at a node with `len` moves and the static
/// value `current_score`: the value of the position after the move, seen
/// from this side, as far as it matters for `cut`, where the scope lets the
/// search go down after the move; else the static value. A move is quiet
/// where the judge calls it quiet, but never where it is the only move.
pub fn child_score<J: Judge, S: Scope>(
    judge: &mut J,
    meta: &mut Meta,
    position: &Position,
    mv: &Move,
    scope: &S,
    len: usize,
    current_score: Eval,
    cut: Eval,
    plies: usize,
) -> (score: Eval)
    requires
        old(judge).inv(),
        legal(*position, *mv),
        MIN_EVAL < cut <= MAX_EVAL,
        is_eval(current_score as int),
        plies > 0,
    ensures
        final(judge).inv(),
        same_judgement(final(judge), old(judge)),
        is_eval(score as int),
        counted(*old(meta), *final(meta)),
        scope.spec_next(
            len,
            len != 1 && old(judge).spec_quiet_move(*position, *mv),
            (cut - current_score) as Eval,
        ) is None ==> score == current_score && *final(meta) == *old(meta) && *final(judge) == *old(
            judge,
        ),
        !old(judge).keeps_memory() && tame::<S>(rules_of(*old(judge))) && position.wf()
            && current_score == value_at(rules_of(*old(judge)), *position) ==> bound_holds(
            score as int,
            cut as int,
            move_value(rules_of(*old(judge)), *position, *scope, plies as nat, len as nat, *mv),
        ),
    decreases plies, 0int,
{
    proof {
        lemma_legal_fields(*position, *mv);
        lemma_same_judgement_refl(judge);
    }
    proof {
        if tame::<S>(rules_of(*judge)) {
            assert(gap_free(
                *scope,
                len,
                len != 1 && judge.spec_quiet_move(*position, *mv),
                (cut - current_score) as Eval,
                0,
            ));
        }
    }
    match child_scope(judge, position, mv, scope, len, current_score, cut) {
        Some(next) => {
            let child = search(judge, meta, &position.go(mv), &next, -cut + 1, plies - 1);
            -child.evaluation
        },
        None => current_score,
    }
}

/// Closes a node whose best move `pending` earned `best`: the judge is
/// told the outcome, a lower bound where it reaches the cut and an upper
/// bound where it does not, with the move in both cases, and the outcome
/// names the move only where it reaches the cut.
pub fn close_node<J: Judge>(
    judge: &mut J,
    position: &Position,
    depth: Depth,
    best: Eval,
    pending: Option<Move>,
    cut: Eval,
) -> (result: SearchResult)
    requires
        old(judge).inv(),
        is_eval(best as int),
        best >= cut ==> pending is Some,
    ensures
        final(judge).inv(),
        same_judgement(final(judge), old(judge)),
        result.evaluation == best,
        result.mv == (if best >= cut {
            pending
        } else {
            None
        }),
        final(judge).spec_remembered(*old(judge), *position, depth, best, pending, best < cut),
{
    if best >= cut {
        judge.remember(position, depth, best, pending, false);
        SearchResult::with_move(pending.unwrap(), best)
    } else {
        judge.remember(position, depth, best, pending, true);
        SearchResult::evaluation(best)
    }
}

/// Does the side to move reach `cut`? The search tells with an evaluation
/// that is at least `cut` where it does, and less where it does not, and in
/// the first case with the move that does it.
///
/// The node is opened; unless that settles it, its moves are searched in
/// order, each with the scope that the scope at hand allows it, until one
/// reaches the cut; then the node is closed. The search goes down no more
/// than `MAX_PLIES` levels.
///
/// For every judge the outcome is what `searched_from` says of the list of
/// legal moves that the judge gave: a settled node gives what settles it,
/// counts one node at most and leaves the judge as it was; a node whose
/// moves were tried names a move exactly where the evaluation reaches the
/// cut, and the last that the judge is told is that outcome. With a judge that
/// keeps no memory, and where the tree does not depend on how it is walked,
/// the evaluation bounds the value that the full search of the tree
/// defines, on the side of the cut on which it lies, the move earns at
/// least the evaluation, and it is the first move in the order that
/// reaches the cut.
pub fn makes_cut<J: Judge, S: Scope>(
    judge: &mut J,
    meta: &mut Meta,
    position: &Position,
    scope: &S,
    cut: Eval,
) -> (result: SearchResult)
    requires
        old(judge).inv(),
    ensures
        final(judge).inv(),
        same_judgement(final(judge), old(judge)),
        sound_result(*position, cut, result),
        counted(*old(meta), *final(meta)),
        match spec_shortcut(old(judge).spec_recall(*position, scope.spec_depth()), scope.spec_depth(), cut) {
            Some(eval) => result.evaluation == eval && result.mv is None && *final(meta) == *old(
                meta,
            ) && *final(judge) == *old(judge),
            None => visited(*old(meta), *final(meta)),
        },
        exists|listed: Seq<Move>| #[trigger]
            searched_from(
                *old(judge),
                *position,
                *scope,
                cut,
                MAX_PLIES,
                listed,
                *old(meta),
                *final(meta),
                *final(judge),
                result,
            ),
        taught(*old(judge), *final(judge), *position, scope.spec_depth()),
        result.mv is Some ==> told(
            *old(judge),
            *final(judge),
            *position,
            scope.spec_depth(),
            cut,
            result,
        ),
        !old(judge).keeps_memory() && MIN_EVAL < cut <= MAX_EVAL ==> spec_shortcut(
            old(judge).spec_recall(*position, scope.spec_depth()),
            scope.spec_depth(),
            cut,
        ) is None,
        spec_shortcut(old(judge).spec_recall(*position, scope.spec_depth()), scope.spec_depth(), cut)
            is None && (forall|mv: Move| !legal(*position, mv)) ==> result.evaluation == MIN_EVAL
            && result.mv is None && *final(judge) == *old(judge) && final(meta).spec_nodes()
            == spec_add_nodes(old(meta).spec_nodes(), 1),
        !old(judge).keeps_memory() && tame::<S>(rules_of(*old(judge))) && position.wf()
            ==> bound_holds(
            result.evaluation as int,
            cut as int,
            node_value(rules_of(*old(judge)), *position, *scope, MAX_PLIES as nat),
        ),
        !old(judge).keeps_memory() && tame::<S>(rules_of(*old(judge))) && position.wf()
            && result.mv is Some ==> move_value(
            rules_of(*old(judge)),
            *position,
            *scope,
            MAX_PLIES as nat,
            spec_moves(*position).len(),
            result.mv->Some_0,
        ) >= result.evaluation,
        !old(judge).keeps_memory() && tame::<S>(rules_of(*old(judge))) && position.wf()
            && node_open(rules_of(*old(judge)), *position, *scope, MAX_PLIES as nat) && cut > MIN_EVAL
            && result.evaluation >= cut ==> result.mv is Some,
        !old(judge).keeps_memory() && tame::<S>(rules_of(*old(judge))) && position.wf()
            && !node_open(rules_of(*old(judge)), *position, *scope, MAX_PLIES as nat) && MIN_EVAL < cut
            <= MAX_EVAL ==> result.mv is None && result.evaluation == node_value(
            rules_of(*old(judge)),
            *position,
            *scope,
            MAX_PLIES as nat,
        ),
{
    search(judge, meta, position, scope, cut, MAX_PLIES)
}

/// The search of `makes_cut`, which goes down no more than `plies` levels.
pub fn search<J: Judge, S: Scope>(
    judge: &mut J,
    meta: &mut Meta,
    position: &Position,
    scope: &S,
    cut: Eval,
    plies: usize,
) -> (result: SearchResult)
    requires
        old(judge).inv(),
    ensures
        final(judge).inv(),
        same_judgement(final(judge), old(judge)),
        sound_result(*position, cut, result),
        counted(*old(meta), *final(meta)),
        match spec_shortcut(old(judge).spec_recall(*position, scope.spec_depth()), scope.spec_depth(), cut) {
            Some(eval) => result.evaluation == eval && result.mv is None && *final(meta) == *old(
                meta,
            ) && *final(judge) == *old(judge),
            None => visited(*old(meta), *final(meta)),
        },
        exists|listed: Seq<Move>| #[trigger]
            searched_from(
                *old(judge),
                *position,
                *scope,
                cut,
                plies,
                listed,
                *old(meta),
                *final(meta),
                *final(judge),
                result,
            ),
        taught(*old(judge), *final(judge), *position, scope.spec_depth()),
        result.mv is Some ==> told(
            *old(judge),
            *final(judge),
            *position,
            scope.spec_depth(),
            cut,
            result,
        ),
        !old(judge).keeps_memory() && MIN_EVAL < cut <= MAX_EVAL ==> spec_shortcut(
            old(judge).spec_recall(*position, scope.spec_depth()),
            scope.spec_depth(),
            cut,
        ) is None,
        spec_shortcut(old(judge).spec_recall(*position, scope.spec_depth()), scope.spec_depth(), cut)
            is None && (forall|mv: Move| !legal(*position, mv)) ==> result.evaluation == MIN_EVAL
            && result.mv is None && *final(judge) == *old(judge) && final(meta).spec_nodes()
            == spec_add_nodes(old(meta).spec_nodes(), 1),
        spec_shortcut(old(judge).spec_recall(*position, scope.spec_depth()), scope.spec_depth(), cut)
            is None && plies == 0 && (exists|mv: Move| legal(*position, mv)) ==> result.evaluation
            == spec_static(*old(judge), *position, scope.spec_depth()) && result.mv is None
            && *final(judge) == *old(judge),
        !old(judge).keeps_memory() && tame::<S>(rules_of(*old(judge))) && position.wf()
            ==> bound_holds(
            result.evaluation as int,
            cut as int,
            node_value(rules_of(*old(judge)), *position, *scope, plies as nat),
        ),
        !old(judge).keeps_memory() && tame::<S>(rules_of(*old(judge))) && position.wf()
            && result.mv is Some ==> move_value(
            rules_of(*old(judge)),
            *position,
            *scope,
            plies as nat,
            spec_moves(*position).len(),
            result.mv->Some_0,
        ) >= result.evaluation,
        !old(judge).keeps_memory() && tame::<S>(rules_of(*old(judge))) && position.wf()
            && node_open(rules_of(*old(judge)), *position, *scope, plies as nat) && cut > MIN_EVAL
            && result.evaluation >= cut ==> result.mv is Some,
        !old(judge).keeps_memory() && tame::<S>(rules_of(*old(judge))) && position.wf()
            && !node_open(rules_of(*old(judge)), *position, *scope, plies as nat) && MIN_EVAL < cut
            <= MAX_EVAL ==> result.mv is None && result.evaluation == node_value(
            rules_of(*old(judge)),
            *position,
            *scope,
            plies as nat,
        ),
    decreases plies, 1int,
{
    let ghost judge0 = *judge;
    let ghost rules = rules_of(judge0);
    let ghost measured = !judge0.keeps_memory() && tame::<S>(rules) && position.wf();
    let ghost listed = spec_moves(*position);
    proof {
        lemma_same_judgement_refl(judge);
    }
    let opening = open_node(judge, meta, position, scope, cut, plies);
    let ghost judged = choose|judged: Seq<Move>| #[trigger]
        opened_from(judge0, *position, *scope, cut, plies, judged, opening);
    let node = match opening {
        Opening::Settled(outcome) => {
            proof {
                assert(searched_from(
                    judge0,
                    *position,
                    *scope,
                    cut,
                    plies,
                    judged,
                    *old(meta),
                    *meta,
                    judge0,
                    outcome,
                ));
            }
            return outcome;
        },
        Opening::Open(node) => node,
    };
    let ghost order = node.moves@;
    let len = node.moves.len();
    let mut tally = Tally::start();
    proof {
        lemma_spec_moves(*position, node.moves@);
        assert(order.len() > 0);
        assert(order.contains(order[0]));
    }
    while tally.goes_on(len, cut)
        invariant
            tally.tried <= len,
            len == node.moves@.len(),
            order == node.moves@,
            order.no_duplicates(),
            plies > 0,
            judge.inv(),
            same_judgement(judge, &judge0),
            rules == rules_of(judge0),
            measured == (!judge0.keeps_memory() && tame::<S>(rules) && position.wf()),
            measured ==> node.current_score == value_at(rules, *position),
            measured && tally.best < cut ==> forall|k: int|
                0 <= k < tally.tried ==> move_value(
                    rules,
                    *position,
                    *scope,
                    plies as nat,
                    len as nat,
                    #[trigger] order[k],
                ) <= tally.best,
            measured && tally.best >= cut ==> tally.pending is Some && move_value(
                rules,
                *position,
                *scope,
                plies as nat,
                len as nat,
                tally.pending->Some_0,
            ) >= tally.best,
            measured && tally.best >= cut ==> tally.tried > 0 && tally.pending == Some(
                order[tally.tried - 1],
            ) && forall|k: int|
                0 <= k < tally.tried - 1 ==> move_value(
                    rules,
                    *position,
                    *scope,
                    plies as nat,
                    len as nat,
                    #[trigger] order[k],
                ) < cut,
            forall|mv: Move| #[trigger] order.contains(mv) ==> legal(*position, mv),
            MIN_EVAL < cut <= MAX_EVAL,
            is_eval(node.current_score as int),
            is_eval(tally.best as int),
            tally.pending is Some ==> legal(*position, tally.pending->Some_0),
            tally.best > MIN_EVAL ==> tally.pending is Some,
            visited(*old(meta), *meta),
        decreases len - tally.tried,
    {
        let mv = node.moves[tally.tried];
        proof {
            assert(order.contains(mv));
        }
        let ghost before = *judge;
        proof {
            lemma_rules_same(before, judge0);
        }
        let score = child_score(
            judge,
            meta,
            position,
            &mv,
            scope,
            len,
            node.current_score,
            cut,
            plies,
        );
        proof {
            lemma_same_judgement(judge, &before, &judge0);
        }
        tally.scored(mv, score);
    }
    let ghost before = *judge;
    let best = tally.best;
    let pending = tally.pending;
    let result = close_node(judge, position, node.depth, best, pending, cut);
    proof {
        lemma_same_judgement(judge, &before, &judge0);
        if measured {
            if best >= cut {
                let found = pending->Some_0;
                assert(order.contains(found));
                assert(listed.contains(found));
                let k = choose|k: int| 0 <= k < listed.len() && listed[k] == found;
                lemma_best_lower(rules, *position, *scope, plies as nat, listed, listed.len(), k);
                let at = order.index_of(found);
                assert(0 <= at < order.len() && order[at] == found);
                assert(at == tally.tried - 1);
            } else {
                assert forall|k: int| 0 <= k < listed.len() implies move_value(
                    rules,
                    *position,
                    *scope,
                    plies as nat,
                    listed.len(),
                    #[trigger] listed[k],
                ) <= best by {
                    assert(listed.contains(listed[k]));
                    assert(order.contains(listed[k]));
                    let m = choose|m: int| 0 <= m < order.len() && order[m] == listed[k];
                    assert(order[m] == listed[k]);
                }
                lemma_best_upper(
                    rules,
                    *position,
                    *scope,
                    plies as nat,
                    listed,
                    listed.len(),
                    best as int,
                );
            }
        }
        reveal(told);
        let low = result.evaluation < cut;
        assert(same_judgement(&before, &judge0) && (result.mv is Some ==> pending == result.mv)
            && judge.spec_remembered(
            before,
            *position,
            scope.spec_depth(),
            result.evaluation,
            pending,
            low,
        ));
        assert(told(judge0, *judge, *position, scope.spec_depth(), cut, result));
        lemma_told_is_lesson(judge0, *judge, *position, scope.spec_depth(), cut, result);
        assert(searched_from(
            judge0,
            *position,
            *scope,
            cut,
            plies,
            judged,
            *old(meta),
            *meta,
            *judge,
            result,
        ));
    }
    result
}

} // verus!
