//! The value of a position as the full search of its tree defines it: the
//! measure of what the windowed searches find.

use super::judge::{is_eval, same_judgement, Eval, Judgement, MIN_EVAL};
use super::scope::Scope;
use crate::board::mv::Move;
use crate::board::position::Position;
use crate::board::rules::{is_legal_list, lemma_legal_moves_deterministic};
use vstd::prelude::*;

verus! {

/// How a judge judges: the static value of a position, and which moves and
/// positions are quiet.
pub struct Rules {
    pub value: spec_fn(Position) -> Eval,
    pub quiet_move: spec_fn(Position, Move) -> bool,
    pub quiet_position: spec_fn(Position, Seq<Move>) -> bool,
}

/// How `judge` judges.
pub open spec fn rules_of<J: Judgement>(judge: J) -> Rules {
    Rules {
        value: |p: Position| judge.spec_evaluate(p),
        quiet_move: |p: Position, mv: Move| judge.spec_quiet_move(p, mv),
        quiet_position: |p: Position, moves: Seq<Move>| judge.spec_quiet_position(p, moves),
    }
}

/// The static value of `p`.
pub open spec fn value_at(rules: Rules, p: Position) -> int {
    (rules.value)(p) as int
}

/// Whether `p`, with the legal moves `moves`, is quiet.
pub open spec fn quiet_at(rules: Rules, p: Position, moves: Seq<Move>) -> bool {
    (rules.quiet_position)(p, moves)
}

/// Whether the scope one level down is the same whatever the gap.
pub open spec fn gap_free<S: Scope>(scope: S, len: usize, quiet: bool, g1: Eval, g2: Eval) -> bool {
    scope.spec_next(len, quiet, g1) == scope.spec_next(len, quiet, g2)
}

/// Whether the tree that a search walks does not depend on how it is
/// walked: static values are evaluations, whether a position is quiet does
/// not depend on the order of its moves, and scopes do not look at the gap
/// between window and static value.
pub open spec fn tame<S: Scope>(rules: Rules) -> bool {
    &&& forall|p: Position| is_eval(#[trigger] value_at(rules, p))
    &&& forall|p: Position, a: Seq<Move>, b: Seq<Move>|
        is_legal_list(p, a) && is_legal_list(p, b) ==> #[trigger] quiet_at(rules, p, a)
            == #[trigger] quiet_at(rules, p, b)
    &&& forall|scope: S, len: usize, quiet: bool, g1: Eval, g2: Eval| #[trigger]
        gap_free(scope, len, quiet, g1, g2)
}

/// A list of the legal moves of `p`.
pub open spec fn spec_moves(p: Position) -> Seq<Move> {
    choose|list: Seq<Move>| is_legal_list(p, list)
}

/// The greater of the two.
pub open spec fn greater(a: int, b: int) -> int {
    if a >= b {
        a
    } else {
        b
    }
}

/// The value of `p` for the side to move, from a search that goes down no
/// more than `plies` levels: lost where there is no move; the static value
/// where the scope lets the search go no further; else what the best move
/// earns.
pub open spec fn node_value<S: Scope>(rules: Rules, p: Position, scope: S, plies: nat) -> int
    decreases plies, 2nat, 0nat,
{
    let moves = spec_moves(p);
    if moves.len() == 0 {
        MIN_EVAL as int
    } else if plies == 0 || scope.spec_next(moves.len() as usize, quiet_at(rules, p, moves), 0)
        is None {
        value_at(rules, p)
    } else {
        best_value(rules, p, scope, plies, moves, moves.len())
    }
}

/// What the best of the first `n` moves of `moves` earns; the least
/// evaluation at least.
pub open spec fn best_value<S: Scope>(
    rules: Rules,
    p: Position,
    scope: S,
    plies: nat,
    moves: Seq<Move>,
    n: nat,
) -> int
    decreases plies, 1nat, n,
{
    if n == 0 || plies == 0 {
        MIN_EVAL as int
    } else {
        greater(
            best_value(rules, p, scope, plies, moves, (n - 1) as nat),
            move_value(rules, p, scope, plies, moves.len(), moves[n - 1]),
        )
    }
}

/// What the move `mv` earns at a node with `len` moves: the value of the
/// position after the move, seen from this side, where the scope lets the
/// search go down after the move; else the static value.
pub open spec fn move_value<S: Scope>(
    rules: Rules,
    p: Position,
    scope: S,
    plies: nat,
    len: nat,
    mv: Move,
) -> int
    decreases plies, 0nat, 0nat,
{
    if plies == 0 {
        value_at(rules, p)
    } else {
        match scope.spec_next(len as usize, len != 1 && (rules.quiet_move)(p, mv), 0) {
            Some(next) => -node_value(rules, p.spec_go(mv), next, (plies - 1) as nat),
            None => value_at(rules, p),
        }
    }
}

/// Whether the search goes down from `p`: there are moves, levels are
/// left, and the scope lets it.
pub open spec fn node_open<S: Scope>(rules: Rules, p: Position, scope: S, plies: nat) -> bool {
    let moves = spec_moves(p);
    moves.len() > 0 && plies > 0 && scope.spec_next(
        moves.len() as usize,
        quiet_at(rules, p, moves),
        0,
    ) is Some
}

/// What the move `mv` earns in `p`: the value of the position after the
/// move, searched with `scope`, seen from the side that moves.
pub open spec fn reply_value<S: Scope>(rules: Rules, p: Position, mv: Move, scope: S, plies: nat) -> int {
    -node_value(rules, p.spec_go(mv), scope, plies)
}

/// Whether the outcome `eval` of a search with the cut `cut` is right about
/// the value `value`: an outcome that reaches the cut is a lower bound, one
/// that does not is an upper bound.
pub open spec fn bound_holds(eval: int, cut: int, value: int) -> bool {
    (eval >= cut ==> value >= eval) && (eval < cut ==> value <= eval)
}

/// Judges that judge alike have the same rules.
pub proof fn lemma_rules_same<J: Judgement>(a: J, b: J)
    requires
        same_judgement(&a, &b),
    ensures
        rules_of(a) == rules_of(b),
{
    let ra = rules_of(a);
    let rb = rules_of(b);
    assert(ra.value =~= rb.value) by {
        assert forall|p: Position| #[trigger] (ra.value)(p) == (rb.value)(p) by {
            assert(a.spec_evaluate(p) == b.spec_evaluate(p));
        }
    }
    assert(ra.quiet_move =~= rb.quiet_move) by {
        assert forall|p: Position, mv: Move| #[trigger]
            (ra.quiet_move)(p, mv) == (rb.quiet_move)(p, mv) by {
            assert(a.spec_quiet_move(p, mv) == b.spec_quiet_move(p, mv));
        }
    }
    assert(ra.quiet_position =~= rb.quiet_position) by {
        assert forall|p: Position, moves: Seq<Move>| #[trigger]
            (ra.quiet_position)(p, moves) == (rb.quiet_position)(p, moves) by {
            assert(a.spec_quiet_position(p, moves) == b.spec_quiet_position(p, moves));
        }
    }
}

/// Values are evaluations.
pub proof fn lemma_node_bounds<S: Scope>(rules: Rules, p: Position, scope: S, plies: nat)
    requires
        tame::<S>(rules),
    ensures
        is_eval(node_value(rules, p, scope, plies)),
    decreases plies, 2nat, 0nat,
{
    let moves = spec_moves(p);
    assert(is_eval(value_at(rules, p)));
    if moves.len() != 0 && plies != 0 && scope.spec_next(
        moves.len() as usize,
        quiet_at(rules, p, moves),
        0,
    ) is Some {
        lemma_best_bounds(rules, p, scope, plies, moves, moves.len());
    }
}

/// What the best move earns is an evaluation.
pub proof fn lemma_best_bounds<S: Scope>(
    rules: Rules,
    p: Position,
    scope: S,
    plies: nat,
    moves: Seq<Move>,
    n: nat,
)
    requires
        tame::<S>(rules),
    ensures
        is_eval(best_value(rules, p, scope, plies, moves, n)),
    decreases plies, 1nat, n,
{
    if n != 0 && plies != 0 {
        lemma_best_bounds(rules, p, scope, plies, moves, (n - 1) as nat);
        lemma_move_bounds(rules, p, scope, plies, moves.len(), moves[n - 1]);
    }
}

/// What a move earns is an evaluation.
pub proof fn lemma_move_bounds<S: Scope>(
    rules: Rules,
    p: Position,
    scope: S,
    plies: nat,
    len: nat,
    mv: Move,
)
    requires
        tame::<S>(rules),
    ensures
        is_eval(move_value(rules, p, scope, plies, len, mv)),
    decreases plies, 0nat, 0nat,
{
    assert(is_eval(value_at(rules, p)));
    if plies != 0 {
        match scope.spec_next(len as usize, len != 1 && (rules.quiet_move)(p, mv), 0) {
            Some(next) => {
                lemma_node_bounds(rules, p.spec_go(mv), next, (plies - 1) as nat);
            },
            None => {},
        }
    }
}

/// The best move earns at least what any move earns.
pub proof fn lemma_best_lower<S: Scope>(
    rules: Rules,
    p: Position,
    scope: S,
    plies: nat,
    moves: Seq<Move>,
    n: nat,
    k: int,
)
    requires
        0 <= k < n <= moves.len(),
        plies > 0,
    ensures
        best_value(rules, p, scope, plies, moves, n) >= move_value(
            rules,
            p,
            scope,
            plies,
            moves.len(),
            moves[k],
        ),
    decreases n,
{
    if k < n - 1 {
        lemma_best_lower(rules, p, scope, plies, moves, (n - 1) as nat, k);
    }
}

/// The best move earns no more than a bound on what every move earns.
pub proof fn lemma_best_upper<S: Scope>(
    rules: Rules,
    p: Position,
    scope: S,
    plies: nat,
    moves: Seq<Move>,
    n: nat,
    bound: int,
)
    requires
        n <= moves.len(),
        MIN_EVAL <= bound,
        forall|k: int|
            0 <= k < n ==> move_value(rules, p, scope, plies, moves.len(), #[trigger] moves[k])
                <= bound,
    ensures
        best_value(rules, p, scope, plies, moves, n) <= bound,
    decreases n,
{
    if n != 0 && plies != 0 {
        lemma_best_upper(rules, p, scope, plies, moves, (n - 1) as nat, bound);
        assert(move_value(rules, p, scope, plies, moves.len(), moves[n - 1]) <= bound);
    }
}

/// Any list of the legal moves is as long as the list that the value is
/// defined with, and holds the same moves.
pub proof fn lemma_spec_moves(p: Position, list: Seq<Move>)
    requires
        is_legal_list(p, list),
    ensures
        is_legal_list(p, spec_moves(p)),
        spec_moves(p).len() == list.len(),
        forall|mv: Move| #[trigger] list.contains(mv) <==> spec_moves(p).contains(mv),
{
    let chosen = spec_moves(p);
    lemma_legal_moves_deterministic(p, list, chosen);
    vstd::seq_lib::to_multiset_len(list);
    vstd::seq_lib::to_multiset_len(chosen);
}

} // verus!
