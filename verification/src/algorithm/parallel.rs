//! The bookkeeping of a search that hands the moves of a node out to
//! workers: when to hand out, when to wait, and which outcome stands.

use super::judge::{Eval, MIN_EVAL};
use super::minimax::{
    best_value, bound_holds, lemma_best_lower, lemma_best_upper, lemma_spec_moves, move_value,
    spec_moves, Rules,
};
use super::scope::{Depth, Scope};
use crate::board::mv::Move;
use crate::board::position::Position;
use crate::board::rules::{is_legal_list, legal};
use vstd::prelude::*;

verus! {

/// The least depth at which a node's moves are handed out.
pub const MIN_DEPTH: Depth = 6;

/// The greatest depth at which a node's moves are handed out.
pub const MAX_DEPTH: Depth = 9;

/// The least number of moves that are handed out.
pub const MIN_THREADS: usize = 6;

/// Whether the moves of a node of the given depth with `moves` moves are
/// handed out to workers.
pub open spec fn spec_in_band(moves: usize, depth: Depth) -> bool {
    moves >= MIN_THREADS && MIN_DEPTH <= depth <= MAX_DEPTH
}

/// Whether the moves of a node of the given depth with `moves` moves are
/// handed out to workers.
#[verifier::when_used_as_spec(spec_in_band)]
pub fn in_band(moves: usize, depth: Depth) -> (result: bool)
    ensures
        result == spec_in_band(moves, depth),
{
    moves >= MIN_THREADS && depth >= MIN_DEPTH && depth <= MAX_DEPTH
}

/// The best outcome so far: what the best move earned, the move, and its
/// place in the order in which the moves were handed out.
#[derive(Clone, Copy, Debug)]
pub struct Lead {
    pub score: Eval,
    pub index: usize,
    pub mv: Move,
}

/// What to do next.
#[derive(Clone, Copy, Debug, PartialEq, Eq, Structural)]
pub enum FanAction {
    /// Hand the move with this index to an idle worker.
    Dispatch(usize),
    /// Wait for a worker to return its outcome.
    Collect,
    /// All is done.
    Finish,
}

/// The state of the fan-out over the `len` moves of a node: the index of
/// the next move to hand out, how many workers are at work, the best
/// outcome so far, and whether an outcome has reached the cut, after which
/// no more moves are handed out.
#[derive(Clone, Copy, Debug)]
pub struct FanOut {
    pub len: usize,
    pub cut: Eval,
    pub next: usize,
    pub open: usize,
    pub lead: Option<Lead>,
    pub cutoff: bool,
}

/// Whether the outcome `(score, index)` beats the lead: a greater score
/// does, and among equal scores the move that was handed out first.
pub open spec fn beats(score: Eval, index: usize, lead: Option<Lead>) -> bool {
    match lead {
        Some(lead) => score > lead.score || (score == lead.score && index < lead.index),
        None => score > MIN_EVAL,
    }
}

/// The lead after the outcome of the move `mv` with the given index came
/// in.
pub open spec fn spec_lead(lead: Option<Lead>, index: usize, mv: Move, score: Eval) -> Option<Lead> {
    if beats(score, index, lead) {
        Some(Lead { score, index, mv })
    } else {
        lead
    }
}

/// What the lead earned: the least evaluation where no move leads.
pub open spec fn lead_score(lead: Option<Lead>) -> Eval {
    match lead {
        Some(lead) => lead.score,
        None => MIN_EVAL,
    }
}

impl FanOut {
    /// The invariant of the fan-out.
    pub open spec fn wf(&self) -> bool {
        &&& self.next <= self.len
        &&& self.open <= self.next
        &&& self.cutoff == (lead_score(self.lead) >= self.cut)
        &&& self.lead is Some ==> self.lead->Some_0.index < self.next && self.lead->Some_0.score
            > MIN_EVAL
    }

    /// The fan-out before any move is handed out.
    pub fn start(len: usize, cut: Eval) -> (result: FanOut)
        requires
            cut > MIN_EVAL,
        ensures
            result.wf(),
            result == (FanOut { len, cut, next: 0, open: 0, lead: None, cutoff: false }),
    {
        FanOut { len, cut, next: 0, open: 0, lead: None, cutoff: false }
    }

    /// What to do next with `idle` workers idle: hand out the next move
    /// while there is one, a worker is idle and no outcome has reached the
    /// cut; else wait for an outcome while a worker is at work; else
    /// finish.
    pub open spec fn spec_action(&self, idle: usize) -> FanAction {
        if !self.cutoff && self.next < self.len && idle > 0 {
            FanAction::Dispatch(self.next)
        } else if self.open > 0 {
            FanAction::Collect
        } else {
            FanAction::Finish
        }
    }

    /// What to do next with `idle` workers idle.
    #[verifier::when_used_as_spec(spec_action)]
    pub fn action(&self, idle: usize) -> (result: FanAction)
        ensures
            result == self.spec_action(idle),
    {
        if !self.cutoff && self.next < self.len && idle > 0 {
            FanAction::Dispatch(self.next)
        } else if self.open > 0 {
            FanAction::Collect
        } else {
            FanAction::Finish
        }
    }

    /// The next move was handed to a worker.
    pub fn dispatched(&mut self)
        requires
            old(self).wf(),
            old(self).next < old(self).len,
        ensures
            final(self).wf(),
            *final(self) == (FanOut {
                next: (old(self).next + 1) as usize,
                open: (old(self).open + 1) as usize,
                ..*old(self)
            }),
    {
        self.next = self.next + 1;
        self.open = self.open + 1;
    }

    /// A worker returned: the move `mv`, which was handed out as number
    /// `index`, earned `score`.
    pub fn collected(&mut self, index: usize, mv: Move, score: Eval)
        requires
            old(self).wf(),
            old(self).open > 0,
            index < old(self).next,
        ensures
            final(self).wf(),
            *final(self) == (FanOut {
                open: (old(self).open - 1) as usize,
                lead: spec_lead(old(self).lead, index, mv, score),
                cutoff: lead_score(spec_lead(old(self).lead, index, mv, score)) >= old(self).cut,
                ..*old(self)
            }),
    {
        self.open = self.open - 1;
        let better = match self.lead {
            Some(lead) => score > lead.score || (score == lead.score && index < lead.index),
            None => score > MIN_EVAL,
        };
        if better {
            self.lead = Some(Lead { score, index, mv });
        }
        self.cutoff = match self.lead {
            Some(lead) => lead.score >= self.cut,
            None => MIN_EVAL >= self.cut,
        };
    }

    /// What the best move earned: the least evaluation where no move
    /// leads.
    pub fn best(&self) -> (result: Eval)
        ensures
            result == lead_score(self.lead),
    {
        match self.lead {
            Some(lead) => lead.score,
            None => MIN_EVAL,
        }
    }

    /// The best move, if one leads.
    pub fn pending(&self) -> (result: Option<Move>)
        ensures
            result == (match self.lead {
                Some(lead) => Some(lead.mv),
                None => None,
            }),
    {
        match self.lead {
            Some(lead) => Some(lead.mv),
            None => None,
        }
    }
}

/// The order in which two outcomes come in does not matter: the lead is
/// the same either way, as long as the two are outcomes of different
/// moves.
pub proof fn lemma_lead_commutes(
    lead: Option<Lead>,
    index1: usize,
    mv1: Move,
    score1: Eval,
    index2: usize,
    mv2: Move,
    score2: Eval,
)
    requires
        index1 != index2,
        lead is Some ==> lead->Some_0.index != index1 && lead->Some_0.index != index2,
    ensures
        spec_lead(spec_lead(lead, index1, mv1, score1), index2, mv2, score2) == spec_lead(
            spec_lead(lead, index2, mv2, score2),
            index1,
            mv1,
            score1,
        ),
{
}

/// The lead after the outcomes `outcomes` came in, one after the other.
pub open spec fn lead_after(lead: Option<Lead>, outcomes: Seq<(usize, Move, Eval)>) -> Option<Lead>
    decreases outcomes.len(),
{
    if outcomes.len() == 0 {
        lead
    } else {
        spec_lead(
            lead_after(lead, outcomes.drop_last()),
            outcomes.last().0,
            outcomes.last().1,
            outcomes.last().2,
        )
    }
}

/// The lead is the best of the outcomes that came in: none earned more, and
/// of those that earned as much none was handed out before it. Where no
/// outcome is above the least evaluation, no move leads.
pub proof fn lemma_lead_is_best(outcomes: Seq<(usize, Move, Eval)>)
    ensures
        forall|i: int|
            0 <= i < outcomes.len() ==> (#[trigger] outcomes[i]).2 <= lead_score(
                lead_after(None, outcomes),
            ),
        lead_after(None, outcomes) is Some ==> exists|i: int|
            0 <= i < outcomes.len() && #[trigger] outcomes[i] == (
                lead_after(None, outcomes)->Some_0.index,
                lead_after(None, outcomes)->Some_0.mv,
                lead_after(None, outcomes)->Some_0.score,
            ),
        lead_after(None, outcomes) is Some ==> lead_after(None, outcomes)->Some_0.score > MIN_EVAL,
        forall|i: int|
            0 <= i < outcomes.len() && (#[trigger] outcomes[i]).2 == lead_score(
                lead_after(None, outcomes),
            ) && lead_after(None, outcomes) is Some ==> lead_after(None, outcomes)->Some_0.index
                <= outcomes[i].0,
        lead_after(None, outcomes) is None ==> forall|i: int|
            0 <= i < outcomes.len() ==> (#[trigger] outcomes[i]).2 <= MIN_EVAL,
    decreases outcomes.len(),
{
    if outcomes.len() > 0 {
        let init = outcomes.drop_last();
        lemma_lead_is_best(init);
        let before = lead_after(None, init);
        let after = lead_after(None, outcomes);
        let last = outcomes.last();
        assert forall|i: int| 0 <= i < outcomes.len() implies (#[trigger] outcomes[i]).2
            <= lead_score(after) by {
            if i < init.len() {
                assert(init[i] == outcomes[i]);
            }
        }
        if after is Some {
            if beats(last.2, last.0, before) {
                assert(outcomes[outcomes.len() - 1] == (
                    after->Some_0.index,
                    after->Some_0.mv,
                    after->Some_0.score,
                ));
            } else {
                let k = choose|k: int|
                    0 <= k < init.len() && #[trigger] init[k] == (
                        before->Some_0.index,
                        before->Some_0.mv,
                        before->Some_0.score,
                    );
                assert(outcomes[k] == init[k]);
            }
        }
        assert forall|i: int|
            0 <= i < outcomes.len() && (#[trigger] outcomes[i]).2 == lead_score(after) && after
                is Some implies after->Some_0.index <= outcomes[i].0 by {
            if i < init.len() {
                assert(init[i] == outcomes[i]);
            }
        }
        if after is None {
            assert forall|i: int| 0 <= i < outcomes.len() implies (#[trigger] outcomes[i]).2
                <= MIN_EVAL by {
                if i < init.len() {
                    assert(init[i] == outcomes[i]);
                }
            }
        }
    }
}

/// The lead does not depend on the order in which the outcomes come in:
/// two orders of the same outcomes, each of a different move, give the
/// same score, and the same move where the handed-out numbers tell the
/// moves apart.
pub proof fn lemma_lead_order_free(a: Seq<(usize, Move, Eval)>, b: Seq<(usize, Move, Eval)>)
    requires
        forall|x: (usize, Move, Eval)| #[trigger] a.contains(x) <==> b.contains(x),
        forall|i: int, j: int|
            0 <= i < a.len() && 0 <= j < a.len() && #[trigger] a[i].0 == #[trigger] a[j].0 ==> a[i]
                == a[j],
    ensures
        lead_after(None, a) == lead_after(None, b),
{
    lemma_lead_is_best(a);
    lemma_lead_is_best(b);
    let la = lead_after(None, a);
    let lb = lead_after(None, b);
    if la is Some {
        let i = choose|i: int|
            0 <= i < a.len() && #[trigger] a[i] == (la->Some_0.index, la->Some_0.mv, la->Some_0.score);
        assert(a.contains(a[i]));
        assert(b.contains(a[i]));
        let j = choose|j: int| 0 <= j < b.len() && b[j] == a[i];
        assert(b[j].2 <= lead_score(lb));
        assert(lb is Some);
    }
    if lb is Some {
        let i = choose|i: int|
            0 <= i < b.len() && #[trigger] b[i] == (lb->Some_0.index, lb->Some_0.mv, lb->Some_0.score);
        assert(b.contains(b[i]));
        assert(a.contains(b[i]));
        let j = choose|j: int| 0 <= j < a.len() && a[j] == b[i];
        assert(a[j].2 <= lead_score(la));
        assert(la is Some);
        let i2 = choose|i2: int|
            0 <= i2 < a.len() && #[trigger] a[i2] == (
                la->Some_0.index,
                la->Some_0.mv,
                la->Some_0.score,
            );
        assert(a.contains(a[i2]));
        assert(b.contains(a[i2]));
        let j2 = choose|j2: int| 0 <= j2 < b.len() && b[j2] == a[i2];
        assert(b[j2].2 <= lead_score(lb));
        assert(la->Some_0.score == lb->Some_0.score);
        assert(lb->Some_0.index <= b[j2].0);
        assert(la->Some_0.index <= a[j].0);
        assert(la->Some_0.index == lb->Some_0.index);
        assert(a[i2].0 == a[j].0);
    }
}

/// Whether the outcome of the move that was handed out as number `k` is
/// among `outcomes`.
pub open spec fn came_in(outcomes: Seq<(usize, Move, Eval)>, k: int) -> bool {
    exists|i: int| 0 <= i < outcomes.len() && (#[trigger] outcomes[i]).0 == k
}

/// Whether each of `outcomes` is the outcome of the move of `moves` with
/// its number, and is right about what that move earns: a score that
/// reaches the cut is earned at least, one that does not is earned at most.
pub open spec fn scored_right<S: Scope>(
    rules: Rules,
    position: Position,
    scope: S,
    plies: nat,
    moves: Seq<Move>,
    cut: Eval,
    outcomes: Seq<(usize, Move, Eval)>,
) -> bool {
    forall|i: int|
        0 <= i < outcomes.len() ==> (#[trigger] outcomes[i]).0 < moves.len() && outcomes[i].1
            == moves[outcomes[i].0 as int] && bound_holds(
            outcomes[i].2 as int,
            cut as int,
            move_value(rules, position, scope, plies, moves.len(), outcomes[i].1),
        )
}

/// A node whose moves were handed out is judged as a node whose moves were
/// tried one by one. Let each outcome be right about what its move earns,
/// and let the outcomes be in once the lead has reached the cut or every
/// move has come in. Then, in whatever order they came and however many
/// were at work, the lead is right about what the best move earns: it is
/// earned at least where it reaches the cut, and at most where it does not;
/// and a leading move that reaches the cut is legal and earns what it
/// leads with.
pub proof fn lemma_fan_out_sound<S: Scope>(
    rules: Rules,
    position: Position,
    scope: S,
    plies: nat,
    moves: Seq<Move>,
    cut: Eval,
    outcomes: Seq<(usize, Move, Eval)>,
)
    requires
        plies > 0,
        cut > MIN_EVAL,
        is_legal_list(position, moves),
        scored_right(rules, position, scope, plies, moves, cut, outcomes),
        lead_score(lead_after(None, outcomes)) >= cut || forall|k: int|
            0 <= k < moves.len() ==> #[trigger] came_in(outcomes, k),
    ensures
        bound_holds(
            lead_score(lead_after(None, outcomes)) as int,
            cut as int,
            best_value(
                rules,
                position,
                scope,
                plies,
                spec_moves(position),
                spec_moves(position).len(),
            ),
        ),
        lead_score(lead_after(None, outcomes)) >= cut ==> lead_after(None, outcomes) is Some
            && legal(position, lead_after(None, outcomes)->Some_0.mv) && move_value(
            rules,
            position,
            scope,
            plies,
            moves.len(),
            lead_after(None, outcomes)->Some_0.mv,
        ) >= lead_score(lead_after(None, outcomes)),
{
    let lead = lead_after(None, outcomes);
    let best = lead_score(lead);
    let listed = spec_moves(position);
    lemma_lead_is_best(outcomes);
    lemma_spec_moves(position, moves);
    if best >= cut {
        let i = choose|i: int|
            0 <= i < outcomes.len() && #[trigger] outcomes[i] == (
                lead->Some_0.index,
                lead->Some_0.mv,
                lead->Some_0.score,
            );
        let mv = lead->Some_0.mv;
        assert(outcomes[i].1 == mv);
        assert(moves.contains(moves[outcomes[i].0 as int]));
        assert(listed.contains(mv));
        let k = choose|k: int| 0 <= k < listed.len() && listed[k] == mv;
        lemma_best_lower(rules, position, scope, plies, listed, listed.len(), k);
    } else {
        assert forall|k: int| 0 <= k < listed.len() implies move_value(
            rules,
            position,
            scope,
            plies,
            listed.len(),
            #[trigger] listed[k],
        ) <= best by {
            assert(listed.contains(listed[k]));
            assert(moves.contains(listed[k]));
            let m = choose|m: int| 0 <= m < moves.len() && moves[m] == listed[k];
            assert(came_in(outcomes, m));
            let i = choose|i: int| 0 <= i < outcomes.len() && (#[trigger] outcomes[i]).0 == m;
            assert(outcomes[i].2 <= best);
        }
        lemma_best_upper(rules, position, scope, plies, listed, listed.len(), best as int);
    }
}

} // verus!
