//! The plain depth scope: a quiet move uses up one level, a forcing move
//! uses up none.

use super::judge::Eval;
use super::minimax::gap_free;
use super::scope::{Depth, Scope};
use vstd::prelude::*;

verus! {

/// A scope that counts the levels that are left.
#[derive(Clone, Copy, Debug, PartialEq, Eq, Structural)]
pub struct DepthScope {
    depth: Depth,
}

impl DepthScope {
    /// The levels that are left.
    pub closed spec fn levels(&self) -> Depth {
        self.depth
    }
}

impl Scope for DepthScope {
    closed spec fn spec_from_depth(depth: Depth) -> DepthScope {
        DepthScope { depth }
    }

    closed spec fn spec_next(&self, len: usize, quiet: bool, gap: Eval) -> Option<DepthScope> {
        if !quiet {
            Some(*self)
        } else if self.depth > 0 {
            Some(DepthScope { depth: (self.depth - 1) as Depth })
        } else {
            None
        }
    }

    closed spec fn spec_depth(&self) -> Depth {
        self.depth
    }

    fn from_depth(depth: Depth) -> (result: DepthScope) {
        DepthScope { depth }
    }

    fn next(&self, len: usize, quiet: bool, gap: Eval) -> (result: Option<DepthScope>) {
        if !quiet {
            Some(DepthScope::from_depth(self.depth))
        } else if self.depth > 0 {
            Some(DepthScope::from_depth(self.depth - 1))
        } else {
            None
        }
    }

    fn depth(&self) -> (result: Depth) {
        self.depth
    }
}

/// What the depth scope does: it starts with the given depth; after a
/// forcing move the depth stays as it is; after a quiet move it is one
/// less, and at depth zero the search stops. Neither the number of moves
/// nor the gap matters.
pub proof fn lemma_depth_scope(scope: DepthScope, depth: Depth, len: usize, quiet: bool, gap: Eval)
    ensures
        DepthScope::spec_from_depth(depth).spec_depth() == depth,
        !quiet ==> scope.spec_next(len, quiet, gap) == Some(scope),
        quiet && scope.spec_depth() > 0 ==> scope.spec_next(len, quiet, gap) is Some
            && scope.spec_next(len, quiet, gap)->Some_0.spec_depth() == scope.spec_depth() - 1,
        quiet && scope.spec_depth() == 0 ==> scope.spec_next(len, quiet, gap) is None,
        forall|other_len: usize, other_gap: Eval|
            scope.spec_next(len, quiet, gap) == #[trigger] scope.spec_next(
                other_len,
                quiet,
                other_gap,
            ),
        forall|other: DepthScope| other.spec_depth() == scope.spec_depth() ==> other == scope,
{
}

/// The depth scope does not look at the gap.
pub proof fn lemma_depth_scope_gap_free()
    ensures
        forall|scope: DepthScope, len: usize, quiet: bool, g1: Eval, g2: Eval| #[trigger]
            gap_free(scope, len, quiet, g1, g2),
{
}

} // verus!
