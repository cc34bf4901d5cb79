//! The adaptive scope: forcing moves cost no depth; once a forcing run
//! ends, one settling move more may be free; all other descent needs a
//! gap below the threshold.

use super::judge::Eval;
use super::scope::{Depth, Scope};
use vstd::prelude::*;

verus! {

/// The gap from which on a quiet node is not searched deeper.
pub const GAP_LIMIT: Eval = 500;

/// A scope that extends the search after forcing moves.
#[derive(Clone, Copy, Debug, PartialEq, Eq, Structural)]
pub struct AdaptiveScope {
    depth: Depth,
    forcing: bool,
    forced: Depth,
    unforced: Depth,
}

/// One more than `n`, but never more than a `Depth` can hold.
pub open spec fn spec_bump(n: Depth) -> Depth {
    if n < 255 {
        (n + 1) as Depth
    } else {
        n
    }
}

impl AdaptiveScope {
    /// The nominal depth, whether the last move was forcing, and how many
    /// forced and unforced extensions were granted.
    pub closed spec fn parts(&self) -> (Depth, bool, Depth, Depth) {
        (self.depth, self.forcing, self.forced, self.unforced)
    }

    /// The scope with the given parts.
    pub closed spec fn of(depth: Depth, forcing: bool, forced: Depth, unforced: Depth) -> AdaptiveScope {
        AdaptiveScope { depth, forcing, forced, unforced }
    }
}

impl Scope for AdaptiveScope {
    closed spec fn spec_from_depth(depth: Depth) -> AdaptiveScope {
        AdaptiveScope { depth, forcing: false, forced: 0, unforced: 0 }
    }

    closed spec fn spec_next(&self, len: usize, quiet: bool, gap: Eval) -> Option<AdaptiveScope> {
        if !quiet {
            Some(
                AdaptiveScope {
                    depth: self.depth,
                    forcing: true,
                    forced: spec_bump(self.forced),
                    unforced: self.unforced,
                },
            )
        } else if self.forcing && self.depth > 2 * self.unforced {
            Some(
                AdaptiveScope {
                    depth: self.depth,
                    forcing: false,
                    forced: self.forced,
                    unforced: spec_bump(self.unforced),
                },
            )
        } else if self.depth > self.forced + self.unforced && gap < GAP_LIMIT {
            Some(
                AdaptiveScope {
                    depth: (self.depth - self.forced - self.unforced - 1) as Depth,
                    forcing: false,
                    forced: 0,
                    unforced: 0,
                },
            )
        } else {
            None
        }
    }

    closed spec fn spec_depth(&self) -> Depth {
        self.depth
    }

    fn from_depth(depth: Depth) -> (result: AdaptiveScope) {
        AdaptiveScope { depth, forcing: false, forced: 0, unforced: 0 }
    }

    fn next(&self, len: usize, quiet: bool, gap: Eval) -> (result: Option<AdaptiveScope>) {
        if !quiet {
            Some(
                AdaptiveScope {
                    depth: self.depth,
                    forcing: true,
                    forced: if self.forced < 255 {
                        self.forced + 1
                    } else {
                        self.forced
                    },
                    unforced: self.unforced,
                },
            )
        } else if self.forcing && self.depth as u16 > 2 * (self.unforced as u16) {
            Some(
                AdaptiveScope {
                    depth: self.depth,
                    forcing: false,
                    forced: self.forced,
                    unforced: if self.unforced < 255 {
                        self.unforced + 1
                    } else {
                        self.unforced
                    },
                },
            )
        } else if self.depth as u16 > self.forced as u16 + self.unforced as u16 && gap < GAP_LIMIT {
            Some(AdaptiveScope::from_depth(self.depth - self.forced - self.unforced - 1))
        } else {
            None
        }
    }

    fn depth(&self) -> (result: Depth) {
        self.depth
    }
}

/// What the adaptive scope does. A scope is its parts, and the scope made
/// of given parts has those parts. It starts with the given depth and no
/// extensions. A forcing move costs no depth and counts as a forced
/// extension. The first quiet move after a forcing one is free, as an
/// unforced extension, while the depth is more than twice the unforced
/// extensions so far. Any other quiet move goes down only where the gap is
/// below the limit and depth is left beyond the extensions, and then uses
/// up one level and the extensions.
pub proof fn lemma_adaptive_scope(scope: AdaptiveScope, depth: Depth, len: usize, quiet: bool, gap: Eval)
    ensures
        AdaptiveScope::spec_from_depth(depth) == AdaptiveScope::of(depth, false, 0, 0),
        forall|a: Depth, b: bool, c: Depth, d: Depth|
            (#[trigger] AdaptiveScope::of(a, b, c, d)).parts() == (a, b, c, d),
        scope == AdaptiveScope::of(scope.parts().0, scope.parts().1, scope.parts().2, scope.parts().3),
        scope.spec_depth() == scope.parts().0,
        scope.spec_next(len, quiet, gap) == ({
            let (depth, forcing, forced, unforced) = scope.parts();
            if !quiet {
                Some(AdaptiveScope::of(depth, true, spec_bump(forced), unforced))
            } else if forcing && depth > 2 * unforced {
                Some(AdaptiveScope::of(depth, false, forced, spec_bump(unforced)))
            } else if depth > forced + unforced && gap < GAP_LIMIT {
                Some(AdaptiveScope::of((depth - forced - unforced - 1) as Depth, false, 0, 0))
            } else {
                None
            }
        }),
{
}

} // verus!
