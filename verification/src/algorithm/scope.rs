//! Scopes: the policy that decides, level by level, how deep the search
//! goes.

use super::judge::Eval;
use vstd::prelude::*;

verus! {

/// The nominal depth of a search, in levels.
pub type Depth = u8;

/// A scope answers one question at each level of the search: given the
/// number of legal moves, whether the situation is quiet, and the gap
/// between the window and the static evaluation, with which scope does the
/// search go one level down, if at all?
pub trait Scope: Sized + Clone {
    /// The scope of a search of the given nominal depth.
    spec fn spec_from_depth(depth: Depth) -> Self;

    /// The scope one level down; `None` where the search stops.
    spec fn spec_next(&self, len: usize, quiet: bool, gap: Eval) -> Option<Self>;

    /// The nominal depth that is left.
    spec fn spec_depth(&self) -> Depth;

    fn from_depth(depth: Depth) -> (result: Self)
        ensures
            result == Self::spec_from_depth(depth),
    ;

    fn next(&self, len: usize, quiet: bool, gap: Eval) -> (result: Option<Self>)
        ensures
            result == self.spec_next(len, quiet, gap),
    ;

    fn depth(&self) -> (result: Depth)
        ensures
            result == self.spec_depth(),
    ;
}

} // verus!
