//! What a search reports of its own effort.

use super::scope::Depth;
use vstd::prelude::*;

verus! {

/// A number of nodes.
pub type Nodes = usize;

/// The number of nodes visited and the depth reached. Neither ever goes
/// down.
#[derive(Clone, Copy, Debug, PartialEq, Eq, Structural)]
pub struct Meta {
    depth: Depth,
    nodes: Nodes,
}

/// The sum of `a` and `b`, but never more than a node count can hold.
pub open spec fn spec_add_nodes(a: Nodes, b: Nodes) -> Nodes {
    if a + b > usize::MAX {
        usize::MAX
    } else {
        (a + b) as Nodes
    }
}

impl Meta {
    /// The number of nodes visited.
    pub closed spec fn spec_nodes(&self) -> Nodes {
        self.nodes
    }

    /// The depth reached.
    pub closed spec fn spec_depth(&self) -> Depth {
        self.depth
    }

    /// Counts are determined by nodes and depth.
    pub proof fn lemma_eq(a: Meta, b: Meta)
        requires
            a.spec_nodes() == b.spec_nodes(),
            a.spec_depth() == b.spec_depth(),
        ensures
            a == b,
    {
    }

    /// The count before any search.
    pub fn create() -> (result: Meta)
        ensures
            result.spec_nodes() == 0,
            result.spec_depth() == 0,
    {
        Meta { depth: 0, nodes: 0 }
    }

    /// The number of nodes visited.
    #[verifier::when_used_as_spec(spec_nodes)]
    pub fn get_nodes(&self) -> (result: Nodes)
        ensures
            result == self.spec_nodes(),
    {
        self.nodes
    }

    /// Counts `increment` nodes more; the count stops at the greatest
    /// number that it can hold.
    pub fn add_nodes(&mut self, increment: Nodes)
        ensures
            final(self).spec_nodes() == spec_add_nodes(old(self).spec_nodes(), increment),
            final(self).spec_nodes() >= old(self).spec_nodes(),
            final(self).spec_depth() == old(self).spec_depth(),
    {
        self.nodes = if increment > usize::MAX - self.nodes {
            usize::MAX
        } else {
            self.nodes + increment
        };
    }

    /// The depth reached.
    #[verifier::when_used_as_spec(spec_depth)]
    pub fn get_depth(&self) -> (result: Depth)
        ensures
            result == self.spec_depth(),
    {
        self.depth
    }

    /// Raises the depth to `depth`, if that is deeper.
    pub fn put_depth(&mut self, depth: Depth)
        ensures
            final(self).spec_depth() == (if old(self).spec_depth() < depth {
                depth
            } else {
                old(self).spec_depth()
            }),
            final(self).spec_nodes() == old(self).spec_nodes(),
    {
        if self.depth < depth {
            self.depth = depth
        }
    }
}

} // verus!
