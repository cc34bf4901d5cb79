//! The interface of an effort count.

use super::meta::spec_add_nodes;
pub use super::meta::{Meta, Nodes};
use super::scope::Depth;
use vstd::prelude::*;

verus! {

/// Something that counts nodes and records a depth.
pub trait Metric {
    spec fn metric_nodes(&self) -> Nodes;

    spec fn metric_depth(&self) -> Depth;

    fn get_nodes(&self) -> (result: Nodes)
        ensures
            result == self.metric_nodes(),
    ;

    fn add_nodes(&mut self, increment: Nodes)
        ensures
            final(self).metric_nodes() == spec_add_nodes(old(self).metric_nodes(), increment),
            final(self).metric_depth() == old(self).metric_depth(),
    ;

    fn get_depth(&self) -> (result: Depth)
        ensures
            result == self.metric_depth(),
    ;

    fn put_depth(&mut self, depth: Depth)
        ensures
            final(self).metric_depth() == (if old(self).metric_depth() < depth {
                depth
            } else {
                old(self).metric_depth()
            }),
            final(self).metric_nodes() == old(self).metric_nodes(),
    ;
}

impl Metric for Meta {
    open spec fn metric_nodes(&self) -> Nodes {
        self.spec_nodes()
    }

    open spec fn metric_depth(&self) -> Depth {
        self.spec_depth()
    }

    fn get_nodes(&self) -> (result: Nodes) {
        Meta::get_nodes(self)
    }

    fn add_nodes(&mut self, increment: Nodes) {
        Meta::add_nodes(self, increment)
    }

    fn get_depth(&self) -> (result: Depth) {
        Meta::get_depth(self)
    }

    fn put_depth(&mut self, depth: Depth) {
        Meta::put_depth(self, depth)
    }
}

} // verus!
