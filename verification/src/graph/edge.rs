//! A weighted, undirected edge between two node ids.

use vstd::prelude::*;

verus! {

/// An edge joins the nodes `node1` and `node2`, in either direction, at the
/// cost `weight`.
#[derive(Clone, Debug)]
pub struct Edge {
    pub node1: usize,
    pub node2: usize,
    pub weight: usize,
}

impl Edge {
    /// The edge can be taken from `a` to `b`.
    pub open spec fn connects(&self, a: usize, b: usize) -> bool {
        (self.node1 == a && self.node2 == b) || (self.node1 == b && self.node2 == a)
    }
}

} // verus!
