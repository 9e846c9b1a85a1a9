//! A single node of a graph, identified by its id.

use vstd::prelude::*;

verus! {

/// A node of a graph. Two nodes of one graph are expected to have different ids.
#[derive(Clone, Debug)]
pub struct Node {
    pub id: usize,
}

} // verus!
