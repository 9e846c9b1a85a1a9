//! The graph model: a list of nodes and a list of weighted, undirected edges,
//! together with the mathematical notions that the algorithms are stated in:
//! walks, their weight, and what it means for a path to be a shortest one.

pub mod node;
pub mod edge;
pub mod graph_loader;
pub mod render;

use vstd::prelude::*;
use node::Node;
use edge::Edge;

verus! {

/// A graph. Nothing is checked on construction: an edge whose endpoint is not
/// the id of a node is simply never part of a walk.
pub struct Graph {
    pub nodes: Vec<Node>,
    pub edges: Vec<Edge>,
}

impl Graph {
    /// `v` is the id of one of the graph's nodes.
    pub open spec fn has_node(&self, v: usize) -> bool {
        exists|k: int| 0 <= k < self.nodes@.len() && (#[trigger] self.nodes@[k]).id == v
    }

    /// `j` is the index of an edge that joins `a` and `b`.
    pub open spec fn joins(&self, j: int, a: usize, b: usize) -> bool {
        0 <= j < self.edges@.len() && self.edges@[j].connects(a, b)
    }

    /// Some edge joins `a` and `b`.
    pub open spec fn adjacent(&self, a: usize, b: usize) -> bool {
        exists|j: int| #[trigger] self.joins(j, a, b)
    }

    /// `p` is a sequence of nodes of the graph, and `es` names, for each
    /// consecutive pair of `p`, an edge that joins the two.
    pub open spec fn is_walk(&self, p: Seq<usize>, es: Seq<int>) -> bool {
        &&& p.len() == es.len() + 1
        &&& forall|i: int| 0 <= i < p.len() ==> self.has_node(#[trigger] p[i])
        &&& forall|i: int| 0 <= i < es.len() ==> self.joins(#[trigger] es[i], p[i], p[i + 1])
    }

    /// The sum of the weights of the edges that `es` names.
    pub open spec fn walk_weight(&self, es: Seq<int>) -> int
        decreases es.len(),
    {
        if es.len() == 0 {
            0
        } else {
            self.walk_weight(es.drop_last()) + self.edges@[es.last()].weight
        }
    }

    /// `p`, over the edges `es`, is a walk that leads from `s` to `e`.
    pub open spec fn route(&self, s: usize, e: usize, p: Seq<usize>, es: Seq<int>) -> bool {
        self.is_walk(p, es) && p[0] == s && p.last() == e
    }

    /// Some walk leads from `s` to `e`.
    pub open spec fn connected(&self, s: usize, e: usize) -> bool {
        exists|p: Seq<usize>, es: Seq<int>| #[trigger] self.route(s, e, p, es)
    }

    /// Some walk leads from `s` to `e` at a weight below the sentinel
    /// `usize::MAX`, which stands for "not reached".
    pub open spec fn within_reach(&self, s: usize, e: usize) -> bool {
        exists|p: Seq<usize>, es: Seq<int>|
            #[trigger] self.route(s, e, p, es) && self.walk_weight(es) < usize::MAX
    }

    /// No walk from `s` to `e` weighs less than `w`.
    pub open spec fn no_route_below(&self, s: usize, e: usize, w: int) -> bool {
        forall|q: Seq<usize>, fs: Seq<int>| #[trigger]
            self.route(s, e, q, fs) ==> w <= self.walk_weight(fs)
    }

    /// `p` leads from `s` to `e`, and each consecutive pair of it is joined
    /// by an edge of the graph.
    pub open spec fn is_valid_path(&self, s: usize, e: usize, p: Seq<usize>) -> bool {
        &&& p.len() >= 1
        &&& p[0] == s
        &&& p.last() == e
        &&& forall|i: int| 0 <= i < p.len() - 1 ==> self.adjacent(#[trigger] p[i], p[i + 1])
    }

    /// `p` is a walk from `s` to `e` of the weight `w`, and no walk from
    /// `s` to `e` weighs less.
    pub open spec fn is_shortest_at(&self, s: usize, e: usize, p: Seq<usize>, w: int) -> bool {
        &&& exists|es: Seq<int>| #[trigger] self.route(s, e, p, es) && self.walk_weight(es) == w
        &&& self.no_route_below(s, e, w)
    }

    /// `p` is a shortest path from `s` to `e`, and its weight is below the
    /// sentinel `usize::MAX`.
    pub open spec fn is_shortest(&self, s: usize, e: usize, p: Seq<usize>) -> bool {
        exists|w: int| w < usize::MAX && #[trigger] self.is_shortest_at(s, e, p, w)
    }
}

/// The weight of two runs of edges, one after the other, is the sum of
/// their weights.
pub proof fn lemma_weight_of_joined(g: &Graph, a: Seq<int>, b: Seq<int>)
    ensures
        g.walk_weight(a + b) == g.walk_weight(a) + g.walk_weight(b),
    decreases b.len(),
{
    if b.len() == 0 {
        assert(a + b =~= a);
    } else {
        lemma_weight_of_joined(g, a, b.drop_last());
        assert((a + b).drop_last() =~= a + b.drop_last());
        assert((a + b).last() == b.last());
    }
}

/// The weight of a run of edges does not depend on the direction in which
/// it is read.
pub proof fn lemma_weight_of_reversed(g: &Graph, es: Seq<int>)
    ensures
        g.walk_weight(es.reverse()) == g.walk_weight(es),
    decreases es.len(),
{
    if es.len() > 0 {
        let first = seq![es.last()];
        let rest = es.drop_last();
        lemma_weight_of_reversed(g, rest);
        lemma_weight_of_joined(g, first, rest.reverse());
        assert(es.reverse() =~= first + rest.reverse());
        assert(first.drop_last() =~= Seq::<int>::empty());
        assert(g.walk_weight(first) == g.walk_weight(first.drop_last()) + g.edges@[first.last()].weight);
        assert(g.walk_weight(Seq::<int>::empty()) == 0);
    } else {
        assert(es.reverse() =~= es);
    }
}

/// The graph is undirected: a walk from `s` to `e`, read backwards, is a
/// walk from `e` to `s` of the same weight.
pub proof fn lemma_route_reversed(g: &Graph, s: usize, e: usize, p: Seq<usize>, es: Seq<int>)
    requires
        g.route(s, e, p, es),
    ensures
        g.route(e, s, p.reverse(), es.reverse()),
        g.walk_weight(es.reverse()) == g.walk_weight(es),
{
    let q = p.reverse();
    let fs = es.reverse();
    let m = es.len() as int;
    lemma_weight_of_reversed(g, es);
    assert forall|i: int| 0 <= i < q.len() implies g.has_node(#[trigger] q[i]) by {
        assert(q[i] == p[p.len() - 1 - i]);
    }
    assert forall|i: int| 0 <= i < fs.len() implies g.joins(#[trigger] fs[i], q[i], q[i + 1]) by {
        let k = m - 1 - i;
        assert(fs[i] == es[k]);
        assert(q[i] == p[k + 1]);
        assert(q[i + 1] == p[k]);
        assert(g.joins(es[k], p[k], p[k + 1]));
    }
}

/// A shortest path from `s` to `e`, read backwards, is a shortest path from
/// `e` to `s`, of the same weight.
pub proof fn lemma_shortest_reversed(g: &Graph, s: usize, e: usize, p: Seq<usize>, w: int)
    requires
        g.is_shortest_at(s, e, p, w),
    ensures
        g.is_shortest_at(e, s, p.reverse(), w),
{
    let es = choose|es: Seq<int>| #[trigger] g.route(s, e, p, es) && g.walk_weight(es) == w;
    lemma_route_reversed(g, s, e, p, es);
    assert(g.route(e, s, p.reverse(), es.reverse()) && g.walk_weight(es.reverse()) == w);
    assert forall|q: Seq<usize>, fs: Seq<int>| #[trigger] g.route(e, s, q, fs) implies w
        <= g.walk_weight(fs) by {
        lemma_route_reversed(g, e, s, q, fs);
        assert(g.route(s, e, q.reverse(), fs.reverse()));
    }
}

} // verus!
