//! The interface of a shortest-path algorithm, and what follows from it.

use vstd::prelude::*;
use crate::graph::Graph;

verus! {

/// A shortest-path algorithm: it answers one query on one graph.
///
/// Distances are `usize` values and `usize::MAX` is the sentinel for "not
/// reached": a node that can only be reached at a weight of `usize::MAX` or
/// more counts as unreachable.
pub trait ShortestPathAlgorithm {
    /// A shortest path from `start` to `end`, or `None` where `end` cannot be
    /// reached from `start`.
    ///
    /// A query from a node to itself is answered by the path of that one
    /// node, whether the graph has such a node or not. For any other query
    /// the answer is a walk of least weight among all walks from `start` to
    /// `end`, and `None` exactly if no walk weighs less than the sentinel.
    fn find_shortest_path(&self, graph: &Graph, start: usize, end: usize) -> (r: Option<
        Vec<usize>,
    >)
        ensures
            start == end ==> r.is_some() && r.unwrap()@ == seq![start],
            start != end ==> match r {
                Some(p) => graph.is_shortest(start, end, p@),
                None => graph.no_route_below(start, end, usize::MAX as int),
            },
            r.is_some() <==> start == end || graph.within_reach(start, end),
            r.is_some() ==> graph.is_valid_path(start, end, r.unwrap()@),
            !graph.connected(start, end) && start != end ==> r.is_none(),
    ;
}

/// A shortest path is a valid path: it leads from `s` to `e`, and an edge of
/// the graph joins each node of it to the next.
pub proof fn lemma_shortest_is_valid(g: &Graph, s: usize, e: usize, p: Seq<usize>)
    requires
        g.is_shortest(s, e, p),
    ensures
        g.is_valid_path(s, e, p),
{
    let w = choose|w: int| w < usize::MAX && #[trigger] g.is_shortest_at(s, e, p, w);
    let es = choose|es: Seq<int>| #[trigger] g.route(s, e, p, es) && g.walk_weight(es) == w;
    assert forall|i: int| 0 <= i < p.len() - 1 implies g.adjacent(#[trigger] p[i], p[i + 1]) by {
        assert(g.joins(es[i], p[i], p[i + 1]));
    }
}

/// Two shortest paths between the same two nodes weigh the same, whichever
/// nodes they pass: the answers to one query may differ in their route, never
/// in their total distance.
pub proof fn lemma_shortest_weight_unique(
    g: &Graph,
    s: usize,
    e: usize,
    pa: Seq<usize>,
    wa: int,
    pb: Seq<usize>,
    wb: int,
)
    requires
        g.is_shortest_at(s, e, pa, wa),
        g.is_shortest_at(s, e, pb, wb),
    ensures
        wa == wb,
{
    let ea = choose|es: Seq<int>| #[trigger] g.route(s, e, pa, es) && g.walk_weight(es) == wa;
    let eb = choose|es: Seq<int>| #[trigger] g.route(s, e, pb, es) && g.walk_weight(es) == wb;
    assert(g.route(s, e, pa, ea));
    assert(g.route(s, e, pb, eb));
}

/// Where no walk joins two different nodes, no path between them is a
/// shortest one: a query across two components has no answer.
pub proof fn lemma_unconnected_has_no_shortest(g: &Graph, s: usize, e: usize, p: Seq<usize>)
    requires
        !g.connected(s, e),
    ensures
        !g.is_shortest(s, e, p),
        !g.within_reach(s, e),
{
    if g.is_shortest(s, e, p) {
        let w = choose|w: int| w < usize::MAX && #[trigger] g.is_shortest_at(s, e, p, w);
        let es = choose|es: Seq<int>| #[trigger] g.route(s, e, p, es) && g.walk_weight(es) == w;
        assert(g.route(s, e, p, es));
    }
}

/// The path of one node is the shortest path from a node of the graph to
/// itself, at the weight zero.
pub proof fn lemma_single_node_is_shortest(g: &Graph, s: usize)
    requires
        g.has_node(s),
    ensures
        g.is_shortest_at(s, s, seq![s], 0),
        g.is_shortest(s, s, seq![s]),
{
    let es = Seq::<int>::empty();
    assert(g.route(s, s, seq![s], es));
    assert(g.walk_weight(es) == 0);
    assert forall|q: Seq<usize>, fs: Seq<int>| #[trigger] g.route(s, s, q, fs) implies 0
        <= g.walk_weight(fs) by {
        lemma_weight_not_negative(g, fs);
    }
}

/// No walk has a negative weight.
pub proof fn lemma_weight_not_negative(g: &Graph, es: Seq<int>)
    ensures
        0 <= g.walk_weight(es),
    decreases es.len(),
{
    if es.len() > 0 {
        lemma_weight_not_negative(g, es.drop_last());
    }
}

} // verus!
