//! Dijkstra's algorithm.
//!
//! The engine keeps a table of tentative distances and a table of
//! predecessors, both keyed by node id, and a list of the nodes not yet
//! settled. Each round settles the unvisited node of least tentative distance
//! and relaxes the edges that touch it.

use std::collections::HashMap;
use vstd::prelude::*;
use crate::graph::Graph;
use crate::algorithms::shortest_path::ShortestPathAlgorithm;

verus! {

broadcast use vstd::std_specs::hash::group_hash_axioms;

/// Dijkstra's algorithm, with a linear scan for the closest unvisited node.
pub struct Dijkstra {}

/// For each node reached so far, the walk that its tentative distance stands
/// for: the nodes, and the edges taken between them.
type Walks = Map<usize, (Seq<usize>, Seq<int>)>;

/// `v` is among the first `n` items of `s`.
spec fn occurs_before(s: Seq<usize>, v: usize, n: int) -> bool {
    exists|k: int| 0 <= k < n && #[trigger] s[k] == v
}

/// The edge `j` cannot improve the distance of its other end from `u`.
spec fn edge_relaxed(g: &Graph, d: Map<usize, usize>, u: usize, j: int) -> bool {
    let e = g.edges@[j];
    &&& (e.node1 == u && d.contains_key(e.node2)) ==> d[e.node2] <= d[u] + e.weight
    &&& (e.node2 == u && d.contains_key(e.node1)) ==> d[e.node1] <= d[u] + e.weight
}

/// What holds of the distance table `d` and the settled set `s`.
///
/// `b` parts the settled from the unsettled nodes: no settled node is
/// further than `b`, no unsettled one is closer. Every edge at a settled
/// node is relaxed, but for the edges from `k` on at the node `cur`.
spec fn dist_inv(
    g: &Graph,
    start: usize,
    d: Map<usize, usize>,
    s: Set<usize>,
    cur: usize,
    k: int,
    b: int,
) -> bool {
    &&& forall|v: usize|
        #![trigger d.contains_key(v)]
        #![trigger g.has_node(v)]
        d.contains_key(v) <==> g.has_node(v)
    &&& d.contains_key(start) && d[start] == 0
    &&& forall|u: usize| #[trigger]
        s.contains(u) ==> d.contains_key(u) && d[u] <= b && d[u] < usize::MAX
    &&& forall|v: usize|
        #![trigger d.contains_key(v)]
        #![trigger s.contains(v)]
        d.contains_key(v) && !s.contains(v) ==> b <= d[v]
    &&& forall|u: usize, j: int|
        s.contains(u) && 0 <= j < g.edges@.len() && (u != cur || j < k) ==> #[trigger] edge_relaxed(
            g,
            d,
            u,
            j,
        )
}

/// What holds of the predecessor table `prev`.
///
/// Every node with a finite distance has a walk from `start` of exactly
/// that weight; a predecessor is settled, and the walk of a node is the walk
/// of its predecessor with the node added; only `start` is reached without
/// a predecessor.
spec fn tree_inv(
    g: &Graph,
    start: usize,
    d: Map<usize, usize>,
    prev: Map<usize, usize>,
    s: Set<usize>,
    w: Walks,
) -> bool {
    &&& !prev.contains_key(start)
    &&& w[start].0 == seq![start]
    &&& forall|v: usize| #[trigger]
        d.contains_key(v) && d[v] < usize::MAX ==> g.route(start, v, w[v].0, w[v].1)
            && g.walk_weight(w[v].1) == d[v]
    &&& forall|v: usize| #[trigger]
        prev.contains_key(v) ==> d.contains_key(v) && d[v] < usize::MAX && s.contains(prev[v])
            && w[v].0 == w[prev[v]].0.push(v)
    &&& forall|v: usize|
        #![trigger d.contains_key(v)]
        #![trigger prev.contains_key(v)]
        d.contains_key(v) && d[v] < usize::MAX && !prev.contains_key(v) ==> v == start
}

/// A walk goes on by one edge, and its weight grows by that edge's weight.
proof fn lemma_walk_push(g: &Graph, p: Seq<usize>, es: Seq<int>, j: int, v: usize)
    requires
        g.is_walk(p, es),
        g.joins(j, p.last(), v),
        g.has_node(v),
    ensures
        g.is_walk(p.push(v), es.push(j)),
        g.walk_weight(es.push(j)) == g.walk_weight(es) + g.edges@[j].weight,
{
    let grown = p.push(v);
    let taken = es.push(j);
    assert(taken.drop_last() =~= es);
    assert forall|i: int| 0 <= i < grown.len() implies g.has_node(#[trigger] grown[i]) by {
        if i < p.len() {
            assert(grown[i] == p[i]);
        }
    }
    assert forall|i: int| 0 <= i < taken.len() implies g.joins(
        #[trigger] taken[i],
        grown[i],
        grown[i + 1],
    ) by {
        if i < es.len() {
            assert(taken[i] == es[i]);
            assert(grown[i] == p[i]);
            assert(grown[i + 1] == p[i + 1]);
        }
    }
}

/// A walk without its last edge is a walk, lighter by that edge's weight.
proof fn lemma_walk_drop(g: &Graph, p: Seq<usize>, es: Seq<int>)
    requires
        g.is_walk(p, es),
        es.len() > 0,
    ensures
        g.is_walk(p.drop_last(), es.drop_last()),
        g.walk_weight(es) == g.walk_weight(es.drop_last()) + g.edges@[es.last()].weight,
        g.joins(es.last(), p[p.len() - 2], p.last()),
{
    let head = p.drop_last();
    let head_edges = es.drop_last();
    assert forall|i: int| 0 <= i < head.len() implies g.has_node(#[trigger] head[i]) by {
        assert(head[i] == p[i]);
    }
    assert forall|i: int| 0 <= i < head_edges.len() implies g.joins(
        #[trigger] head_edges[i],
        head[i],
        head[i + 1],
    ) by {
        assert(head_edges[i] == es[i]);
        assert(head[i] == p[i]);
        assert(head[i + 1] == p[i + 1]);
    }
    assert(g.joins(es[es.len() - 1], p[es.len() - 1], p[es.len() - 1 + 1]));
}

/// No walk from `start` undercuts the table: one that ends at a settled
/// node weighs at least that node's distance, and one that ends elsewhere
/// weighs at least `b`.
proof fn lemma_lower_bound(
    g: &Graph,
    start: usize,
    d: Map<usize, usize>,
    s: Set<usize>,
    cur: usize,
    b: int,
    p: Seq<usize>,
    es: Seq<int>,
)
    requires
        dist_inv(g, start, d, s, cur, g.edges@.len() as int, b),
        g.is_walk(p, es),
        p[0] == start,
    ensures
        s.contains(p.last()) ==> d[p.last()] <= g.walk_weight(es),
        !s.contains(p.last()) ==> b <= g.walk_weight(es),
    decreases es.len(),
{
    if es.len() == 0 {
        assert(p.last() == start);
    } else {
        lemma_walk_drop(g, p, es);
        let head = p.drop_last();
        let head_edges = es.drop_last();
        assert(head[0] == p[0]);
        lemma_lower_bound(g, start, d, s, cur, b, head, head_edges);
        let u = head.last();
        let v = p.last();
        let j = es.last();
        assert(u == p[p.len() - 2]);
        assert(g.has_node(p[p.len() - 1]));
        assert(d.contains_key(v));
        if s.contains(u) {
            assert(edge_relaxed(g, d, u, j));
        }
    }
}

/// The entry of `v` in `table`, if it has one.
fn entry(table: &HashMap<usize, usize>, v: usize) -> (r: Option<usize>)
    ensures
        r == (if table@.contains_key(v) {
            Some(table@[v])
        } else {
            None
        }),
{
    match table.get(&v) {
        Some(x) => Some(*x),
        None => None,
    }
}

/// The tentative distance of `v`, which is the sentinel where the table
/// does not know `v`.
fn distance_of(dist: &HashMap<usize, usize>, v: usize) -> (r: usize)
    ensures
        r == (if dist@.contains_key(v) {
            dist@[v]
        } else {
            usize::MAX
        }),
{
    match dist.get(&v) {
        Some(x) => *x,
        None => usize::MAX,
    }
}

/// The tables before the first round: every node of the graph is unvisited
/// and at the sentinel distance.
fn init_tables(graph: &Graph) -> (r: (HashMap<usize, usize>, Vec<usize>))
    ensures
        forall|v: usize|
            #![trigger r.0@.contains_key(v)]
            #![trigger graph.has_node(v)]
            r.0@.contains_key(v) <==> graph.has_node(v),
        forall|v: usize| #[trigger] r.0@.contains_key(v) ==> r.0@[v] == usize::MAX,
        forall|v: usize|
            #![trigger r.0@.contains_key(v)]
            r.0@.contains_key(v) <==> occurs_before(r.1@, v, r.1@.len() as int),
{
    let mut dist: HashMap<usize, usize> = HashMap::new();
    let mut unvisited: Vec<usize> = Vec::new();
    let mut i: usize = 0;
    while i < graph.nodes.len()
        invariant
            i <= graph.nodes@.len(),
            unvisited@.len() == i,
            forall|k: int| 0 <= k < i ==> #[trigger] unvisited@[k] == graph.nodes@[k].id,
            forall|v: usize| #[trigger]
                dist@.contains_key(v) <==> occurs_before(unvisited@, v, i as int),
            forall|v: usize| #[trigger] dist@.contains_key(v) ==> dist@[v] == usize::MAX,
        decreases graph.nodes@.len() - i,
    {
        let id: usize = graph.nodes[i].id;
        let ghost before = unvisited@;
        dist.insert(id, usize::MAX);
        unvisited.push(id);
        proof {
            assert forall|v: usize| #[trigger]
                dist@.contains_key(v) <==> occurs_before(unvisited@, v, i + 1) by {
                if occurs_before(unvisited@, v, i + 1) {
                    let k = choose|k: int| 0 <= k < i + 1 && #[trigger] unvisited@[k] == v;
                    if k < i {
                        assert(before[k] == v);
                        assert(occurs_before(before, v, i as int));
                    }
                }
                if occurs_before(before, v, i as int) {
                    let k = choose|k: int| 0 <= k < i && #[trigger] before[k] == v;
                    assert(unvisited@[k] == v);
                }
                if v == id {
                    assert(unvisited@[i as int] == v);
                }
            }
        }
        i += 1;
    }
    proof {
        assert forall|v: usize|
            #![trigger dist@.contains_key(v)]
            #![trigger graph.has_node(v)]
            dist@.contains_key(v) <==> graph.has_node(v) by {
            if graph.has_node(v) {
                let k = choose|k: int|
                    0 <= k < graph.nodes@.len() && (#[trigger] graph.nodes@[k]).id == v;
                assert(unvisited@[k] == v);
                assert(occurs_before(unvisited@, v, i as int));
            }
            if occurs_before(unvisited@, v, i as int) {
                let k = choose|k: int| 0 <= k < i && #[trigger] unvisited@[k] == v;
                assert(graph.nodes@[k].id == v);
            }
        }
    }
    (dist, unvisited)
}

/// The index of an unvisited node of least tentative distance: the first
/// such, though callers may rely only on its being one.
fn closest(unvisited: &Vec<usize>, dist: &HashMap<usize, usize>) -> (r: usize)
    requires
        unvisited@.len() > 0,
        forall|i: int| 0 <= i < unvisited@.len() ==> dist@.contains_key(#[trigger] unvisited@[i]),
    ensures
        r < unvisited@.len(),
        forall|i: int|
            0 <= i < unvisited@.len() ==> dist@[unvisited@[r as int]] <= dist@[#[trigger] unvisited@[i]],
{
    let mut best: usize = 0;
    let mut best_dist: usize = distance_of(dist, unvisited[0]);
    let mut i: usize = 1;
    while i < unvisited.len()
        invariant
            1 <= i <= unvisited@.len(),
            best < i,
            best_dist == dist@[unvisited@[best as int]],
            forall|k: int| 0 <= k < unvisited@.len() ==> dist@.contains_key(#[trigger] unvisited@[k]),
            forall|k: int| 0 <= k < i ==> best_dist <= dist@[#[trigger] unvisited@[k]],
        decreases unvisited@.len() - i,
    {
        let here: usize = distance_of(dist, unvisited[i]);
        if here < best_dist {
            best = i;
            best_dist = here;
        }
        i += 1;
    }
    best
}

/// The list without every occurrence of `x`.
fn remove_all(unvisited: &Vec<usize>, x: usize) -> (r: Vec<usize>)
    ensures
        forall|v: usize|
            occurs_before(r@, v, r@.len() as int) <==> occurs_before(
                unvisited@,
                v,
                unvisited@.len() as int,
            ) && v != x,
        r@.len() <= unvisited@.len(),
        occurs_before(unvisited@, x, unvisited@.len() as int) ==> r@.len() < unvisited@.len(),
{
    let mut out: Vec<usize> = Vec::new();
    let mut i: usize = 0;
    while i < unvisited.len()
        invariant
            i <= unvisited@.len(),
            out@.len() <= i,
            occurs_before(unvisited@, x, i as int) ==> out@.len() < i,
            forall|v: usize|
                #![trigger occurs_before(out@, v, out@.len() as int)]
                #![trigger occurs_before(unvisited@, v, i as int)]
                occurs_before(out@, v, out@.len() as int) <==> occurs_before(
                    unvisited@,
                    v,
                    i as int,
                ) && v != x,
        decreases unvisited@.len() - i,
    {
        let item: usize = unvisited[i];
        let ghost before = out@;
        if item != x {
            out.push(item);
        }
        proof {
            if occurs_before(unvisited@, x, i + 1) {
                let k = choose|k: int| 0 <= k < i + 1 && #[trigger] unvisited@[k] == x;
                if k < i {
                    assert(occurs_before(unvisited@, x, i as int));
                }
            }
            assert forall|v: usize|
                occurs_before(out@, v, out@.len() as int) <==> occurs_before(
                    unvisited@,
                    v,
                    i + 1,
                ) && v != x by {
                if occurs_before(out@, v, out@.len() as int) {
                    let k = choose|k: int| 0 <= k < out@.len() && #[trigger] out@[k] == v;
                    if k < before.len() {
                        assert(before[k] == v);
                        assert(occurs_before(before, v, before.len() as int));
                        let k2 = choose|k2: int| 0 <= k2 < i && #[trigger] unvisited@[k2] == v;
                        assert(unvisited@[k2] == v);
                    } else {
                        assert(unvisited@[i as int] == v);
                    }
                }
                if occurs_before(unvisited@, v, i + 1) && v != x {
                    let k = choose|k: int| 0 <= k < i + 1 && #[trigger] unvisited@[k] == v;
                    if k < i {
                        assert(occurs_before(unvisited@, v, i as int));
                        let k2 = choose|k2: int| 0 <= k2 < before.len() && #[trigger] before[k2] == v;
                        assert(out@[k2] == v);
                    } else {
                        assert(out@[out@.len() - 1] == v);
                    }
                }
            }
        }
        i += 1;
    }
    out
}

/// Relaxes every edge that touches the node `m`, which has just been
/// settled: where the way over `m` is strictly shorter than what the table
/// holds for the edge's other end, the table takes it and `m` becomes that
/// node's predecessor. A sum that does not stay below the sentinel improves
/// nothing.
fn relax(
    graph: &Graph,
    start: usize,
    m: usize,
    dist: &mut HashMap<usize, usize>,
    prev: &mut HashMap<usize, usize>,
    Ghost(s): Ghost<Set<usize>>,
    Ghost(w): Ghost<Walks>,
) -> (nw: Ghost<Walks>)
    requires
        s.contains(m),
        dist_inv(graph, start, old(dist)@, s, m, 0, old(dist)@[m] as int),
        tree_inv(graph, start, old(dist)@, old(prev)@, s, w),
    ensures
        dist_inv(
            graph,
            start,
            final(dist)@,
            s,
            m,
            graph.edges@.len() as int,
            old(dist)@[m] as int,
        ),
        tree_inv(graph, start, final(dist)@, final(prev)@, s, nw@),
{
    let here: usize = distance_of(dist, m);
    let ghost mut walks = w;
    let mut j: usize = 0;
    while j < graph.edges.len()
        invariant
            j <= graph.edges@.len(),
            s.contains(m),
            dist@.contains_key(m),
            dist@[m] == here,
            dist_inv(graph, start, dist@, s, m, j as int, here as int),
            tree_inv(graph, start, dist@, prev@, s, walks),
        decreases graph.edges@.len() - j,
    {
        let edge = &graph.edges[j];
        let neighbor: Option<usize> = if edge.node1 == m {
            Some(edge.node2)
        } else if edge.node2 == m {
            Some(edge.node1)
        } else {
            None
        };
        let ghost dist0 = dist@;
        let ghost prev0 = prev@;
        let ghost walks0 = walks;
        if let Some(nb) = neighbor {
            if let Some(alt) = here.checked_add(edge.weight) {
                if let Some(known) = entry(dist, nb) {
                    if alt < known {
                        dist.insert(nb, alt);
                        prev.insert(nb, m);
                        proof {
                            walks = walks0.insert(nb, (walks0[m].0.push(nb), walks0[m].1.push(j as int)));
                            assert(!s.contains(nb));
                            assert(nb != m && nb != start);
                            assert(graph.joins(j as int, m, nb));
                            lemma_walk_push(graph, walks0[m].0, walks0[m].1, j as int, nb);
                            assert(walks0[m].0.push(nb)[0] == walks0[m].0[0]);
                            assert forall|v: usize| #[trigger] prev@.contains_key(v) implies dist@.contains_key(v)
                                && dist@[v] < usize::MAX && s.contains(prev@[v]) && walks[v].0
                                == walks[prev@[v]].0.push(v) by {
                                if v != nb {
                                    assert(prev0.contains_key(v));
                                }
                            }
                            assert forall|v: usize| #[trigger]
                                dist@.contains_key(v) && dist@[v] < usize::MAX implies graph.route(
                                start,
                                v,
                                walks[v].0,
                                walks[v].1,
                            ) && graph.walk_weight(walks[v].1) == dist@[v] by {
                                if v != nb {
                                    assert(dist0.contains_key(v));
                                }
                            }
                        }
                    }
                }
            }
        }
        proof {
            assert forall|u: usize, k: int|
                s.contains(u) && 0 <= k < graph.edges@.len() && (u != m || k < j + 1) implies #[trigger] edge_relaxed(
                graph,
                dist@,
                u,
                k,
            ) by {
                if u != m || k < j {
                    assert(edge_relaxed(graph, dist0, u, k));
                }
            }
        }
        j += 1;
    }
    Ghost(walks)
}

/// Follows the predecessors from `end` back to the node that has none, and
/// hands the nodes passed out in the order from that node to `end`.
fn build_path(
    graph: &Graph,
    prev: &HashMap<usize, usize>,
    start: usize,
    end: usize,
    Ghost(d): Ghost<Map<usize, usize>>,
    Ghost(s): Ghost<Set<usize>>,
    Ghost(w): Ghost<Walks>,
) -> (path: Vec<usize>)
    requires
        tree_inv(graph, start, d, prev@, s, w),
        forall|u: usize| #[trigger] s.contains(u) ==> d.contains_key(u) && d[u] < usize::MAX,
        d.contains_key(end) && d[end] < usize::MAX,
    ensures
        path@ == w[end].0,
{
    let ghost full = w[end].0;
    let mut back: Vec<usize> = Vec::new();
    let mut current: usize = end;
    let mut next: Option<usize> = entry(prev, current);
    assert(full.take(full.len() as int) =~= full);
    while next.is_some()
        invariant
            tree_inv(graph, start, d, prev@, s, w),
            forall|u: usize| #[trigger] s.contains(u) ==> d.contains_key(u) && d[u] < usize::MAX,
            d.contains_key(current) && d[current] < usize::MAX,
            next == (if prev@.contains_key(current) {
                Some(prev@[current])
            } else {
                None
            }),
            full == w[end].0,
            w[current].0.len() >= 1,
            w[current].0.len() + back@.len() == full.len(),
            w[current].0 == full.take(w[current].0.len() as int),
            forall|i: int| 0 <= i < back@.len() ==> #[trigger] back@[i] == full[full.len() - 1 - i],
        decreases w[current].0.len(),
    {
        let before: usize = current;
        back.push(current);
        current = next.unwrap();
        next = entry(prev, current);
        proof {
            let n = w[before].0.len() as int;
            assert(prev@.contains_key(before));
            assert(w[before].0 == w[current].0.push(before));
            assert(w[before].0[n - 1] == before);
            assert(full.take(n)[n - 1] == full[n - 1]);
            assert(w[current].0 =~= w[before].0.drop_last());
            assert(full.take(n).drop_last() =~= full.take(n - 1));
            assert(s.contains(current));
        }
    }
    back.push(current);
    proof {
        assert(current == start);
        assert(full.take(1)[0] == full[0]);
    }
    let mut path: Vec<usize> = Vec::new();
    let mut i: usize = back.len();
    while i > 0
        invariant
            i <= back@.len(),
            back@.len() == full.len(),
            path@.len() == back@.len() - i,
            forall|k: int| 0 <= k < back@.len() ==> #[trigger] back@[k] == full[full.len() - 1 - k],
            forall|k: int| 0 <= k < path@.len() ==> #[trigger] path@[k] == full[k],
        decreases i,
    {
        i -= 1;
        path.push(back[i]);
    }
    assert(path@ =~= full);
    path
}

impl ShortestPathAlgorithm for Dijkstra {
    /// Settles the unvisited node of least tentative distance, round by
    /// round, until that node is `end`, or is out of reach, or no node is
    /// left; then follows the predecessors back from `end`.
    fn find_shortest_path(&self, graph: &Graph, start: usize, end: usize) -> (r: Option<
        Vec<usize>,
    >) {
        if start == end {
            let mut only: Vec<usize> = Vec::new();
            only.push(start);
            proof {
                assert(only@ =~= seq![start]);
            }
            return Some(only);
        }
        let (mut dist, mut unvisited) = init_tables(graph);
        if !dist.contains_key(&start) {
            proof {
                assert forall|q: Seq<usize>, fs: Seq<int>| #[trigger]
                    graph.route(start, end, q, fs) implies false by {
                    assert(graph.has_node(q[0]));
                }
            }
            return None;
        }
        dist.insert(start, 0);
        let mut prev: HashMap<usize, usize> = HashMap::new();
        // In ghost state: the settled nodes, the walk that stands behind each
        // finite distance, and the bound that parts the settled distances
        // from the others.
        let ghost mut s: Set<usize> = Set::empty();
        let ghost mut w: Walks = Map::empty().insert(start, (seq![start], Seq::<int>::empty()));
        let ghost mut b: int = 0;
        let ghost all: int = graph.edges@.len() as int;
        let mut done: bool = false;
        proof {
            assert(graph.is_walk(seq![start], Seq::<int>::empty()));
            assert(graph.walk_weight(Seq::<int>::empty()) == 0);
        }
        while !done && unvisited.len() > 0
            invariant
                all == graph.edges@.len(),
                dist_inv(graph, start, dist@, s, start, all, b),
                tree_inv(graph, start, dist@, prev@, s, w),
                forall|v: usize|
                    #![trigger dist@.contains_key(v)]
                    #![trigger occurs_before(unvisited@, v, unvisited@.len() as int)]
                    occurs_before(unvisited@, v, unvisited@.len() as int) <==> dist@.contains_key(v)
                        && !s.contains(v),
                done ==> (dist@.contains_key(end) && !s.contains(end) ==> dist@[end] <= b),
            decreases unvisited@.len() + (if done { 0int } else { 1int }),
        {
            proof {
                assert forall|i: int| 0 <= i < unvisited@.len() implies dist@.contains_key(
                    #[trigger] unvisited@[i],
                ) by {
                    assert(occurs_before(unvisited@, unvisited@[i], unvisited@.len() as int));
                }
            }
            let at: usize = closest(&unvisited, &dist);
            let m: usize = unvisited[at];
            let dm: usize = distance_of(&dist, m);
            proof {
                assert(occurs_before(unvisited@, m, unvisited@.len() as int));
                assert forall|v: usize| dist@.contains_key(v) && !s.contains(v) implies dm
                    <= #[trigger] dist@[v] by {
                    assert(occurs_before(unvisited@, v, unvisited@.len() as int));
                    let k = choose|k: int| 0 <= k < unvisited@.len() && #[trigger] unvisited@[k] == v;
                    assert(dist@[unvisited@[at as int]] <= dist@[unvisited@[k]]);
                }
            }
            if m == end || dm == usize::MAX {
                proof {
                    b = dm as int;
                }
                done = true;
            } else {
                let ghost dist0 = dist@;
                unvisited = remove_all(&unvisited, m);
                proof {
                    s = s.insert(m);
                    b = dm as int;
                    assert(dist_inv(graph, start, dist@, s, m, 0, dm as int));
                    assert(tree_inv(graph, start, dist@, prev@, s, w));
                }
                let nw = relax(graph, start, m, &mut dist, &mut prev, Ghost(s), Ghost(w));
                proof {
                    w = nw@;
                    assert forall|v: usize| #[trigger] dist@.contains_key(v) <==> dist0.contains_key(v) by {
                        assert(dist0.contains_key(v) <==> graph.has_node(v));
                    }
                }
            }
        }
        match entry(&prev, end) {
            None => {
                proof {
                    assert forall|q: Seq<usize>, fs: Seq<int>| #[trigger]
                        graph.route(start, end, q, fs) implies usize::MAX <= graph.walk_weight(
                        fs,
                    ) by {
                        assert(graph.has_node(q[q.len() - 1]));
                        lemma_lower_bound(graph, start, dist@, s, start, b, q, fs);
                    }
                }
                None
            },
            Some(_) => {
                let path = build_path(graph, &prev, start, end, Ghost(dist@), Ghost(s), Ghost(w));
                proof {
                    let es = w[end].1;
                    let cost = dist@[end] as int;
                    assert(graph.route(start, end, path@, es));
                    assert forall|q: Seq<usize>, fs: Seq<int>| #[trigger]
                        graph.route(start, end, q, fs) implies cost <= graph.walk_weight(fs) by {
                        lemma_lower_bound(graph, start, dist@, s, start, b, q, fs);
                    }
                    assert(graph.is_shortest_at(start, end, path@, cost));
                    assert forall|i: int| 0 <= i < path@.len() - 1 implies graph.adjacent(
                        #[trigger] path@[i],
                        path@[i + 1],
                    ) by {
                        assert(graph.joins(es[i], path@[i], path@[i + 1]));
                    }
                }
                Some(path)
            },
        }
    }
}

} // verus!
