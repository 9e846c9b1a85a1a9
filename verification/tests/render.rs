use shortest_route::graph::edge::Edge;
use shortest_route::graph::node::Node;
use shortest_route::graph::Graph;

#[test]
fn graph_is_shown_line_by_line() {
    let g = Graph {
        nodes: vec![Node { id: 1 }, Node { id: 20 }, Node { id: 0 }],
        edges: vec![
            Edge { node1: 1, node2: 20, weight: 305 },
            Edge { node1: 0, node2: 1, weight: 0 },
        ],
    };
    assert_eq!(
        g.render(),
        "Node: 1\nNode: 20\nNode: 0\nEdge: 1 - 20, weight: 305\nEdge: 0 - 1, weight: 0\n"
    );
}

#[test]
fn empty_graph_is_shown_as_nothing() {
    let g = Graph { nodes: vec![], edges: vec![] };
    assert_eq!(g.render(), "");
}

#[test]
fn numbers_are_shown_in_decimal() {
    for id in [0usize, 7, 9, 10, 11, 99, 100, 101, 1234567890, usize::MAX - 1, usize::MAX] {
        let g = Graph { nodes: vec![Node { id }], edges: vec![] };
        assert_eq!(g.render(), format!("Node: {}\n", id));
        let h = Graph { nodes: vec![], edges: vec![Edge { node1: id, node2: id, weight: id }] };
        assert_eq!(h.render(), format!("Edge: {} - {}, weight: {}\n", id, id, id));
    }
}
