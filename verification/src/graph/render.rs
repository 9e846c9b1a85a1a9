//! The graph as text: one line for each node, then one line for each edge.

use vstd::prelude::*;
use vstd::string::*;
use crate::graph::Graph;
use crate::graph::node::Node;
use crate::graph::edge::Edge;

verus! {

/// The character that writes the digit `d`.
pub open spec fn digit_char(d: nat) -> char {
    if d == 0 {
        '0'
    } else if d == 1 {
        '1'
    } else if d == 2 {
        '2'
    } else if d == 3 {
        '3'
    } else if d == 4 {
        '4'
    } else if d == 5 {
        '5'
    } else if d == 6 {
        '6'
    } else if d == 7 {
        '7'
    } else if d == 8 {
        '8'
    } else {
        '9'
    }
}

/// `n` in decimal digits, without leading zeros.
pub open spec fn decimal(n: nat) -> Seq<char>
    decreases n,
{
    if n < 10 {
        seq![digit_char(n)]
    } else {
        decimal(n / 10).push(digit_char(n % 10))
    }
}

/// The line that shows a node.
pub open spec fn node_line(n: Node) -> Seq<char> {
    "Node: "@ + decimal(n.id as nat) + "\n"@
}

/// The line that shows an edge.
pub open spec fn edge_line(e: Edge) -> Seq<char> {
    "Edge: "@ + decimal(e.node1 as nat) + " - "@ + decimal(e.node2 as nat) + ", weight: "@
        + decimal(e.weight as nat) + "\n"@
}

/// The lines of the nodes, in their order.
pub open spec fn node_lines(nodes: Seq<Node>) -> Seq<char>
    decreases nodes.len(),
{
    if nodes.len() == 0 {
        Seq::empty()
    } else {
        node_lines(nodes.drop_last()) + node_line(nodes.last())
    }
}

/// The lines of the edges, in their order.
pub open spec fn edge_lines(edges: Seq<Edge>) -> Seq<char>
    decreases edges.len(),
{
    if edges.len() == 0 {
        Seq::empty()
    } else {
        edge_lines(edges.drop_last()) + edge_line(edges.last())
    }
}

/// The text that writes one digit.
fn digit_text(d: usize) -> (r: &'static str)
    requires
        d < 10,
    ensures
        r@ == seq![digit_char(d as nat)],
{
    proof {
        reveal_strlit("0");
        reveal_strlit("1");
        reveal_strlit("2");
        reveal_strlit("3");
        reveal_strlit("4");
        reveal_strlit("5");
        reveal_strlit("6");
        reveal_strlit("7");
        reveal_strlit("8");
        reveal_strlit("9");
    }
    let r = if d == 0 {
        "0"
    } else if d == 1 {
        "1"
    } else if d == 2 {
        "2"
    } else if d == 3 {
        "3"
    } else if d == 4 {
        "4"
    } else if d == 5 {
        "5"
    } else if d == 6 {
        "6"
    } else if d == 7 {
        "7"
    } else if d == 8 {
        "8"
    } else {
        "9"
    };
    assert(r@ =~= seq![digit_char(d as nat)]);
    r
}

/// Adds `n`, in decimal, to the end of `out`.
fn write_decimal(out: &mut String, n: usize)
    ensures
        final(out)@ == old(out)@ + decimal(n as nat),
    decreases n,
{
    if n >= 10 {
        write_decimal(out, n / 10);
    }
    out.append(digit_text(n % 10));
    proof {
        if n >= 10 {
            assert(old(out)@ + decimal((n / 10) as nat) + seq![digit_char((n % 10) as nat)] =~= old(
                out,
            )@ + decimal(n as nat));
        }
    }
}

impl Graph {
    /// The text of the graph: a line `Node: id` for each node, then a
    /// line `Edge: node1 - node2, weight: weight` for each edge.
    pub open spec fn rendered(&self) -> Seq<char> {
        node_lines(self.nodes@) + edge_lines(self.edges@)
    }

    /// Writes the graph as text, each line ended by a line feed.
    pub fn render(&self) -> (r: String)
        ensures
            r@ == self.rendered(),
    {
        let mut out: String = String::new();
        let mut i: usize = 0;
        while i < self.nodes.len()
            invariant
                i <= self.nodes@.len(),
                out@ == node_lines(self.nodes@.take(i as int)),
            decreases self.nodes@.len() - i,
        {
            let ghost before = out@;
            out.append("Node: ");
            write_decimal(&mut out, self.nodes[i].id);
            out.append("\n");
            proof {
                let now = self.nodes@.take(i + 1);
                assert(now.drop_last() =~= self.nodes@.take(i as int));
                assert(now.last() == self.nodes@[i as int]);
                assert(out@ =~= before + node_line(self.nodes@[i as int]));
            }
            i += 1;
        }
        proof {
            assert(self.nodes@.take(i as int) =~= self.nodes@);
        }
        let ghost head = out@;
        let mut j: usize = 0;
        while j < self.edges.len()
            invariant
                j <= self.edges@.len(),
                head == node_lines(self.nodes@),
                out@ == head + edge_lines(self.edges@.take(j as int)),
            decreases self.edges@.len() - j,
        {
            let ghost before = out@;
            let edge = &self.edges[j];
            out.append("Edge: ");
            write_decimal(&mut out, edge.node1);
            out.append(" - ");
            write_decimal(&mut out, edge.node2);
            out.append(", weight: ");
            write_decimal(&mut out, edge.weight);
            out.append("\n");
            proof {
                let now = self.edges@.take(j + 1);
                assert(now.drop_last() =~= self.edges@.take(j as int));
                assert(now.last() == self.edges@[j as int]);
                assert(out@ =~= before + edge_line(self.edges@[j as int]));
                assert(out@ =~= head + (edge_lines(self.edges@.take(j as int)) + edge_line(
                    self.edges@[j as int],
                )));
            }
            j += 1;
        }
        proof {
            assert(self.edges@.take(j as int) =~= self.edges@);
        }
        out
    }
}

} // verus!
