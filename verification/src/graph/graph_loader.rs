//! Reading a graph from its textual description.
//!
//! The description is a text of lines. A line that starts with `#` is a
//! section header and must be one of `# Nodes`, `# Edges` and
//! `# ShortestPath`. Under `# Nodes` each line is a node id; under `# Edges`
//! each line holds the fields `node1 node2 weight`; under `# ShortestPath`
//! a line holds the node ids of the expected path, and the last such line
//! counts. Lines before the first header are passed over. Each of the three
//! headers must occur, in any order and as often as it likes.
//!
//! A line ends at a line feed; a carriage return just before that line feed
//! is not part of the line. Fields are parted by white space, the text being
//! taken as UTF-8. A number is a run of decimal digits that fits `usize`, with
//! at most one `+` in front.

use vstd::prelude::*;
use crate::graph::Graph;
use crate::graph::node::Node;
use crate::graph::edge::Edge;

verus! {

/// What can be wrong with the data that describes a graph or a query.
#[derive(Debug, PartialEq, Eq, Structural, Clone, Copy)]
pub enum GraphError {
    /// A line starts with `#` and is none of the three section headers.
    InvalidSection,
    /// A node id is not an unsigned integer.
    InvalidNodeId,
    /// A line of the edge section does not have three fields.
    InvalidEdgeData,
    /// The weight of an edge is not an unsigned integer.
    InvalidWeight,
    /// One of the three section headers does not occur.
    MissingSection,
    /// The path that names the query's endpoints is empty.
    NoStartNode,
}

/// The two endpoints of a query, taken from a path: its first and its last
/// node. An empty path has neither.
pub fn retrieve_start_end_nodes(expected_shortest_path: Vec<usize>) -> (r: Result<
    (usize, usize),
    GraphError,
>)
    ensures
        expected_shortest_path@.len() == 0 ==> r == Err::<(usize, usize), GraphError>(
            GraphError::NoStartNode,
        ),
        expected_shortest_path@.len() > 0 ==> r == Ok::<(usize, usize), GraphError>(
            (expected_shortest_path@[0], expected_shortest_path@.last()),
        ),
{
    let n: usize = expected_shortest_path.len();
    if n == 0 {
        return Err(GraphError::NoStartNode);
    }
    Ok((expected_shortest_path[0], expected_shortest_path[n - 1]))
}

/// The section that the lines being read belong to.
#[derive(Debug, Clone, Copy)]
pub enum Section {
    Nodes,
    Edges,
    ShortestPath,
}

/// What has been read of a description so far.
pub struct Description {
    pub section: Option<Section>,
    pub seen_nodes: bool,
    pub seen_edges: bool,
    pub seen_path: bool,
    pub nodes: Seq<Node>,
    pub edges: Seq<Edge>,
    pub path: Seq<usize>,
}

/// The bytes of `# Nodes`.
pub open spec fn nodes_header() -> Seq<u8> {
    seq![35u8, 32u8, 78u8, 111u8, 100u8, 101u8, 115u8]
}

/// The bytes of `# Edges`.
pub open spec fn edges_header() -> Seq<u8> {
    seq![35u8, 32u8, 69u8, 100u8, 103u8, 101u8, 115u8]
}

/// The bytes of `# ShortestPath`.
pub open spec fn path_header() -> Seq<u8> {
    seq![
        35u8,
        32u8,
        83u8,
        104u8,
        111u8,
        114u8,
        116u8,
        101u8,
        115u8,
        116u8,
        80u8,
        97u8,
        116u8,
        104u8,
    ]
}

/// The three bytes write, in UTF-8, a white space character beyond U+07FF:
/// U+1680, U+2000 to U+200A, U+2028, U+2029, U+202F, U+205F or U+3000.
pub open spec fn is_wide_space(a: u8, b: u8, c: u8) -> bool {
    ||| a == 225 && b == 154 && c == 128
    ||| a == 226 && b == 128 && ((128 <= c && c <= 138) || c == 168 || c == 169 || c == 175)
    ||| a == 226 && b == 129 && c == 159
    ||| a == 227 && b == 128 && c == 128
}

/// The number of bytes of the white space character that starts at `i`, and
/// 0 where none starts there. White space is what Unicode calls so: the
/// blank and U+0009 to U+000D in one byte, U+0085 and U+00A0 in two, and the
/// wide ones in three.
pub open spec fn space_len(s: Seq<u8>, i: int) -> int {
    if !(0 <= i < s.len()) {
        0
    } else if s[i] == 32 || (9 <= s[i] && s[i] <= 13) {
        1
    } else if i + 1 < s.len() && s[i] == 194 && (s[i + 1] == 133 || s[i + 1] == 160) {
        2
    } else if i + 2 < s.len() && is_wide_space(s[i], s[i + 1], s[i + 2]) {
        3
    } else {
        0
    }
}

/// Every byte of `s` is a decimal digit.
pub open spec fn all_digits(s: Seq<u8>) -> bool {
    forall|i: int| 0 <= i < s.len() ==> 48 <= #[trigger] s[i] <= 57
}

/// The number that the decimal digits `s` write.
pub open spec fn digits_value(s: Seq<u8>) -> int
    decreases s.len(),
{
    if s.len() == 0 {
        0
    } else {
        digits_value(s.drop_last()) * 10 + (s.last() - 48)
    }
}

/// The number that `s` writes, if it writes one that fits.
pub open spec fn number_of(s: Seq<u8>) -> Option<usize> {
    let ds = if s.len() > 0 && s[0] == 43 {
        s.subrange(1, s.len() as int)
    } else {
        s
    };
    digits_number(ds)
}

/// The number that the decimal digits `ds` write, if there are any and
/// the number fits.
pub open spec fn digits_number(ds: Seq<u8>) -> Option<usize> {
    if ds.len() > 0 && all_digits(ds) && digits_value(ds) <= usize::MAX {
        Some(digits_value(ds) as usize)
    } else {
        None
    }
}

/// The first place from `i` on where no white space starts.
pub open spec fn skip_spaces(s: Seq<u8>, i: int) -> int
    decreases s.len() - i,
{
    if space_len(s, i) > 0 {
        skip_spaces(s, i + space_len(s, i))
    } else {
        i
    }
}

/// The first place from `i` on where white space starts, or the end.
pub open spec fn skip_field(s: Seq<u8>, i: int) -> int
    decreases s.len() - i,
{
    if 0 <= i < s.len() && space_len(s, i) == 0 {
        skip_field(s, i + 1)
    } else {
        i
    }
}

/// The fields of `s` from `i` on, each read as a number.
pub open spec fn numbers_from(s: Seq<u8>, i: int) -> Seq<Option<usize>>
    decreases s.len() - i,
{
    let a = skip_spaces(s, i);
    let b = skip_field(s, a);
    if 0 <= i <= a && a < b && b <= s.len() {
        seq![number_of(s.subrange(a, b))] + numbers_from(s, b)
    } else {
        Seq::empty()
    }
}

/// What one line adds to what has been read: a header opens its section, and
/// any other line is read as its section asks.
pub open spec fn read_line(st: Description, line: Seq<u8>) -> Result<Description, GraphError> {
    if line.len() > 0 && line[0] == 35 {
        if line == nodes_header() {
            Ok(Description { section: Some(Section::Nodes), seen_nodes: true, ..st })
        } else if line == edges_header() {
            Ok(Description { section: Some(Section::Edges), seen_edges: true, ..st })
        } else if line == path_header() {
            Ok(Description { section: Some(Section::ShortestPath), seen_path: true, ..st })
        } else {
            Err(GraphError::InvalidSection)
        }
    } else {
        match st.section {
            None => Ok(st),
            Some(Section::Nodes) => match number_of(line) {
                Some(id) => Ok(Description { nodes: st.nodes.push(Node { id }), ..st }),
                None => Err(GraphError::InvalidNodeId),
            },
            Some(Section::Edges) => {
                let f = numbers_from(line, 0);
                if f.len() != 3 {
                    Err(GraphError::InvalidEdgeData)
                } else if f[0].is_none() || f[1].is_none() {
                    Err(GraphError::InvalidNodeId)
                } else if f[2].is_none() {
                    Err(GraphError::InvalidWeight)
                } else {
                    Ok(
                        Description {
                            edges: st.edges.push(
                                Edge {
                                    node1: f[0].unwrap(),
                                    node2: f[1].unwrap(),
                                    weight: f[2].unwrap(),
                                },
                            ),
                            ..st
                        },
                    )
                }
            },
            Some(Section::ShortestPath) => {
                let f = numbers_from(line, 0);
                if exists|k: int| 0 <= k < f.len() && (#[trigger] f[k]).is_none() {
                    Err(GraphError::InvalidNodeId)
                } else {
                    Ok(Description { path: Seq::new(f.len(), |k: int| f[k].unwrap()), ..st })
                }
            },
        }
    }
}

/// The place of the first line feed from `i` on, or the end of the text.
pub open spec fn line_end(text: Seq<u8>, i: int) -> int
    decreases text.len() - i,
{
    if 0 <= i < text.len() && text[i] != 10 {
        line_end(text, i + 1)
    } else {
        i
    }
}

/// The line that starts at `pos`, without its line feed and without a
/// carriage return before that line feed.
pub open spec fn line_at(text: Seq<u8>, pos: int) -> Seq<u8> {
    let e = line_end(text, pos);
    let raw = text.subrange(pos, e);
    if e < text.len() && raw.len() > 0 && raw.last() == 13 {
        raw.drop_last()
    } else {
        raw
    }
}

/// What the lines of `text` from `pos` on make of `st`: the first line that
/// cannot be read ends the reading with its error.
pub open spec fn read_from(text: Seq<u8>, pos: int, st: Description) -> Result<
    Description,
    GraphError,
>
    decreases text.len() - pos,
{
    if 0 <= pos < text.len() {
        let e = line_end(text, pos);
        let after = if pos <= e < text.len() {
            e + 1
        } else {
            text.len() as int
        };
        match read_line(st, line_at(text, pos)) {
            Err(x) => Err(x),
            Ok(next) => read_from(text, after, next),
        }
    } else {
        Ok(st)
    }
}

/// Nothing read yet.
pub open spec fn nothing_read() -> Description {
    Description {
        section: None,
        seen_nodes: false,
        seen_edges: false,
        seen_path: false,
        nodes: Seq::empty(),
        edges: Seq::empty(),
        path: Seq::empty(),
    }
}

/// What the whole of `text` describes: what its lines make of nothing, if
/// each of the three headers occurs among them.
pub open spec fn described(text: Seq<u8>) -> Result<Description, GraphError> {
    match read_from(text, 0, nothing_read()) {
        Err(e) => Err(e),
        Ok(d) => if d.seen_nodes && d.seen_edges && d.seen_path {
            Ok(d)
        } else {
            Err(GraphError::MissingSection)
        },
    }
}

/// The value of a prefix of decimal digits does not exceed the value of the whole.
proof fn lemma_value_grows(ds: Seq<u8>, n: int)
    requires
        all_digits(ds),
        0 <= n <= ds.len(),
    ensures
        0 <= digits_value(ds.take(n)) <= digits_value(ds),
    decreases ds.len() - n,
{
    lemma_value_not_negative(ds.take(n));
    if n == ds.len() {
        assert(ds.take(n) =~= ds);
    } else {
        lemma_value_grows(ds, n + 1);
        assert(ds.take(n + 1).drop_last() =~= ds.take(n));
        assert(ds.take(n + 1).last() == ds[n]);
    }
}

/// The value of decimal digits is not negative.
proof fn lemma_value_not_negative(ds: Seq<u8>)
    requires
        all_digits(ds),
    ensures
        0 <= digits_value(ds),
    decreases ds.len(),
{
    if ds.len() > 0 {
        lemma_value_not_negative(ds.drop_last());
    }
}

/// Reads the bytes of `s` from `from` up to `to` as a number.
fn read_number(s: &Vec<u8>, from: usize, to: usize) -> (r: Option<usize>)
    requires
        from <= to <= s@.len(),
    ensures
        r == number_of(s@.subrange(from as int, to as int)),
{
    let ghost tok = s@.subrange(from as int, to as int);
    let mut i: usize = from;
    if i < to && s[i] == 43 {
        i += 1;
    }
    let first: usize = i;
    let ghost ds = s@.subrange(first as int, to as int);
    proof {
        if first > from {
            assert(tok[0] == 43);
            assert(tok.subrange(1, tok.len() as int) =~= ds);
        } else {
            assert(tok =~= ds);
            if tok.len() > 0 {
                assert(tok[0] == s@[from as int]);
            }
        }
    }
    assert(number_of(tok) == digits_number(ds));
    if i == to {
        return None;
    }
    let mut acc: usize = 0;
    while i < to
        invariant
            first <= i <= to,
            number_of(tok) == digits_number(ds),
            tok == s@.subrange(from as int, to as int),
            to <= s@.len(),
            ds == s@.subrange(first as int, to as int),
            all_digits(ds.take(i - first)),
            acc == digits_value(ds.take(i - first)),
        decreases to - i,
    {
        let c: u8 = s[i];
        let ghost n = i - first;
        proof {
            assert(ds[n] == c);
            assert(ds.take(n + 1).drop_last() =~= ds.take(n));
            assert(ds.take(n + 1).last() == c);
        }
        if c < 48 || c > 57 {
            return None;
        }
        proof {
            assert forall|k: int| 0 <= k < n + 1 implies 48 <= #[trigger] ds.take(n + 1)[k] <= 57 by {
                if k < n {
                    assert(ds.take(n)[k] == ds.take(n + 1)[k]);
                }
            }
            if all_digits(ds) {
                lemma_value_grows(ds, n + 1);
            }
        }
        let digit: usize = (c - 48) as usize;
        match acc.checked_mul(10) {
            None => {
                return None;
            },
            Some(tens) => match tens.checked_add(digit) {
                None => {
                    return None;
                },
                Some(v) => {
                    acc = v;
                },
            },
        }
        i += 1;
    }
    proof {
        assert(ds.take(to - first) =~= ds);
    }
    Some(acc)
}

/// The number of bytes of the white space character that starts at `i`.
fn space_len_at(line: &Vec<u8>, i: usize) -> (r: usize)
    requires
        i <= line@.len(),
    ensures
        r == space_len(line@, i as int),
        i + r <= line@.len(),
{
    let n: usize = line.len();
    if i >= n {
        return 0;
    }
    let a: u8 = line[i];
    if a == 32 || (9 <= a && a <= 13) {
        return 1;
    }
    if n - i >= 2 && a == 194 && (line[i + 1] == 133 || line[i + 1] == 160) {
        return 2;
    }
    if n - i >= 3 {
        let b: u8 = line[i + 1];
        let c: u8 = line[i + 2];
        if (a == 225 && b == 154 && c == 128) || (a == 226 && b == 128 && ((128 <= c && c <= 138)
            || c == 168 || c == 169 || c == 175)) || (a == 226 && b == 129 && c == 159) || (a
            == 227 && b == 128 && c == 128) {
            return 3;
        }
    }
    0
}

/// The fields of a line, each read as a number.
fn read_numbers(line: &Vec<u8>) -> (r: Vec<Option<usize>>)
    ensures
        r@ == numbers_from(line@, 0),
{
    let mut out: Vec<Option<usize>> = Vec::new();
    let mut i: usize = 0;
    let mut more: bool = true;
    let n: usize = line.len();
    while more
        invariant
            i <= line@.len() == n,
            more ==> numbers_from(line@, 0) == out@ + numbers_from(line@, i as int),
            !more ==> numbers_from(line@, 0) == out@,
        decreases line@.len() - i + (if more { 1int } else { 0int }),
    {
        let ghost i0 = i;
        let mut wide: usize = space_len_at(line, i);
        while wide > 0
            invariant
                i0 <= i <= line@.len(),
                wide == space_len(line@, i as int),
                i + wide <= line@.len() == n,
                skip_spaces(line@, i as int) == skip_spaces(line@, i0 as int),
            decreases line@.len() - i,
        {
            i += wide;
            wide = space_len_at(line, i);
        }
        let a: usize = i;
        while i < line.len() && space_len_at(line, i) == 0
            invariant
                a <= i <= line@.len(),
                skip_field(line@, i as int) == skip_field(line@, a as int),
            decreases line@.len() - i,
        {
            i += 1;
        }
        if a == i {
            proof {
                assert(numbers_from(line@, i0 as int) =~= Seq::<Option<usize>>::empty());
                assert(out@ + Seq::<Option<usize>>::empty() =~= out@);
            }
            more = false;
        } else {
            let value: Option<usize> = read_number(line, a, i);
            proof {
                assert(numbers_from(line@, i0 as int) == seq![value] + numbers_from(line@, i as int));
                assert(out@.push(value) + numbers_from(line@, i as int) =~= out@ + (seq![value]
                    + numbers_from(line@, i as int)));
            }
            out.push(value);
        }
    }
    out
}

/// Whether the line is the given header.
fn is_header(line: &Vec<u8>, header: &Vec<u8>) -> (r: bool)
    ensures
        r == (line@ == header@),
{
    if line.len() != header.len() {
        return false;
    }
    let mut i: usize = 0;
    while i < line.len()
        invariant
            i <= line@.len(),
            line@.len() == header@.len(),
            forall|k: int| 0 <= k < i ==> line@[k] == header@[k],
        decreases line@.len() - i,
    {
        if line[i] != header[i] {
            return false;
        }
        i += 1;
    }
    proof {
        assert(line@ =~= header@);
    }
    true
}

/// What has been read so far, as the reader holds it.
struct Reading {
    section: Option<Section>,
    seen_nodes: bool,
    seen_edges: bool,
    seen_path: bool,
    nodes: Vec<Node>,
    edges: Vec<Edge>,
    path: Vec<usize>,
}

impl Reading {
    spec fn view(&self) -> Description {
        Description {
            section: self.section,
            seen_nodes: self.seen_nodes,
            seen_edges: self.seen_edges,
            seen_path: self.seen_path,
            nodes: self.nodes@,
            edges: self.edges@,
            path: self.path@,
        }
    }
}

/// The numbers of `f`, if every field of it is one.
fn all_present(f: &Vec<Option<usize>>) -> (r: Option<Vec<usize>>)
    ensures
        match r {
            Some(path) => path@ == Seq::new(f@.len(), |k: int| f@[k].unwrap()) && forall|k: int|
                0 <= k < f@.len() ==> (#[trigger] f@[k]).is_some(),
            None => exists|k: int| 0 <= k < f@.len() && (#[trigger] f@[k]).is_none(),
        },
{
    let mut path: Vec<usize> = Vec::new();
    let mut k: usize = 0;
    while k < f.len()
        invariant
            k <= f@.len(),
            path@.len() == k,
            forall|j: int|
                0 <= j < k ==> (#[trigger] f@[j]).is_some() && path@[j] == f@[j].unwrap(),
        decreases f@.len() - k,
    {
        match f[k] {
            Some(id) => {
                path.push(id);
            },
            None => {
                assert(f@[k as int].is_none());
                return None;
            },
        }
        k += 1;
    }
    proof {
        assert(path@ =~= Seq::new(f@.len(), |j: int| f@[j].unwrap()));
    }
    Some(path)
}

/// Reads one line into what has been read.
fn apply_line(st: Reading, line: &Vec<u8>) -> (r: Result<Reading, GraphError>)
    ensures
        match read_line(st@, line@) {
            Ok(d) => r matches Ok(next) && next@ == d,
            Err(e) => r matches Err(x) && x == e,
        },
{
    let mut st = st;
    if line.len() > 0 && line[0] == 35 {
        let nodes: Vec<u8> = vec![35u8, 32u8, 78u8, 111u8, 100u8, 101u8, 115u8];
        let edges: Vec<u8> = vec![35u8, 32u8, 69u8, 100u8, 103u8, 101u8, 115u8];
        let path: Vec<u8> = vec![
            35u8,
            32u8,
            83u8,
            104u8,
            111u8,
            114u8,
            116u8,
            101u8,
            115u8,
            116u8,
            80u8,
            97u8,
            116u8,
            104u8,
        ];
        proof {
            assert(nodes@ =~= nodes_header());
            assert(edges@ =~= edges_header());
            assert(path@ =~= path_header());
        }
        if is_header(line, &nodes) {
            st.section = Some(Section::Nodes);
            st.seen_nodes = true;
        } else if is_header(line, &edges) {
            st.section = Some(Section::Edges);
            st.seen_edges = true;
        } else if is_header(line, &path) {
            st.section = Some(Section::ShortestPath);
            st.seen_path = true;
        } else {
            return Err(GraphError::InvalidSection);
        }
        return Ok(st);
    }
    match st.section {
        None => Ok(st),
        Some(Section::Nodes) => {
            proof {
                assert(line@.subrange(0, line@.len() as int) =~= line@);
            }
            match read_number(line, 0, line.len()) {
                Some(id) => {
                    st.nodes.push(Node { id });
                    Ok(st)
                },
                None => Err(GraphError::InvalidNodeId),
            }
        },
        Some(Section::Edges) => {
            let f = read_numbers(line);
            if f.len() != 3 {
                return Err(GraphError::InvalidEdgeData);
            }
            match (f[0], f[1], f[2]) {
                (Some(node1), Some(node2), Some(weight)) => {
                    st.edges.push(Edge { node1, node2, weight });
                    Ok(st)
                },
                (Some(_), Some(_), None) => Err(GraphError::InvalidWeight),
                _ => Err(GraphError::InvalidNodeId),
            }
        },
        Some(Section::ShortestPath) => {
            let f = read_numbers(line);
            match all_present(&f) {
                Some(path) => {
                    st.path = path;
                    Ok(st)
                },
                None => Err(GraphError::InvalidNodeId),
            }
        },
    }
}

/// Reads the description of a graph: the graph, and the expected path that
/// the description carries.
///
/// The text is read line by line, and the first line that cannot be read
/// ends the reading with its error; a text that lacks one of the three
/// headers is refused at its end. Nothing is checked beyond the form of the
/// lines: an edge may name a node that the node section does not list.
pub fn parse_graph(text: &[u8]) -> (r: Result<(Graph, Vec<usize>), GraphError>)
    ensures
        match described(text@) {
            Ok(d) => r matches Ok(read) && read.0.nodes@ == d.nodes && read.0.edges@ == d.edges
                && read.1@ == d.path,
            Err(e) => r matches Err(x) && x == e,
        },
{
    let mut st = Reading {
        section: None,
        seen_nodes: false,
        seen_edges: false,
        seen_path: false,
        nodes: Vec::new(),
        edges: Vec::new(),
        path: Vec::new(),
    };
    let mut pos: usize = 0;
    while pos < text.len()
        invariant
            read_from(text@, 0, nothing_read()) == read_from(text@, pos as int, st@),
        decreases text@.len() - pos,
    {
        let mut line: Vec<u8> = Vec::new();
        let mut e: usize = pos;
        while e < text.len() && text[e] != 10
            invariant
                pos <= e <= text@.len(),
                line_end(text@, e as int) == line_end(text@, pos as int),
                line@ == text@.subrange(pos as int, e as int),
            decreases text@.len() - e,
        {
            line.push(text[e]);
            proof {
                assert(line@ =~= text@.subrange(pos as int, e + 1));
            }
            e += 1;
        }
        if e < text.len() && line.len() > 0 && line[line.len() - 1] == 13 {
            line.pop();
        }
        proof {
            assert(line@ =~= line_at(text@, pos as int));
        }
        match apply_line(st, &line) {
            Err(x) => {
                return Err(x);
            },
            Ok(next) => {
                st = next;
            },
        }
        if e == text.len() {
            pos = e;
        } else {
            pos = e + 1;
        }
    }
    if !(st.seen_nodes && st.seen_edges && st.seen_path) {
        return Err(GraphError::MissingSection);
    }
    Ok((Graph { nodes: st.nodes, edges: st.edges }, st.path))
}

} // verus!
