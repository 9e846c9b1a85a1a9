use shortest_route::graph::graph_loader::{parse_graph, retrieve_start_end_nodes, GraphError};
use shortest_route::graph::Graph;

fn ids(g: &Graph) -> Vec<usize> {
    g.nodes.iter().map(|n| n.id).collect()
}

fn edges(g: &Graph) -> Vec<(usize, usize, usize)> {
    g.edges.iter().map(|e| (e.node1, e.node2, e.weight)).collect()
}

fn error_of(text: &str) -> GraphError {
    match parse_graph(text.as_bytes()) {
        Ok(_) => panic!("the text was read"),
        Err(e) => e,
    }
}

#[test]
fn endpoints_are_first_and_last() {
    assert_eq!(retrieve_start_end_nodes(vec![1, 2, 3, 4, 5]), Ok((1, 5)));
    assert_eq!(retrieve_start_end_nodes(vec![7]), Ok((7, 7)));
    assert_eq!(retrieve_start_end_nodes(vec![4, 9]), Ok((4, 9)));
}

#[test]
fn empty_path_has_no_endpoints() {
    assert_eq!(retrieve_start_end_nodes(vec![]), Err(GraphError::NoStartNode));
}

#[test]
fn reads_the_three_sections() {
    let text = "# Nodes\n1\n2\n3\n# Edges\n1 2 4\n2 3 1\n# ShortestPath\n1 2 3\n";
    let (g, path) = parse_graph(text.as_bytes()).unwrap();
    assert_eq!(ids(&g), vec![1, 2, 3]);
    assert_eq!(edges(&g), vec![(1, 2, 4), (2, 3, 1)]);
    assert_eq!(path, vec![1, 2, 3]);
}

#[test]
fn last_line_needs_no_line_feed() {
    let text = "# Nodes\n12\n# Edges\n# ShortestPath\n12 12";
    let (g, path) = parse_graph(text.as_bytes()).unwrap();
    assert_eq!(ids(&g), vec![12]);
    assert!(edges(&g).is_empty());
    assert_eq!(path, vec![12, 12]);
}

#[test]
fn carriage_return_before_line_feed_is_dropped() {
    let text = "# Nodes\r\n1\r\n2\r\n# Edges\r\n1 2 3\r\n# ShortestPath\r\n1 2\r\n";
    let (g, path) = parse_graph(text.as_bytes()).unwrap();
    assert_eq!(ids(&g), vec![1, 2]);
    assert_eq!(edges(&g), vec![(1, 2, 3)]);
    assert_eq!(path, vec![1, 2]);
}

#[test]
fn carriage_return_at_the_end_of_the_text_stays() {
    assert_eq!(error_of("# Nodes\n1\r"), GraphError::InvalidNodeId);
    assert_eq!(error_of("# Nodes\r"), GraphError::InvalidSection);
}

#[test]
fn fields_are_parted_by_any_white_space() {
    let text = "# Nodes\n# Edges\n \t1\t\t2   3 \n# ShortestPath\n\t 4  5\t\n";
    let (g, path) = parse_graph(text.as_bytes()).unwrap();
    assert_eq!(edges(&g), vec![(1, 2, 3)]);
    assert_eq!(path, vec![4, 5]);
}

#[test]
fn numbers_may_carry_a_plus_and_zeros() {
    let text = "# Nodes\n+7\n007\n0\n# Edges\n+1 02 +003\n# ShortestPath\n+7 0\n";
    let (g, path) = parse_graph(text.as_bytes()).unwrap();
    assert_eq!(ids(&g), vec![7, 7, 0]);
    assert_eq!(edges(&g), vec![(1, 2, 3)]);
    assert_eq!(path, vec![7, 0]);
}

#[test]
fn largest_number_is_read_and_the_next_is_not() {
    let largest = format!("{}", usize::MAX);
    let text = format!("# Nodes\n{}\n# Edges\n# ShortestPath\n", largest);
    let (g, _) = parse_graph(text.as_bytes()).unwrap();
    assert_eq!(ids(&g), vec![usize::MAX]);
    let mut beyond = largest.clone();
    let last = beyond.pop().unwrap();
    beyond.push(((last as u8) + 1) as char);
    assert_eq!(error_of(&format!("# Nodes\n{}\n", beyond)), GraphError::InvalidNodeId);
    assert_eq!(error_of(&format!("# Nodes\n{}0\n", largest)), GraphError::InvalidNodeId);
    assert_eq!(
        error_of("# Nodes\n99999999999999999999999999999999999999999999\n"),
        GraphError::InvalidNodeId
    );
}

#[test]
fn lines_before_the_first_header_are_passed_over() {
    let text = "hello\n1 2\n\n# Nodes\n1\n# Edges\n# ShortestPath\n1\n";
    let (g, path) = parse_graph(text.as_bytes()).unwrap();
    assert_eq!(ids(&g), vec![1]);
    assert_eq!(path, vec![1]);
}

#[test]
fn last_path_line_counts() {
    let text = "# Nodes\n# Edges\n# ShortestPath\n1 2 3\n4 5\n";
    let (_, path) = parse_graph(text.as_bytes()).unwrap();
    assert_eq!(path, vec![4, 5]);
    let text = "# Nodes\n# Edges\n# ShortestPath\n1 2 3\n\n";
    let (_, path) = parse_graph(text.as_bytes()).unwrap();
    assert!(path.is_empty());
}

#[test]
fn sections_may_come_again() {
    let text = "# Edges\n1 2 3\n# Nodes\n1\n# ShortestPath\n1 2\n# Nodes\n2\n# Edges\n2 1 4\n";
    let (g, path) = parse_graph(text.as_bytes()).unwrap();
    assert_eq!(ids(&g), vec![1, 2]);
    assert_eq!(edges(&g), vec![(1, 2, 3), (2, 1, 4)]);
    assert_eq!(path, vec![1, 2]);
}

#[test]
fn unknown_header_is_an_invalid_section() {
    assert_eq!(error_of("# Nodez\n1\n"), GraphError::InvalidSection);
    assert_eq!(error_of("#Nodes\n1\n"), GraphError::InvalidSection);
    assert_eq!(error_of("# Nodes \n1\n"), GraphError::InvalidSection);
    assert_eq!(error_of("# nodes\n"), GraphError::InvalidSection);
    assert_eq!(error_of("#\n"), GraphError::InvalidSection);
    assert_eq!(error_of("# Nodes\n1\n# Edges\n# Shortest\n"), GraphError::InvalidSection);
}

#[test]
fn missing_section_header_is_refused() {
    // Without the header of the edge section an edge stands among the nodes.
    assert_eq!(
        error_of("# Nodes\n1\n2\n1 2 7\n# ShortestPath\n1 2\n"),
        GraphError::InvalidNodeId
    );
    // Without the header of the path section the path stands among the edges.
    assert_eq!(
        error_of("# Nodes\n1\n2\n# Edges\n1 2 7\n1 2\n"),
        GraphError::InvalidEdgeData
    );
    assert_eq!(
        error_of("1\n2\n# Edges\n1 2 7\n# ShortestPath\n1 2\n"),
        GraphError::MissingSection
    );
    assert_eq!(error_of("# Nodes\n1\n2\n# Edges\n1 2 7\n"), GraphError::MissingSection);
    assert_eq!(error_of("# Nodes\n1\n# ShortestPath\n1\n"), GraphError::MissingSection);
    assert_eq!(error_of(""), GraphError::MissingSection);
    assert_eq!(error_of("1 2 3\n"), GraphError::MissingSection);
}

#[test]
fn node_line_must_be_one_number() {
    assert_eq!(error_of("# Nodes\nx\n"), GraphError::InvalidNodeId);
    assert_eq!(error_of("# Nodes\n\n"), GraphError::InvalidNodeId);
    assert_eq!(error_of("# Nodes\n 5\n"), GraphError::InvalidNodeId);
    assert_eq!(error_of("# Nodes\n5 \n"), GraphError::InvalidNodeId);
    assert_eq!(error_of("# Nodes\n-5\n"), GraphError::InvalidNodeId);
    assert_eq!(error_of("# Nodes\n+\n"), GraphError::InvalidNodeId);
    assert_eq!(error_of("# Nodes\n++5\n"), GraphError::InvalidNodeId);
    assert_eq!(error_of("# Nodes\n5a\n"), GraphError::InvalidNodeId);
    assert_eq!(error_of("# Nodes\n1 2\n"), GraphError::InvalidNodeId);
}

#[test]
fn edge_line_must_have_three_fields() {
    assert_eq!(error_of("# Edges\n1 2\n"), GraphError::InvalidEdgeData);
    assert_eq!(error_of("# Edges\n1 2 3 4\n"), GraphError::InvalidEdgeData);
    assert_eq!(error_of("# Edges\n\n"), GraphError::InvalidEdgeData);
    assert_eq!(error_of("# Edges\nx y\n"), GraphError::InvalidEdgeData);
}

#[test]
fn edge_fields_must_be_numbers() {
    assert_eq!(error_of("# Edges\na 2 3\n"), GraphError::InvalidNodeId);
    assert_eq!(error_of("# Edges\n1 b 3\n"), GraphError::InvalidNodeId);
    assert_eq!(error_of("# Edges\n1 2 c\n"), GraphError::InvalidWeight);
    assert_eq!(error_of("# Edges\n1 b c\n"), GraphError::InvalidNodeId);
    assert_eq!(error_of("# Edges\n1 2 -3\n"), GraphError::InvalidWeight);
    assert_eq!(error_of("# Edges\n1 2 3.5\n"), GraphError::InvalidWeight);
}

#[test]
fn path_fields_must_be_numbers() {
    assert_eq!(
        error_of("# Nodes\n# Edges\n# ShortestPath\n1 x 3\n"),
        GraphError::InvalidNodeId
    );
}

#[test]
fn first_bad_line_decides_the_error() {
    assert_eq!(error_of("# Edges\n1 2\n# Bad\n"), GraphError::InvalidEdgeData);
    assert_eq!(error_of("# Bad\n# Edges\n1 2\n"), GraphError::InvalidSection);
}

#[test]
fn wide_white_space_parts_fields_too() {
    let spaces = [
        "\u{0085}", "\u{00A0}", "\u{1680}", "\u{2000}", "\u{2005}", "\u{200A}", "\u{2028}",
        "\u{2029}", "\u{202F}", "\u{205F}", "\u{3000}", "\u{000B}", "\u{000C}", "\t", " ",
    ];
    for sp in spaces {
        let text = format!("# Nodes\n# Edges\n{}1{}2{}{}3{}\n# ShortestPath\n4{}5\n", sp, sp, sp, sp, sp, sp);
        let (g, path) = parse_graph(text.as_bytes()).unwrap();
        assert_eq!(edges(&g), vec![(1, 2, 3)]);
        assert_eq!(path, vec![4, 5]);
        let as_std: Vec<usize> =
            format!("4{}5", sp).split_whitespace().map(|f| f.parse().unwrap()).collect();
        assert_eq!(path, as_std);
    }
}

#[test]
fn other_wide_characters_part_nothing() {
    for other in ["\u{200B}", "\u{2060}", "\u{00A1}", "\u{0084}", "\u{180E}", "\u{FEFF}", "\u{2027}", "\u{3001}"] {
        let text = format!("# Edges\n1{}2 3 4\n", other);
        assert_eq!(error_of(&text), GraphError::InvalidNodeId);
        assert_eq!(format!("1{}2 3 4", other).split_whitespace().count(), 3);
    }
}

#[test]
fn white_space_is_no_part_of_a_node_line() {
    assert_eq!(error_of("# Nodes\n5\u{00A0}\n"), GraphError::InvalidNodeId);
    assert_eq!(error_of("# Nodes\n\t5\n"), GraphError::InvalidNodeId);
}

#[test]
fn numbers_are_read_as_std_reads_them() {
    let largest = format!("{}", usize::MAX);
    let more = format!("{}1", usize::MAX);
    let padded = format!("+000{}", usize::MAX);
    let fields = [
        "0", "00", "+0", "-0", "1", "9", "10", "+10", "-10", "1_000", "0x10", "1e3", "12a", "a12",
        "+", "-", "++1", "+-1", "1+", "٣", "１２", "4294967295", "4294967296",
        "18446744073709551615", "18446744073709551616", "18446744073709551620",
        "28446744073709551615", "184467440737095516150", largest.as_str(), more.as_str(),
        padded.as_str(),
    ];
    for field in fields {
        let text = format!("# Nodes\n{}\n# Edges\n# ShortestPath\n", field);
        let read = parse_graph(text.as_bytes());
        match field.parse::<usize>() {
            Ok(n) => assert_eq!(ids(&read.ok().unwrap().0), vec![n]),
            Err(_) => assert_eq!(read.err(), Some(GraphError::InvalidNodeId)),
        }
    }
}
