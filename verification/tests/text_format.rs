use graph_editor::{BaseGraph, Graph, GraphError};

fn graph_from(base: &BaseGraph) -> Graph<()> {
    let mut g: Graph<()> = Graph::new(base.is_directed);
    let payloads: Vec<()> = vec![(); base.n];
    g.apply_input(base, payloads);
    g
}

#[test]
fn test_parse_one_based_scenario() {
    let g = BaseGraph::parse("3 2\n1 2\n2 3", false).unwrap();
    assert_eq!(g.n, 3);
    assert_eq!(g.edges, vec![(0, 1), (1, 2)]);

    let mut graph = graph_from(&g);
    assert_eq!(graph.encode(false), "3 2\n1 2\n2 3");
}

#[test]
fn test_parse_zero_based() {
    let g = BaseGraph::parse("3 2\n0 1\n1 2", true).unwrap();
    assert_eq!(g.n, 3);
    assert_eq!(g.edges, vec![(0, 1), (1, 2)]);

    let mut graph = graph_from(&g);
    assert_eq!(graph.encode(true), "3 2\n0 1\n1 2");
}

#[test]
fn test_parse_insufficient_input() {
    assert_eq!(
        BaseGraph::parse("", true).unwrap_err(),
        GraphError::InsufficientInput
    );
    assert_eq!(
        BaseGraph::parse("3", true).unwrap_err(),
        GraphError::InsufficientInput
    );
    assert_eq!(
        BaseGraph::parse("3 2\n0 1", true).unwrap_err(),
        GraphError::InsufficientInput
    );
    assert_eq!(
        BaseGraph::parse("3 2\n0 1\n2", true).unwrap_err(),
        GraphError::InsufficientInput
    );
}

#[test]
fn test_parse_excessive_input() {
    assert_eq!(
        BaseGraph::parse("1 0 5", true).unwrap_err(),
        GraphError::ExcessiveInput
    );
    assert_eq!(
        BaseGraph::parse("3 1\n0 1\n1 2", true).unwrap_err(),
        GraphError::ExcessiveInput
    );
    // Trailing garbage is noticed as excess, not parsed.
    assert_eq!(
        BaseGraph::parse("1 0 xyz", true).unwrap_err(),
        GraphError::ExcessiveInput
    );
}

#[test]
fn test_parse_failure() {
    assert_eq!(
        BaseGraph::parse("a 0", true).unwrap_err(),
        GraphError::ParseFailure
    );
    assert_eq!(
        BaseGraph::parse("3 2\n0 b\n1 2", true).unwrap_err(),
        GraphError::ParseFailure
    );
    // A value that does not fit the machine word is a parse failure too.
    assert_eq!(
        BaseGraph::parse("99999999999999999999999 0", true).unwrap_err(),
        GraphError::ParseFailure
    );
    // A lone minus-signed number is rejected; a plus sign is accepted.
    assert_eq!(
        BaseGraph::parse("-3 0", true).unwrap_err(),
        GraphError::ParseFailure
    );
    let g = BaseGraph::parse("+3 +0", true).unwrap();
    assert_eq!(g.n, 3);
    assert_eq!(g.edges, Vec::<(usize, usize)>::new());
}

#[test]
fn test_parse_invalid_edge() {
    // Zero endpoint under 1-based indexing.
    assert_eq!(
        BaseGraph::parse("2 1\n0 2", false).unwrap_err(),
        GraphError::InvalidEdge
    );
    // Endpoint beyond the declared count.
    assert_eq!(
        BaseGraph::parse("2 1\n0 3", true).unwrap_err(),
        GraphError::InvalidEdge
    );
    // The historical bounds check lets an endpoint equal the declared count
    // through.
    let g = BaseGraph::parse("2 1\n0 2", true).unwrap();
    assert_eq!(g.edges, vec![(0, 2)]);
}

#[test]
fn test_parse_whitespace_shapes() {
    // Any ASCII whitespace separates; the grammar is not line oriented.
    let g = BaseGraph::parse("  3\t2 1 2\r\n2   3 ", false).unwrap();
    assert_eq!(g.n, 3);
    assert_eq!(g.edges, vec![(0, 1), (1, 2)]);
}

#[test]
fn test_encode_round_trip() {
    // Parse back what encode wrote: same count, same edges, both bases.
    let base = BaseGraph::parse("5 4\n0 1\n2 0\n3 4\n1 4", true).unwrap();
    for zero_indexed in [false, true] {
        let mut graph = graph_from(&base);
        let text = graph.encode(zero_indexed);
        let back = BaseGraph::parse(&text, zero_indexed).unwrap();
        assert_eq!(back.n, 5);
        assert_eq!(back.edges, vec![(0, 1), (2, 0), (3, 4), (1, 4)]);
    }
}

#[test]
fn test_encode_undirected_emits_each_logical_edge_once() {
    let mut graph: Graph<()> = Graph::new(false);
    graph.add_vertex((), 0);
    graph.add_vertex((), 1);
    graph.add_vertex((), 2);
    graph.edges.push(graph_editor::Edge::new(0, 1));
    graph.edges.push(graph_editor::Edge::new(1, 0));
    graph.edges.push(graph_editor::Edge::new(2, 1));
    // The reverse duplicate (1, 0) is suppressed; the first orientation stays.
    assert_eq!(graph.encode(true), "3 2\n0 1\n2 1");
}

#[test]
fn test_encode_directed_emits_all_edges() {
    let mut graph: Graph<()> = Graph::new(true);
    graph.add_vertex((), 0);
    graph.add_vertex((), 1);
    graph.edges.push(graph_editor::Edge::new(0, 1));
    graph.edges.push(graph_editor::Edge::new(1, 0));
    assert_eq!(graph.encode(true), "2 2\n0 1\n1 0");
}

#[test]
fn test_error_descriptions() {
    assert_eq!(GraphError::InsufficientInput.describe(), "Insufficient input");
    assert_eq!(GraphError::ExcessiveInput.describe(), "Excessive input");
    assert_eq!(GraphError::InvalidEdge.describe(), "Invalid edge");
    assert_eq!(GraphError::ParseFailure.describe(), "Parse failure");
    assert_eq!(
        GraphError::Graph6DecodeFailure.describe(),
        "Graph6 decode failure"
    );
}
