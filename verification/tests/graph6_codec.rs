use graph_editor::{BaseGraph, GraphError, ToGraph6, TryFromGraph6};

#[test]
fn test_directed_to_g6() {
    let g1 = BaseGraph {
        is_directed: true,
        n: 2,
        edges: vec![(1, 0)],
    };
    assert_eq!(g1.to_graph6(), "&AG".to_string());

    let g2 = BaseGraph {
        is_directed: true,
        n: 12,
        edges: vec![
            (0, 2),
            (11, 0),
            (1, 3),
            (7, 3),
            (7, 4),
            (5, 6),
            (4, 8),
            (8, 10),
            (6, 3),
            (1, 11),
            (1, 4),
            (5, 4),
        ],
    };
    assert_eq!(g2.to_graph6(), "&KG?E@?????GA_C?E??A????_?".to_string());
}

#[test]
fn test_undirected_to_g6() {
    let g1 = BaseGraph {
        is_directed: false,
        n: 2,
        edges: vec![(1, 0)],
    };
    assert_eq!(g1.to_graph6(), "A_".to_string());

    let g2 = BaseGraph {
        is_directed: false,
        n: 12,
        edges: vec![
            (0, 2),
            (11, 0),
            (1, 3),
            (7, 3),
            (7, 4),
            (5, 6),
            (4, 8),
            (8, 10),
            (6, 3),
            (1, 11),
            (1, 4),
            (5, 4),
        ],
    };
    assert_eq!(g2.to_graph6(), "KQOGgoG??@W?".to_string());
}

#[test]
fn test_g6_to_directed() {
    let g1 = BaseGraph::try_from_graph6("&AG").unwrap();
    assert_eq!(g1.is_directed, true);
    assert_eq!(g1.n, 2);
    assert_eq!(g1.edges, vec![(1, 0)]);

    let g2 = BaseGraph::try_from_graph6("&KG?E@?????GA_C?E??A????_?").unwrap();
    assert_eq!(g2.is_directed, true);
    assert_eq!(g2.n, 12);
    assert_eq!(
        g2.edges,
        vec![
            (0, 2),
            (1, 3),
            (1, 4),
            (1, 11),
            (4, 8),
            (5, 4),
            (5, 6),
            (6, 3),
            (7, 3),
            (7, 4),
            (8, 10),
            (11, 0),
        ]
    );
}

#[test]
fn test_g6_to_undirected() {
    let g1 = BaseGraph::try_from_graph6("A_").unwrap();
    assert_eq!(g1.is_directed, false);
    assert_eq!(g1.n, 2);
    assert_eq!(g1.edges, vec![(0, 1)]);

    let g2 = BaseGraph::try_from_graph6("KQOGgoG??@W?").unwrap();
    assert_eq!(g2.is_directed, false);
    assert_eq!(g2.n, 12);
    assert_eq!(
        g2.edges,
        vec![
            (0, 2),
            (0, 11),
            (1, 3),
            (1, 4),
            (1, 11),
            (3, 6),
            (3, 7),
            (4, 5),
            (4, 7),
            (4, 8),
            (5, 6),
            (8, 10),
        ]
    );
}

#[test]
fn test_g6_rejects_malformed() {
    assert_eq!(
        BaseGraph::try_from_graph6(""),
        Err(GraphError::Graph6DecodeFailure)
    );
    assert_eq!(
        BaseGraph::try_from_graph6("&"),
        Err(GraphError::Graph6DecodeFailure)
    );
    assert_eq!(
        BaseGraph::try_from_graph6("?"),
        Err(GraphError::Graph6DecodeFailure)
    );
    // A digraph6 header whose symbol stream stops short of the full matrix.
    assert_eq!(
        BaseGraph::try_from_graph6("&K"),
        Err(GraphError::Graph6DecodeFailure)
    );
    // An out-of-alphabet symbol inside the stream.
    assert!(BaseGraph::try_from_graph6("A1").is_err());
}

#[test]
fn test_g6_round_trip_through_codec() {
    // If the encoder handed its argument back unchanged this would fail: the
    // one-edge graph and the empty graph must encode to different strings,
    // and each must decode back to its own edge set.
    let g = BaseGraph {
        is_directed: false,
        n: 3,
        edges: vec![(0, 1), (1, 2)],
    };
    let text = g.to_graph6();
    let empty = BaseGraph {
        is_directed: false,
        n: 3,
        edges: vec![],
    };
    assert_ne!(text, empty.to_graph6());
    let back = BaseGraph::try_from_graph6(&text).unwrap();
    assert_eq!(back.is_directed, false);
    assert_eq!(back.n, 3);
    assert_eq!(back.edges, vec![(0, 1), (1, 2)]);
}
