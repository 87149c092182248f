use graph_editor::{Edge, EditMode, Graph, PanelTabState, Vertex};

fn vertex(id: usize, z: u32) -> Vertex<u32> {
    Vertex {
        id,
        payload: id as u32 * 10,
        is_pressed: false,
        is_selected: false,
        z_index: z,
        is_deleted: false,
    }
}

#[test]
fn test_restore_graph_renumbers_and_remaps() {
    let mut g: Graph<u32> = Graph::new(false);
    g.vertices = vec![vertex(0, 0), vertex(1, 1), vertex(2, 2), vertex(3, 3)];
    g.vertices[1].is_deleted = true;
    g.edges = vec![
        Edge::new(0, 1),
        Edge::new(0, 2),
        Edge::new(2, 3),
        Edge::new(3, 1),
    ];
    g.restore_graph();

    // Survivors keep their order and payloads; ids become dense.
    assert_eq!(g.vertices.len(), 3);
    for (i, v) in g.vertices.iter().enumerate() {
        assert_eq!(v.id, i);
        assert!(!v.is_deleted);
    }
    assert_eq!(g.vertices[0].payload, 0);
    assert_eq!(g.vertices[1].payload, 20);
    assert_eq!(g.vertices[2].payload, 30);

    // Edges touching the deleted vertex are gone; the rest are renumbered.
    let pairs: Vec<(usize, usize)> = g.edges.iter().map(|e| (e.from, e.to)).collect();
    assert_eq!(pairs, vec![(0, 1), (1, 2)]);

    // Running the pass again changes nothing.
    let vertices_before: Vec<usize> = g.vertices.iter().map(|v| v.id).collect();
    let edges_before: Vec<(usize, usize)> = g.edges.iter().map(|e| (e.from, e.to)).collect();
    g.restore_graph();
    let vertices_after: Vec<usize> = g.vertices.iter().map(|v| v.id).collect();
    let edges_after: Vec<(usize, usize)> = g.edges.iter().map(|e| (e.from, e.to)).collect();
    assert_eq!(vertices_before, vertices_after);
    assert_eq!(edges_before, edges_after);
}

#[test]
fn test_restore_graph_drops_deleted_edges() {
    let mut g: Graph<u32> = Graph::new(false);
    g.vertices = vec![vertex(0, 0), vertex(1, 1)];
    g.edges = vec![Edge::new(0, 1), Edge::new(1, 0)];
    g.edges[1].is_deleted = true;
    g.restore_graph();
    assert_eq!(g.edges.len(), 1);
    assert_eq!((g.edges[0].from, g.edges[0].to), (0, 1));
}

#[test]
fn test_add_unique_edge_scenario() {
    let mut edges: Vec<Edge> = vec![];
    assert!(Graph::<u32>::add_unique_edge(false, &mut edges, 0, 1));
    assert_eq!(edges.len(), 1);
    assert_eq!((edges[0].from, edges[0].to), (0, 1));

    // The reverse pair is a duplicate on an undirected graph.
    assert!(!Graph::<u32>::add_unique_edge(false, &mut edges, 1, 0));
    assert_eq!(edges.len(), 1);
    assert_eq!((edges[0].from, edges[0].to), (0, 1));

    // On a directed graph the reverse pair is a different edge.
    let mut directed: Vec<Edge> = vec![Edge::new(0, 1)];
    assert!(Graph::<u32>::add_unique_edge(true, &mut directed, 1, 0));
    assert_eq!(directed.len(), 2);
    assert!(!Graph::<u32>::add_unique_edge(true, &mut directed, 0, 1));
    assert_eq!(directed.len(), 2);
}

#[test]
fn test_add_vertex_assigns_dense_ids() {
    let mut g: Graph<u32> = Graph::new(false);
    g.add_vertex(7, 4);
    g.add_vertex(8, 5);
    assert_eq!(g.vertices.len(), 2);
    assert_eq!(g.vertices[0].id, 0);
    assert_eq!(g.vertices[1].id, 1);
    assert_eq!(g.vertices[1].payload, 8);
    assert_eq!(g.vertices[1].z_index, 5);
    assert!(!g.vertices[1].is_pressed);
}

#[test]
fn test_neighbor_vertices_ignores_direction() {
    let mut g: Graph<u32> = Graph::new(true);
    g.vertices = vec![vertex(0, 0), vertex(1, 0), vertex(2, 0)];
    g.edges = vec![Edge::new(0, 1), Edge::new(2, 0), Edge::new(1, 2)];
    assert_eq!(g.neighbor_vertices(0), vec![1, 2]);
    assert_eq!(g.neighbor_vertices(1), vec![0, 2]);
    assert_eq!(g.neighbor_vertices(2), vec![0, 1]);
    // A dangling endpoint with no vertex is skipped.
    g.edges.push(Edge::new(0, 9));
    assert_eq!(g.neighbor_vertices(0), vec![1, 2]);
}

#[test]
fn test_clear_keeps_directedness() {
    let mut g: Graph<u32> = Graph::new(true);
    g.add_vertex(0, 0);
    g.edges.push(Edge::new(0, 0));
    g.clear();
    assert!(g.is_directed);
    assert!(g.vertices.is_empty());
    assert!(g.edges.is_empty());
}

#[test]
fn test_list_unique_edges() {
    let mut g: Graph<u32> = Graph::new(false);
    g.vertices = vec![vertex(0, 0), vertex(1, 0), vertex(2, 0)];
    g.edges = vec![Edge::new(0, 1), Edge::new(1, 0), Edge::new(1, 2)];
    assert_eq!(g.list_unique_edges(), vec![(0, 1), (1, 2)]);
    g.is_directed = true;
    assert_eq!(g.list_unique_edges(), vec![(0, 1), (1, 0), (1, 2)]);
}

#[test]
fn test_apply_input_rebuilds() {
    let base = graph_editor::BaseGraph {
        is_directed: false,
        n: 3,
        edges: vec![(0, 1), (2, 2)],
    };
    let mut g: Graph<u32> = Graph::new(false);
    g.add_vertex(99, 9);
    g.apply_input(&base, vec![5, 6, 7]);
    assert_eq!(g.vertices.len(), 3);
    assert_eq!(g.vertices[2].payload, 7);
    assert_eq!(g.vertices[2].id, 2);
    let pairs: Vec<(usize, usize)> = g.edges.iter().map(|e| (e.from, e.to)).collect();
    assert_eq!(pairs, vec![(0, 1), (2, 2)]);
}

#[test]
fn test_edit_mode() {
    assert_eq!(EditMode::default_normal(), EditMode::Normal);
    assert_eq!(EditMode::default_add_vertex(), EditMode::AddVertex);
    assert_eq!(
        EditMode::default_add_edge(),
        EditMode::AddEdge {
            from_vertex: None,
            confirmed: false
        }
    );
    assert_eq!(EditMode::default_delete(), EditMode::Delete);
    assert!(EditMode::AddVertex.is_add_vertex());
    assert!(!EditMode::Normal.is_add_vertex());
    assert!(EditMode::AddEdge {
        from_vertex: Some(3),
        confirmed: true
    }
    .is_add_edge());
    assert!(EditMode::Delete.is_delete());
    assert!(!EditMode::Delete.is_add_edge());
}

#[test]
fn test_panel_tab_state_default() {
    let tabs = PanelTabState::default();
    assert!(tabs.edit_menu);
    assert!(tabs.graph_io);
}
