use graph_editor::{count_edge_crossing, hill_climb_from, HillClimbing, Naive, Visualize, GRID_SIDE};

#[test]
fn test_crossing_count_exact() {
    // Two segments forming an X cross once; the third shares endpoints with
    // both and crosses neither.
    let positions: Vec<(u32, u32)> = vec![(0, 0), (1000, 1000), (0, 1000), (1000, 0)];
    let edges: Vec<(usize, usize)> = vec![(0, 1), (2, 3), (1, 2)];
    assert_eq!(count_edge_crossing(&positions, &edges), 1);
}

#[test]
fn test_crossing_count_shared_endpoints_do_not_count() {
    let positions: Vec<(u32, u32)> = vec![(0, 0), (1000, 0), (500, 1000)];
    let edges: Vec<(usize, usize)> = vec![(0, 1), (1, 2), (2, 0)];
    assert_eq!(count_edge_crossing(&positions, &edges), 0);
}

#[test]
fn test_crossing_count_collinear_is_zero() {
    // Overlapping collinear segments fail the strict sign test.
    let positions: Vec<(u32, u32)> = vec![(0, 500), (3000, 500), (1000, 500), (2000, 500)];
    let edges: Vec<(usize, usize)> = vec![(0, 1), (2, 3)];
    assert_eq!(count_edge_crossing(&positions, &edges), 0);
}

#[test]
fn test_hill_climbing_never_worse_than_start() {
    // A 4-cycle started from a collinear layout, for several budgets
    // including zero.
    let edges: Vec<(usize, usize)> = vec![(0, 1), (1, 2), (2, 3), (3, 0)];
    for iterations in [0usize, 1, 50] {
        let initial: Vec<(u32, u32)> = vec![(0, 0), (1000, 0), (2000, 0), (3000, 0)];
        let start_count = count_edge_crossing(&initial, &edges);
        let result = hill_climb_from(initial, &edges, iterations);
        assert_eq!(result.len(), 4);
        assert!(count_edge_crossing(&result, &edges) <= start_count);
        for p in &result {
            assert!(p.0 < GRID_SIDE && p.1 < GRID_SIDE);
        }
    }
}

#[test]
fn test_hill_climbing_improves_crossing_start() {
    // Started from the X layout (one crossing), a healthy budget must never
    // end above one crossing, whatever the random source draws.
    let edges: Vec<(usize, usize)> = vec![(0, 1), (2, 3)];
    let initial: Vec<(u32, u32)> = vec![(0, 0), (1000, 1000), (0, 1000), (1000, 0)];
    assert_eq!(count_edge_crossing(&initial, &edges), 1);
    let result = hill_climb_from(initial, &edges, 200);
    assert!(count_edge_crossing(&result, &edges) <= 1);
}

#[test]
fn test_naive_placement_shape() {
    let edges: Vec<(usize, usize)> = vec![(0, 1)];
    let positions = Naive.resolve_vertex_position(8, &edges);
    assert_eq!(positions.len(), 8);
    for p in &positions {
        assert!(p.0 < GRID_SIDE && p.1 < GRID_SIDE);
    }
}

#[test]
fn test_hill_climbing_placement_shape() {
    let edges: Vec<(usize, usize)> = vec![(0, 1), (1, 2), (2, 0)];
    let positions = HillClimbing(25).resolve_vertex_position(3, &edges);
    assert_eq!(positions.len(), 3);
    for p in &positions {
        assert!(p.0 < GRID_SIDE && p.1 < GRID_SIDE);
    }
    // An empty graph is placed trivially.
    let none: Vec<(usize, usize)> = vec![];
    assert_eq!(HillClimbing(10).resolve_vertex_position(0, &none).len(), 0);
}
