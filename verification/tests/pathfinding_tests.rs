use hive_mind::geometry::Point;
use hive_mind::map::{CityGraph, GraphEdge, GraphNode};
use hive_mind::pathfinding::compute_path;

// Coordinates are in milli-units: 1000 per map unit. The graph mirrors a
// straight road (0,0) - (100,0) - (200,0) with a spur down to (100,-100),
// every edge 100 units long.
fn build_test_graph() -> CityGraph {
    let nodes = vec![
        GraphNode { x: 0, y: 0 },
        GraphNode { x: 100_000, y: 0 },
        GraphNode { x: 200_000, y: 0 },
        GraphNode { x: 100_000, y: -100_000 },
    ];
    let edges = vec![
        GraphEdge { from: 0, to: 1, length: 100_000 },
        GraphEdge { from: 1, to: 0, length: 100_000 },
        GraphEdge { from: 1, to: 2, length: 100_000 },
        GraphEdge { from: 2, to: 1, length: 100_000 },
        GraphEdge { from: 1, to: 3, length: 100_000 },
        GraphEdge { from: 3, to: 1, length: 100_000 },
    ];
    let mut adjacency = vec![Vec::new(); nodes.len()];
    for (i, edge) in edges.iter().enumerate() {
        adjacency[edge.from].push(i);
    }
    CityGraph { nodes, edges, adjacency }
}

#[test]
fn test_direct_path() {
    let graph = build_test_graph();
    let start = Point { x: 0, y: 0 };
    let dest = Point { x: 200_000, y: 0 };
    let path = compute_path(&graph, &start, &dest).expect("should find path");
    assert_eq!(path.len(), 3);
    assert_eq!(path[0].x, 0);
    assert_eq!(path[1].x, 100_000);
    assert_eq!(path[2].x, 200_000);
}

#[test]
fn test_path_with_turn() {
    let graph = build_test_graph();
    let start = Point { x: 0, y: 0 };
    let dest = Point { x: 100_000, y: -100_000 };
    let path = compute_path(&graph, &start, &dest).expect("should find path");
    assert_eq!(path.len(), 3);
    assert_eq!(path[0].x, 0);
    assert_eq!(path[1].x, 100_000);
    assert_eq!(path[2].y, -100_000);
}

#[test]
fn test_direction_vectors_are_normalised() {
    let graph = build_test_graph();
    let start = Point { x: 0, y: 0 };
    let dest = Point { x: 200_000, y: 0 };
    let path = compute_path(&graph, &start, &dest).unwrap();
    for wp in &path[..path.len() - 1] {
        let ux = wp.dir_x as f64 / wp.dist_to_next as f64;
        let uy = wp.dir_y as f64 / wp.dist_to_next as f64;
        let mag = ux.hypot(uy);
        assert!((mag - 1.0).abs() < 1e-9, "direction not normalised: mag={}", mag);
    }
}

#[test]
fn test_final_waypoint_has_zero_direction() {
    let graph = build_test_graph();
    let start = Point { x: 0, y: 0 };
    let dest = Point { x: 200_000, y: 0 };
    let path = compute_path(&graph, &start, &dest).unwrap();
    let last = path.last().unwrap();
    assert_eq!(last.dir_x, 0);
    assert_eq!(last.dir_y, 0);
    assert_eq!(last.dist_to_next, 0);
}

#[test]
fn test_unreachable_returns_none() {
    let graph = CityGraph {
        nodes: vec![GraphNode { x: 0, y: 0 }, GraphNode { x: 100_000, y: 0 }],
        edges: vec![],
        adjacency: vec![vec![], vec![]],
    };
    let start = Point { x: 0, y: 0 };
    let dest = Point { x: 100_000, y: 0 };
    assert!(compute_path(&graph, &start, &dest).is_none());
}

#[test]
fn test_dist_to_next_is_correct() {
    let graph = build_test_graph();
    let start = Point { x: 0, y: 0 };
    let dest = Point { x: 200_000, y: 0 };
    let path = compute_path(&graph, &start, &dest).unwrap();
    assert!((path[0].dist_to_next as f64 - 100_000.0).abs() < 1e-9);
    assert!((path[1].dist_to_next as f64 - 100_000.0).abs() < 1e-9);
}

#[test]
fn test_nearest_node_snapping() {
    let graph = build_test_graph();
    let start = Point { x: 1_000, y: 0 };
    let dest = Point { x: 199_000, y: 0 };
    let path = compute_path(&graph, &start, &dest).expect("should snap and find path");
    assert_eq!(path.last().unwrap().x, 200_000);
}

#[test]
fn test_same_snap_node_returns_none() {
    let graph = build_test_graph();
    let start = Point { x: 1_000, y: 0 };
    let dest = Point { x: 2_000, y: 0 };
    assert!(compute_path(&graph, &start, &dest).is_none());
}

#[test]
fn test_nearest_node_tie_takes_lowest_index() {
    let graph = CityGraph {
        nodes: vec![GraphNode { x: 0, y: 0 }, GraphNode { x: 2_000, y: 0 }],
        edges: vec![],
        adjacency: vec![vec![], vec![]],
    };
    assert_eq!(graph.nearest_node(1_000, 0), 0);
}

#[test]
fn test_diagonal_leg_distance_is_euclidean() {
    // one road from (0,0) to (3,4): length 5 units, rounded down exactly
    let nodes = vec![GraphNode { x: 0, y: 0 }, GraphNode { x: 3_000, y: 4_000 }];
    let edges = vec![
        GraphEdge { from: 0, to: 1, length: 5_000 },
        GraphEdge { from: 1, to: 0, length: 5_000 },
    ];
    let mut adjacency = vec![Vec::new(); nodes.len()];
    for (i, edge) in edges.iter().enumerate() {
        adjacency[edge.from].push(i);
    }
    let graph = CityGraph { nodes, edges, adjacency };
    let start = Point { x: 0, y: 0 };
    let dest = Point { x: 3_000, y: 4_000 };
    let path = compute_path(&graph, &start, &dest).unwrap();
    assert_eq!(path.len(), 2);
    assert_eq!(path[0].dist_to_next, 5_000);
    assert_eq!(path[0].dir_x, 3_000);
    assert_eq!(path[0].dir_y, 4_000);
}
