use hive_mind::geometry::{isqrt, squared_distance, within_squared, Point};
use hive_mind::map::{resolve_endpoint, CityMap, GraphNode, Segment};
use hive_mind::navigation::{distance, get_straight_line_command, straight_line_path, SPEED};

#[test]
fn test_isqrt_exact_values() {
    assert_eq!(isqrt(0), 0);
    assert_eq!(isqrt(1), 1);
    assert_eq!(isqrt(2), 1);
    assert_eq!(isqrt(99), 9);
    assert_eq!(isqrt(100), 10);
    assert_eq!(isqrt(10_000_000_000), 100_000);
    assert_eq!(isqrt(u64::MAX), 4_294_967_295);
}

#[test]
fn test_squared_distance_exact() {
    let a = Point { x: 0, y: 0 };
    let b = Point { x: 3_000, y: 4_000 };
    assert_eq!(squared_distance(&a, &b), 25_000_000);
    assert_eq!(distance(&a, &b), 5_000);
}

#[test]
fn test_within_squared_threshold_is_strict() {
    let a = Point { x: 0, y: 0 };
    let b = Point { x: 10_000, y: 0 };
    assert!(!within_squared(&a, &b, 100_000_000));
    assert!(within_squared(&a, &b, 100_000_001));
    let far = Point { x: i64::MAX, y: i64::MIN };
    assert!(!within_squared(&a, &far, u64::MAX));
}

#[test]
fn test_build_graph_straight_line() {
    // one segment (0,0)-(100,0)-(200,0): 3 nodes, 4 directed edges
    let map = CityMap {
        segments: vec![Segment {
            pts: vec![
                Point { x: 0, y: 0 },
                Point { x: 100_000, y: 0 },
                Point { x: 200_000, y: 0 },
            ],
        }],
    };
    let g = map.build_graph();
    assert_eq!(g.nodes.len(), 3);
    assert_eq!(g.edges.len(), 4);
    assert_eq!(map.segment_count(), 1);
    // every edge has its reciprocal of equal length
    for e in &g.edges {
        assert!(g.edges.iter().any(|f| f.from == e.to && f.to == e.from && f.length == e.length));
        assert_eq!(e.length, 100_000);
    }
    // adjacency groups the outgoing edges by node
    assert_eq!(g.adjacency.len(), 3);
    for (i, row) in g.adjacency.iter().enumerate() {
        for &k in row {
            assert_eq!(g.edges[k].from, i);
        }
    }
}

#[test]
fn test_build_graph_merges_endpoints_within_epsilon() {
    // the second segment starts half a unit from node (100,0): merged
    let map = CityMap {
        segments: vec![
            Segment { pts: vec![Point { x: 0, y: 0 }, Point { x: 100_000, y: 0 }] },
            Segment { pts: vec![Point { x: 100_500, y: 0 }, Point { x: 200_000, y: 0 }] },
        ],
    };
    let g = map.build_graph();
    assert_eq!(g.nodes.len(), 3);
    assert_eq!(g.edges.len(), 4);
    // the merged endpoint kept the first node's coordinates
    assert_eq!(g.nodes[1].x, 100_000);
    // the second segment's edge runs between the resolved nodes
    assert_eq!(g.edges[2].from, 1);
    assert_eq!(g.edges[2].to, 2);
    assert_eq!(g.edges[2].length, 100_000);
}

#[test]
fn test_build_graph_skips_short_segments() {
    let map = CityMap {
        segments: vec![
            Segment { pts: vec![Point { x: 0, y: 0 }] },
            Segment { pts: vec![] },
        ],
    };
    let g = map.build_graph();
    assert_eq!(g.nodes.len(), 0);
    assert_eq!(g.edges.len(), 0);
}

#[test]
fn test_resolve_endpoint_reuses_node_within_epsilon() {
    let mut nodes = vec![GraphNode { x: 0, y: 0 }, GraphNode { x: 100_000, y: 0 }];
    // within epsilon (one unit) of the first node: no duplicate created
    let idx = resolve_endpoint(&mut nodes, Point { x: 500, y: 0 });
    assert_eq!(idx, 0);
    assert_eq!(nodes.len(), 2);
    // exactly epsilon away is not within: a new node is appended verbatim
    let idx2 = resolve_endpoint(&mut nodes, Point { x: 1_000, y: 0 });
    assert_eq!(idx2, 2);
    assert_eq!(nodes.len(), 3);
    assert_eq!(nodes[2].x, 1_000);
}

#[test]
fn test_straight_line_path_holds_both_points() {
    let a = Point { x: 1, y: 2 };
    let b = Point { x: 3, y: 4 };
    let p = straight_line_path(&a, &b);
    assert_eq!(p.len(), 2);
    assert_eq!(p[0].x, 1);
    assert_eq!(p[1].y, 4);
}

#[test]
fn test_straight_line_command_direction() {
    let a = Point { x: 0, y: 0 };
    let b = Point { x: 3_000, y: -4_000 };
    let c = get_straight_line_command(&a, &b);
    assert_eq!(c.speed, SPEED);
    assert_eq!(c.direction_x, 3_000);
    assert_eq!(c.direction_y, -4_000);
    let zero = get_straight_line_command(&a, &a);
    assert_eq!(zero.direction_x, 0);
    assert_eq!(zero.direction_y, 0);
}
