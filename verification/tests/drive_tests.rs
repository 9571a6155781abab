use hive_mind::drive::{drive_step, DriveAction, DriveEvent, DriveState, DEFAULT_SPEED};
use hive_mind::fleet::{validate_enter_roadway, Car, FleetRegistry, RegistrationError};
use hive_mind::geometry::Point;
use hive_mind::map::{CityGraph, GraphEdge, GraphNode};
use hive_mind::pathfinding::Waypoint;

// A two-waypoint plan: one leg of 100 units, then the zero sentinel.
fn single_leg_plan() -> Vec<Waypoint> {
    vec![
        Waypoint { x: 0, y: 0, dir_x: 100_000, dir_y: 0, dist_to_next: 100_000 },
        Waypoint { x: 100_000, y: 0, dir_x: 0, dir_y: 0, dist_to_next: 0 },
    ]
}

#[test]
fn test_drive_single_leg_near() {
    // distance 100 units, speed 10 units/s: one initial route command, a
    // wait of 8000 ms (10 s estimate minus the 2 s margin), one poll, and,
    // with the vehicle reported near, a single stop command and termination.
    let plan = single_leg_plan();
    let speed = DEFAULT_SPEED;

    let (state, actions) = drive_step(&plan, speed, DriveState::Initializing, DriveEvent::Proceed);
    assert_eq!(state, DriveState::Cruising { leg: 0 });
    assert_eq!(
        actions,
        vec![DriveAction::SetRoute { speed: 10_000, dir_x: 100_000, dir_y: 0 }]
    );

    let (state, actions) = drive_step(&plan, speed, state, DriveEvent::Proceed);
    assert_eq!(state, DriveState::Verifying { leg: 0 });
    assert_eq!(actions, vec![DriveAction::Sleep { millis: 8_000 }, DriveAction::Poll]);

    let reported = Point { x: 99_000, y: 0 };
    let (state, actions) = drive_step(
        &plan,
        speed,
        state,
        DriveEvent::Polled { position: Some(reported) },
    );
    assert_eq!(state, DriveState::Stopped);
    assert_eq!(actions, vec![DriveAction::Stop]);
}

#[test]
fn test_drive_not_near_adds_one_correction_sleep() {
    let plan = single_leg_plan();
    let state = DriveState::Verifying { leg: 0 };
    let reported = Point { x: 0, y: 0 };
    let (state, actions) = drive_step(
        &plan,
        DEFAULT_SPEED,
        state,
        DriveEvent::Polled { position: Some(reported) },
    );
    assert_eq!(state, DriveState::Stopped);
    assert_eq!(actions, vec![DriveAction::Sleep { millis: 2_000 }, DriveAction::Stop]);
}

#[test]
fn test_drive_poll_failure_counts_as_arrival() {
    let plan = single_leg_plan();
    let state = DriveState::Verifying { leg: 0 };
    let (state, actions) = drive_step(
        &plan,
        DEFAULT_SPEED,
        state,
        DriveEvent::Polled { position: None },
    );
    assert_eq!(state, DriveState::Stopped);
    assert_eq!(actions, vec![DriveAction::Stop]);
}

#[test]
fn test_drive_turn_sends_next_direction() {
    // three waypoints: after the first leg the loop turns onto the second
    let plan = vec![
        Waypoint { x: 0, y: 0, dir_x: 100_000, dir_y: 0, dist_to_next: 100_000 },
        Waypoint { x: 100_000, y: 0, dir_x: 0, dir_y: -100_000, dist_to_next: 100_000 },
        Waypoint { x: 100_000, y: -100_000, dir_x: 0, dir_y: 0, dist_to_next: 0 },
    ];
    let near = Point { x: 100_000, y: 0 };
    let (state, actions) = drive_step(
        &plan,
        DEFAULT_SPEED,
        DriveState::Verifying { leg: 0 },
        DriveEvent::Polled { position: Some(near) },
    );
    assert_eq!(state, DriveState::Cruising { leg: 1 });
    assert_eq!(
        actions,
        vec![DriveAction::SetRoute { speed: 10_000, dir_x: 0, dir_y: -100_000 }]
    );
}

#[test]
fn test_drive_degenerate_leg_advances_instantly() {
    let plan = vec![
        Waypoint { x: 0, y: 0, dir_x: 0, dir_y: 0, dist_to_next: 0 },
        Waypoint { x: 0, y: 0, dir_x: 100_000, dir_y: 0, dist_to_next: 100_000 },
        Waypoint { x: 100_000, y: 0, dir_x: 0, dir_y: 0, dist_to_next: 0 },
    ];
    let (state, actions) = drive_step(
        &plan,
        DEFAULT_SPEED,
        DriveState::Cruising { leg: 0 },
        DriveEvent::Proceed,
    );
    assert_eq!(state, DriveState::Cruising { leg: 1 });
    assert!(actions.is_empty());
    // zero speed likewise skips the wait and the poll
    let (state, actions) = drive_step(&plan, 0, DriveState::Cruising { leg: 1 }, DriveEvent::Proceed);
    assert_eq!(state, DriveState::Cruising { leg: 2 });
    assert!(actions.is_empty());
    // past the last leg the loop ends without a stop command
    let (state, actions) = drive_step(&plan, 0, DriveState::Cruising { leg: 2 }, DriveEvent::Proceed);
    assert_eq!(state, DriveState::Stopped);
    assert!(actions.is_empty());
}

#[test]
fn test_drive_empty_plan_stops_without_commands() {
    let plan: Vec<Waypoint> = Vec::new();
    let (state, actions) = drive_step(
        &plan,
        DEFAULT_SPEED,
        DriveState::Initializing,
        DriveEvent::Proceed,
    );
    assert_eq!(state, DriveState::Stopped);
    assert!(actions.is_empty());
}

#[test]
fn test_drive_short_leg_sleeps_zero() {
    // 10 units at 10 units/s: 1000 ms nominal, under the 2000 ms margin
    let plan = vec![
        Waypoint { x: 0, y: 0, dir_x: 10_000, dir_y: 0, dist_to_next: 10_000 },
        Waypoint { x: 10_000, y: 0, dir_x: 0, dir_y: 0, dist_to_next: 0 },
    ];
    let (state, actions) = drive_step(
        &plan,
        DEFAULT_SPEED,
        DriveState::Cruising { leg: 0 },
        DriveEvent::Proceed,
    );
    assert_eq!(state, DriveState::Verifying { leg: 0 });
    assert_eq!(actions, vec![DriveAction::Sleep { millis: 0 }, DriveAction::Poll]);
}

fn registration_graph() -> CityGraph {
    let nodes = vec![GraphNode { x: 0, y: 0 }, GraphNode { x: 100_000, y: 0 }];
    let edges = vec![
        GraphEdge { from: 0, to: 1, length: 100_000 },
        GraphEdge { from: 1, to: 0, length: 100_000 },
    ];
    let mut adjacency = vec![Vec::new(); nodes.len()];
    for (i, edge) in edges.iter().enumerate() {
        adjacency[edge.from].push(i);
    }
    CityGraph { nodes, edges, adjacency }
}

#[test]
fn test_registry_counts_appends() {
    let mut registry = FleetRegistry::new();
    assert_eq!(registry.count(), 0);
    registry.register(Car {
        license: String::from("AAA-1"),
        url: String::from("http://127.0.0.1:7001"),
        dest: Point { x: 1, y: 2 },
    });
    registry.register(Car {
        license: String::from("AAA-1"),
        url: String::from("http://127.0.0.1:7002"),
        dest: Point { x: 3, y: 4 },
    });
    assert_eq!(registry.count(), 2);
}

#[test]
fn test_roadway_entry_is_permissive() {
    let car = Car {
        license: String::from("ZZZ-9"),
        url: String::from("http://127.0.0.1:7009"),
        dest: Point { x: 0, y: 0 },
    };
    assert!(validate_enter_roadway(&car));
}

#[test]
fn test_register_vehicle_success_appends() {
    let graph = registration_graph();
    let mut registry = FleetRegistry::new();
    let path = hive_mind::fleet::register_vehicle(
        &graph,
        &mut registry,
        String::from("CAR-1"),
        String::from("http://127.0.0.1:7100"),
        &Point { x: 0, y: 0 },
        &Point { x: 100_000, y: 0 },
    )
    .expect("a route exists");
    assert_eq!(path.len(), 2);
    assert_eq!(registry.count(), 1);
}

#[test]
fn test_register_vehicle_no_route_leaves_registry_unchanged() {
    let graph = CityGraph {
        nodes: vec![GraphNode { x: 0, y: 0 }, GraphNode { x: 100_000, y: 0 }],
        edges: vec![],
        adjacency: vec![vec![], vec![]],
    };
    let mut registry = FleetRegistry::new();
    let r = hive_mind::fleet::register_vehicle(
        &graph,
        &mut registry,
        String::from("CAR-2"),
        String::from("http://127.0.0.1:7101"),
        &Point { x: 0, y: 0 },
        &Point { x: 100_000, y: 0 },
    );
    assert!(matches!(r, Err(RegistrationError::NoRoute)));
    assert_eq!(registry.count(), 0);
}
