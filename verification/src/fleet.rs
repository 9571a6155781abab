//! The fleet registry and vehicle registration.
//!
//! The registry is an append-only store of registered vehicles; registration
//! plans the route first, applies the roadway-entry policy, and only then
//! appends the vehicle, so a rejected registration leaves no partial state.

use vstd::prelude::*;

use crate::geometry::{point_in_bounds, Point};
use crate::map::{graph_wf, is_nearest, CityGraph};
use crate::pathfinding::{compute_path, plan_ok, route_exists, Waypoint, NODE_LIMIT};

verus! {

/// A registered vehicle: its license identifier, the base address of its
/// remote control endpoint, and its destination. Never mutated or removed
/// once registered. License uniqueness is not enforced.
#[derive(Debug, Clone)]
pub struct Car {
    pub license: String,
    pub url: String,
    pub dest: Point,
}

/// Why a registration was rejected.
#[derive(Debug, Clone, Copy, PartialEq, Eq, Structural)]
pub enum RegistrationError {
    /// No route exists: start and destination snap to the same node, or the
    /// destination node is unreachable.
    NoRoute,
    /// The roadway-entry policy denied the vehicle.
    EntryDenied,
}

/// The append-only store of registered vehicles.
#[derive(Debug)]
pub struct FleetRegistry {
    vehicles: Vec<Car>,
}

impl View for FleetRegistry {
    type V = Seq<Car>;

    closed spec fn view(&self) -> Seq<Car> {
        self.vehicles@
    }
}

impl FleetRegistry {
    /// An empty registry.
    pub fn new() -> (r: FleetRegistry)
        ensures
            r@ == Seq::<Car>::empty(),
    {
        FleetRegistry { vehicles: Vec::new() }
    }

    /// Append a vehicle. Duplicate licenses are not checked.
    pub fn register(&mut self, car: Car)
        ensures
            final(self)@ == old(self)@.push(car),
    {
        self.vehicles.push(car);
    }

    /// The number of registered vehicles.
    pub fn count(&self) -> (n: usize)
        ensures
            n == self@.len(),
    {
        self.vehicles.len()
    }
}

/// The roadway-entry policy: currently permissive, every vehicle is
/// admitted unconditionally. An extension point for future inter-vehicle
/// conflict checks.
pub fn validate_enter_roadway(car: &Car) -> (r: bool)
    ensures
        r == true,
{
    let _ = car;
    true
}

/// Register a vehicle for a drive from `start` to `dest`: plan the route,
/// apply the roadway-entry policy, and append the vehicle to the registry.
/// Succeeds exactly when a route exists (the policy admits everything); a
/// rejected registration leaves the registry unchanged.
pub fn register_vehicle(
    graph: &CityGraph,
    registry: &mut FleetRegistry,
    license: String,
    url: String,
    start: &Point,
    dest: &Point,
) -> (r: Result<Vec<Waypoint>, RegistrationError>)
    requires
        graph_wf(*graph),
        1 <= graph.nodes@.len() <= NODE_LIMIT,
        point_in_bounds(*start),
        point_in_bounds(*dest),
    ensures
        forall|s: usize, gl: usize|
            is_nearest(graph.nodes@, *start, s as int) && is_nearest(graph.nodes@, *dest, gl as int)
                ==> ((r is Ok) <==> route_exists(*graph, s, gl)) && (r matches Ok(w) ==> plan_ok(
                *graph,
                s,
                gl,
                w@,
            )),
        r matches Ok(w) ==> w@.len() >= 2 && final(registry)@ == old(registry)@.push(
            (Car { license: license, url: url, dest: *dest }),
        ),
        r is Err ==> final(registry)@ == old(registry)@,
        r matches Err(e) ==> e == RegistrationError::NoRoute,
{
    let path: Vec<Waypoint> = match compute_path(graph, start, dest) {
        Some(p) => p,
        None => {
            return Err(RegistrationError::NoRoute);
        },
    };
    let car = Car { license: license, url: url, dest: Point { x: dest.x, y: dest.y } };
    if !validate_enter_roadway(&car) {
        return Err(RegistrationError::EntryDenied);
    }
    registry.register(car);
    Ok(path)
}

} // verus!
