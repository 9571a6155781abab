//! The adaptive drive controller: a per-vehicle state machine that turns a
//! static waypoint plan into a timed, self-correcting sequence of remote
//! commands.
//!
//! The controller itself performs no waiting or network work: `drive_step`
//! decides, from the current state and the event just observed, the next
//! state and the ordered actions (send a route command, sleep, poll the
//! position, send stop) for the surrounding loop to perform. The loop feeds
//! each poll result back in. A failed poll counts as arrival (optimistic
//! fallback); a position that is not yet near the target adds one extra
//! sleep as a one-shot correction, never a retry loop.

use vstd::prelude::*;

use crate::geometry::{dist_sq, within_squared, Point, MAX_SEPARATION};
use crate::pathfinding::Waypoint;

verus! {

/// The speed used for newly registered vehicles, in milli-units per second.
pub const DEFAULT_SPEED: u64 = 10_000;

/// How close a reported position must be to the target waypoint to count as
/// arrived, in milli-units: ten map units.
pub const WAYPOINT_PROXIMITY: i64 = 10_000;

/// The squared proximity threshold, for exact comparisons.
pub const WAYPOINT_PROXIMITY_SQ: u64 = 100_000_000;

/// How many milliseconds before the nominal arrival time the loop wakes to
/// poll, and how long the one-shot correction sleep lasts.
pub const EARLY_POLL_MS: u64 = 2000;

/// The control states of one vehicle's drive loop.
#[derive(Debug, Clone, Copy, PartialEq, Eq, Structural)]
pub enum DriveState {
    /// Before the initial route command is sent.
    Initializing,
    /// Driving the leg from waypoint `leg` to waypoint `leg + 1`.
    Cruising { leg: usize },
    /// Due to check the position against waypoint `leg + 1`.
    Verifying { leg: usize },
    /// The route is complete; no further commands are sent.
    Stopped,
}

/// What the surrounding loop reports back to the controller.
#[derive(Debug, Clone, Copy)]
pub enum DriveEvent {
    /// Nothing to report: the controller acts on its own schedule.
    Proceed,
    /// The vehicle's position endpoint replied with a position, or failed
    /// (`None`: no response or malformed payload).
    Polled { position: Option<Point> },
}

/// What the controller asks the surrounding loop to do, in order.
#[derive(Debug, Clone, Copy, PartialEq, Eq, Structural)]
pub enum DriveAction {
    /// Send a route command: drive at `speed` in the direction of the unit
    /// vector of the displacement (`dir_x`, `dir_y`).
    SetRoute { speed: u64, dir_x: i64, dir_y: i64 },
    /// Suspend for this many milliseconds.
    Sleep { millis: u64 },
    /// Query the vehicle's position endpoint and report the result back.
    Poll,
    /// Send the stop command.
    Stop,
}

/// Every leg of the plan is shorter than `MAX_SEPARATION`, as every plan
/// computed over a well-formed graph is, so travel times fit in
/// milliseconds.
pub open spec fn plan_wf(plan: Seq<Waypoint>) -> bool {
    forall|i: int| 0 <= i < plan.len() ==> (#[trigger] plan[i]).dist_to_next < MAX_SEPARATION
}

/// The waypoint indices of a state are within the plan.
pub open spec fn state_wf(state: DriveState, plan: Seq<Waypoint>) -> bool {
    match state {
        DriveState::Initializing => true,
        DriveState::Cruising { leg } => leg < plan.len(),
        DriveState::Verifying { leg } => leg + 1 < plan.len(),
        DriveState::Stopped => true,
    }
}

/// A `Verifying` state consumes a poll result; every other state acts on its
/// own schedule.
pub open spec fn event_matches(state: DriveState, event: DriveEvent) -> bool {
    match state {
        DriveState::Verifying { .. } => event is Polled,
        _ => event is Proceed,
    }
}

pub open spec fn poll_position(event: DriveEvent) -> Option<Point> {
    match event {
        DriveEvent::Polled { position } => position,
        DriveEvent::Proceed => None,
    }
}

/// The nominal time of a leg in milliseconds: distance over speed, rounded
/// down.
pub open spec fn travel_millis(dist: u64, speed: u64) -> int {
    (dist as int) * 1000 / (speed as int)
}

/// The cruise sleep: the nominal leg time less the early-poll margin, and
/// never negative.
pub open spec fn sleep_millis(dist: u64, speed: u64) -> int {
    if travel_millis(dist, speed) > EARLY_POLL_MS {
        travel_millis(dist, speed) - EARLY_POLL_MS
    } else {
        0
    }
}

/// Arrived: the reported position lies strictly within the proximity
/// threshold of waypoint `leg + 1`; a failed poll counts as arrived.
pub open spec fn near_after_poll(plan: Seq<Waypoint>, leg: int, position: Option<Point>) -> bool {
    match position {
        Some(p) => dist_sq(p, (Point { x: plan[leg + 1].x, y: plan[leg + 1].y }))
            < WAYPOINT_PROXIMITY_SQ,
        None => true,
    }
}

/// The state after one step of the drive loop.
pub open spec fn step_state(
    plan: Seq<Waypoint>,
    speed: u64,
    state: DriveState,
    event: DriveEvent,
) -> DriveState {
    match state {
        DriveState::Initializing => if plan.len() == 0 {
            DriveState::Stopped
        } else {
            DriveState::Cruising { leg: 0 }
        },
        DriveState::Cruising { leg } => if leg + 1 >= plan.len() {
            DriveState::Stopped
        } else if speed == 0 || plan[leg as int].dist_to_next == 0 {
            DriveState::Cruising { leg: (leg + 1) as usize }
        } else {
            DriveState::Verifying { leg }
        },
        DriveState::Verifying { leg } => if leg + 1 == plan.len() - 1 {
            DriveState::Stopped
        } else {
            DriveState::Cruising { leg: (leg + 1) as usize }
        },
        DriveState::Stopped => DriveState::Stopped,
    }
}

/// The actions of one step of the drive loop, in order.
pub open spec fn step_actions(
    plan: Seq<Waypoint>,
    speed: u64,
    state: DriveState,
    event: DriveEvent,
) -> Seq<DriveAction> {
    match state {
        DriveState::Initializing => if plan.len() == 0 {
            Seq::empty()
        } else {
            seq![
                DriveAction::SetRoute {
                    speed: speed,
                    dir_x: plan[0].dir_x,
                    dir_y: plan[0].dir_y,
                },
            ]
        },
        DriveState::Cruising { leg } => if leg + 1 >= plan.len() || speed == 0 || plan[
            leg as int
        ].dist_to_next == 0 {
            Seq::empty()
        } else {
            seq![
                DriveAction::Sleep {
                    millis: sleep_millis(plan[leg as int].dist_to_next, speed) as u64,
                },
                DriveAction::Poll,
            ]
        },
        DriveState::Verifying { leg } => {
            let near = near_after_poll(plan, leg as int, poll_position(event));
            let tail: Seq<DriveAction> = if leg + 1 == plan.len() - 1 {
                seq![DriveAction::Stop]
            } else {
                seq![
                    DriveAction::SetRoute {
                        speed: speed,
                        dir_x: plan[leg + 1].dir_x,
                        dir_y: plan[leg + 1].dir_y,
                    },
                ]
            };
            if near {
                tail
            } else {
                seq![DriveAction::Sleep { millis: EARLY_POLL_MS }] + tail
            }
        },
        DriveState::Stopped => Seq::empty(),
    }
}

/// A bound that every step strictly decreases until `Stopped`: commands go
/// out in waypoint order and every drive loop reaches `Stopped` after
/// finitely many steps.
pub open spec fn state_measure(state: DriveState, plan_len: int) -> int {
    match state {
        DriveState::Initializing => 2 * plan_len + 2,
        DriveState::Cruising { leg } => if leg <= plan_len {
            2 * (plan_len - leg) + 1
        } else {
            0
        },
        DriveState::Verifying { leg } => if leg + 1 < plan_len {
            2 * (plan_len - leg)
        } else {
            0
        },
        DriveState::Stopped => 0,
    }
}

/// Progress: from any state but `Stopped`, one step strictly decreases the
/// measure and keeps the state within the plan, so the drive loop runs to
/// natural completion after finitely many steps.
pub proof fn lemma_drive_progress(
    plan: Seq<Waypoint>,
    speed: u64,
    state: DriveState,
    event: DriveEvent,
)
    requires
        plan.len() <= usize::MAX,
        state_wf(state, plan),
        event_matches(state, event),
        !(state is Stopped),
    ensures
        state_wf(step_state(plan, speed, state, event), plan),
        0 <= state_measure(step_state(plan, speed, state, event), plan.len() as int)
            < state_measure(state, plan.len() as int),
{
    match state {
        DriveState::Initializing => {
            if plan.len() == 0 {
                assert(step_state(plan, speed, state, event) == DriveState::Stopped);
            } else {
                assert(step_state(plan, speed, state, event) == (DriveState::Cruising { leg: 0 }));
            }
        },
        DriveState::Cruising { leg } => {
            assert(leg < plan.len());
        },
        DriveState::Verifying { leg } => {
            assert(leg + 1 < plan.len());
        },
        DriveState::Stopped => {
        },
    }
}

/// One decision of the drive loop: from the current state and the event just
/// observed, the next state and the ordered actions for the surrounding loop
/// to perform.
pub fn drive_step(
    plan: &Vec<Waypoint>,
    speed: u64,
    state: DriveState,
    event: DriveEvent,
) -> (r: (DriveState, Vec<DriveAction>))
    requires
        plan_wf(plan@),
        state_wf(state, plan@),
        event_matches(state, event),
    ensures
        r.0 == step_state(plan@, speed, state, event),
        r.1@ == step_actions(plan@, speed, state, event),
        state_wf(r.0, plan@),
{
    let plan_len: usize = plan.len();
    let mut actions: Vec<DriveAction> = Vec::new();
    match state {
        DriveState::Initializing => {
            if plan_len == 0 {
                (DriveState::Stopped, actions)
            } else {
                let first = plan[0];
                actions.push(
                    DriveAction::SetRoute {
                        speed: speed,
                        dir_x: first.dir_x,
                        dir_y: first.dir_y,
                    },
                );
                proof {
                    assert(actions@ =~= step_actions(plan@, speed, state, event));
                }
                (DriveState::Cruising { leg: 0 }, actions)
            }
        },
        DriveState::Cruising { leg } => {
            proof {
                assert(leg < plan@.len());
            }
            if leg + 1 >= plan_len {
                (DriveState::Stopped, actions)
            } else if speed == 0 || plan[leg].dist_to_next == 0 {
                (DriveState::Cruising { leg: leg + 1 }, actions)
            } else {
                let dist: u64 = plan[leg].dist_to_next;
                let travel: u64 = dist * 1000 / speed;
                let sleep: u64 = if travel > EARLY_POLL_MS {
                    travel - EARLY_POLL_MS
                } else {
                    0
                };
                actions.push(DriveAction::Sleep { millis: sleep });
                actions.push(DriveAction::Poll);
                proof {
                    assert(actions@ =~= step_actions(plan@, speed, state, event));
                }
                (DriveState::Verifying { leg: leg }, actions)
            }
        },
        DriveState::Verifying { leg } => {
            proof {
                assert(leg + 1 < plan@.len());
            }
            let position: Option<Point> = match event {
                DriveEvent::Polled { position } => position,
                DriveEvent::Proceed => None,
            };
            let target = Point { x: plan[leg + 1].x, y: plan[leg + 1].y };
            let near: bool = match &position {
                Some(p) => within_squared(p, &target, WAYPOINT_PROXIMITY_SQ),
                None => true,
            };
            if !near {
                actions.push(DriveAction::Sleep { millis: EARLY_POLL_MS });
            }
            if leg + 1 == plan_len - 1 {
                actions.push(DriveAction::Stop);
                proof {
                    assert(actions@ =~= step_actions(plan@, speed, state, event));
                }
                (DriveState::Stopped, actions)
            } else {
                let next = plan[leg + 1];
                actions.push(
                    DriveAction::SetRoute {
                        speed: speed,
                        dir_x: next.dir_x,
                        dir_y: next.dir_y,
                    },
                );
                proof {
                    assert(actions@ =~= step_actions(plan@, speed, state, event));
                }
                (DriveState::Cruising { leg: leg + 1 }, actions)
            }
        },
        DriveState::Stopped => (DriveState::Stopped, actions),
    }
}

} // verus!
