//! Straight-line navigation helpers: point-to-point distance and the single
//! steering command that drives directly from one point toward another.

use vstd::prelude::*;

use crate::geometry::{
    dist_sq, euclid_distance, is_sqrt_floor, lemma_square_above, point_in_bounds, Point,
    MAX_SEPARATION,
};

verus! {

/// The default cruising speed, in milli-units per second: ten map units per
/// second.
pub const SPEED: u64 = 10_000;

/// A remote steering command: a speed and a displacement whose unit vector
/// is the direction of travel.
#[derive(Debug, Clone, Copy, PartialEq, Eq, Structural)]
pub struct Command {
    pub speed: u64,
    pub direction_x: i64,
    pub direction_y: i64,
}

/// The two-point path from `start` straight to `dest`.
pub fn straight_line_path(start: &Point, dest: &Point) -> (r: Vec<Point>)
    ensures
        r@ == seq![*start, *dest],
{
    let mut r: Vec<Point> = Vec::new();
    r.push(*start);
    r.push(*dest);
    proof {
        assert(r@ =~= seq![*start, *dest]);
    }
    r
}

/// The Euclidean distance from `start` to `dest`, rounded down.
pub fn distance(start: &Point, dest: &Point) -> (d: u64)
    requires
        point_in_bounds(*start),
        point_in_bounds(*dest),
    ensures
        is_sqrt_floor(dist_sq(*start, *dest), d as int),
        d < MAX_SEPARATION,
{
    euclid_distance(start, dest)
}

/// The command that drives straight from `start` toward `dest` at the
/// default speed: its direction displacement is the difference of the two
/// points (zero exactly when they coincide to the milli-unit).
pub fn get_straight_line_command(start: &Point, dest: &Point) -> (c: Command)
    requires
        point_in_bounds(*start),
        point_in_bounds(*dest),
    ensures
        c.speed == SPEED,
        c.direction_x == dest.x - start.x,
        c.direction_y == dest.y - start.y,
{
    let dx: i64 = dest.x - start.x;
    let dy: i64 = dest.y - start.y;
    let dist: u64 = distance(start, dest);
    proof {
        if dist == 0 {
            assert(dist_sq(*start, *dest) == (start.x - dest.x) * (start.x - dest.x) + (start.y
                - dest.y) * (start.y - dest.y));
            assert((0 + 1) * (0 + 1) == 1) by (nonlinear_arith);
            assert(dist_sq(*start, *dest) < 1);
            crate::geometry::lemma_square_bounds(start.x - dest.x, 2_000_000_000);
            crate::geometry::lemma_square_bounds(start.y - dest.y, 2_000_000_000);
            if start.x != dest.x {
                lemma_square_above(start.x - dest.x, 0);
            }
            if start.y != dest.y {
                lemma_square_above(start.y - dest.y, 0);
            }
            assert(start.x == dest.x && start.y == dest.y);
        }
    }
    let direction_x: i64 = if dist > 0 {
        dx
    } else {
        0
    };
    let direction_y: i64 = if dist > 0 {
        dy
    } else {
        0
    };
    Command { speed: SPEED, direction_x: direction_x, direction_y: direction_y }
}

} // verus!
