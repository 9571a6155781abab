//! Planar points in fixed-point coordinates, squared distances, and an exact
//! integer square root, from which Euclidean distances are derived.

use vstd::prelude::*;

verus! {

/// Number of coordinate steps per map unit: coordinates are in milli-units.
pub const MILLI_PER_UNIT: i64 = 1000;

/// Largest coordinate magnitude the library accepts. Keeping both
/// coordinates within this bound lets every squared distance fit in `u64`.
pub const COORD_LIMIT: i64 = 1_000_000_000;

/// Strict upper bound on the Euclidean distance between two in-bounds points:
/// their squared distance is at most 8e18 < (3e9)^2.
pub const MAX_SEPARATION: u64 = 3_000_000_000;

/// A planar position. Identity is positional: two points are the same point
/// exactly when both coordinates agree.
#[derive(Clone, Copy, PartialEq, Eq, Structural, Debug)]
pub struct Point {
    pub x: i64,
    pub y: i64,
}

pub open spec fn point_in_bounds(p: Point) -> bool {
    -COORD_LIMIT <= p.x <= COORD_LIMIT && -COORD_LIMIT <= p.y <= COORD_LIMIT
}

/// The squared Euclidean distance between two points.
pub open spec fn dist_sq(a: Point, b: Point) -> int {
    (a.x - b.x) * (a.x - b.x) + (a.y - b.y) * (a.y - b.y)
}

/// `r` is the Euclidean length `sqrt(n)`, rounded down to an integer.
pub open spec fn is_sqrt_floor(n: int, r: int) -> bool {
    0 <= r && r * r <= n && n < (r + 1) * (r + 1)
}

pub proof fn lemma_mul_mono(a: int, b: int, c: int, d: int)
    by (nonlinear_arith)
    requires
        0 <= a <= c,
        0 <= b <= d,
    ensures
        a * b <= c * d,
{
}

pub proof fn lemma_square_bounds(v: int, m: int)
    by (nonlinear_arith)
    requires
        -m <= v <= m,
        0 <= m,
    ensures
        0 <= v * v <= m * m,
{
}

/// The rounded-down square root of a number is unique.
pub proof fn lemma_sqrt_floor_unique(n: int, r1: int, r2: int)
    requires
        is_sqrt_floor(n, r1),
        is_sqrt_floor(n, r2),
    ensures
        r1 == r2,
{
    if r1 < r2 {
        lemma_mul_mono(r1 + 1, r1 + 1, r2, r2);
    }
    if r2 < r1 {
        lemma_mul_mono(r2 + 1, r2 + 1, r1, r1);
    }
}

/// The rounded-down square root of a nonnegative number, as a value.
pub open spec fn sqrt_floor_of(n: int) -> int {
    choose|r: int| is_sqrt_floor(n, r)
}

pub proof fn lemma_square_strict(a: int, b: int)
    by (nonlinear_arith)
    requires
        0 <= a < b,
    ensures
        a * a < b * b,
{
}

/// A nonnegative number has a rounded-down square root.
pub proof fn lemma_sqrt_floor_exists(n: int)
    requires
        0 <= n,
    ensures
        is_sqrt_floor(n, sqrt_floor_of(n)),
        0 <= sqrt_floor_of(n),
    decreases n,
{
    if n == 0 {
        assert((0 + 1) * (0 + 1) == 1) by (nonlinear_arith);
        assert(is_sqrt_floor(0, 0));
    } else {
        lemma_sqrt_floor_exists(n - 1);
        let r = sqrt_floor_of(n - 1);
        if (r + 1) * (r + 1) <= n {
            lemma_square_strict(r + 1, r + 2);
            assert(is_sqrt_floor(n, r + 1));
        } else {
            assert(is_sqrt_floor(n, r));
        }
    }
}

/// If `n < m * m` then the rounded-down root of `n` is below `m`.
pub proof fn lemma_sqrt_floor_below(n: int, r: int, m: int)
    requires
        is_sqrt_floor(n, r),
        n < m * m,
        0 <= m,
    ensures
        r < m,
{
    if r >= m {
        lemma_mul_mono(m, m, r, r);
    }
}

/// If `m * m <= n` then the rounded-down root of `n` is at least `m`.
pub proof fn lemma_sqrt_floor_at_least(n: int, r: int, m: int)
    requires
        is_sqrt_floor(n, r),
        m * m <= n,
        0 <= m,
    ensures
        r >= m,
{
    if r < m {
        lemma_mul_mono(r + 1, r + 1, m, m);
    }
}

pub proof fn lemma_dist_sq_nonneg(a: Point, b: Point)
    by (nonlinear_arith)
    ensures
        dist_sq(a, b) >= 0,
{
}

pub proof fn lemma_dist_sq_bounds(a: Point, b: Point)
    requires
        point_in_bounds(a),
        point_in_bounds(b),
    ensures
        0 <= dist_sq(a, b) <= 8_000_000_000_000_000_000,
{
    lemma_square_bounds(a.x - b.x, 2_000_000_000);
    lemma_square_bounds(a.y - b.y, 2_000_000_000);
}

/// The integer square root: the exact Euclidean length of a squared
/// distance, rounded down.
pub fn isqrt(n: u64) -> (r: u64)
    ensures
        is_sqrt_floor(n as int, r as int),
        r < 0x1_0000_0000u64,
{
    let mut lo: u64 = 0;
    let mut hi: u64 = 0x1_0000_0000;
    assert((0x1_0000_0000u64 as int) * (0x1_0000_0000u64 as int) == 0x1_0000_0000_0000_0000);
    while hi - lo > 1
        invariant
            lo < hi,
            hi <= 0x1_0000_0000u64,
            (lo as int) * (lo as int) <= n as int,
            (n as int) < (hi as int) * (hi as int),
        decreases hi - lo,
    {
        let mid: u64 = lo + (hi - lo) / 2;
        proof {
            lemma_square_bounds(mid as int, 0xFFFF_FFFF);
            assert(0xFFFF_FFFF * 0xFFFF_FFFF == 0xFFFF_FFFE_0000_0001);
        }
        if mid * mid <= n {
            lo = mid;
        } else {
            hi = mid;
        }
    }
    lo
}

/// The squared distance between two in-bounds points, exactly.
pub fn squared_distance(a: &Point, b: &Point) -> (d: u64)
    requires
        point_in_bounds(*a),
        point_in_bounds(*b),
    ensures
        d as int == dist_sq(*a, *b),
{
    let dx: i64 = a.x - b.x;
    let dy: i64 = a.y - b.y;
    proof {
        lemma_square_bounds(dx as int, 2_000_000_000);
        lemma_square_bounds(dy as int, 2_000_000_000);
    }
    let sx: i64 = dx * dx;
    let sy: i64 = dy * dy;
    (sx + sy) as u64
}

/// The Euclidean distance between two in-bounds points, rounded down.
pub fn euclid_distance(a: &Point, b: &Point) -> (d: u64)
    requires
        point_in_bounds(*a),
        point_in_bounds(*b),
    ensures
        is_sqrt_floor(dist_sq(*a, *b), d as int),
        d < MAX_SEPARATION,
{
    let sq: u64 = squared_distance(a, b);
    let d: u64 = isqrt(sq);
    proof {
        lemma_dist_sq_bounds(*a, *b);
        assert((MAX_SEPARATION as int) * (MAX_SEPARATION as int) == 9_000_000_000_000_000_000);
        lemma_sqrt_floor_below(sq as int, d as int, MAX_SEPARATION as int);
    }
    d
}

/// Whether two arbitrary points lie strictly within a squared distance of
/// `limit`. Accepts any coordinates; points too far apart for exact 64-bit
/// arithmetic are never within any `u64` limit.
pub fn within_squared(a: &Point, b: &Point, limit: u64) -> (r: bool)
    ensures
        r == (dist_sq(*a, *b) < limit as int),
{
    let dx: i128 = (a.x as i128) - (b.x as i128);
    let dy: i128 = (a.y as i128) - (b.y as i128);
    if dx > 5_000_000_000 || dx < -5_000_000_000 || dy > 5_000_000_000 || dy < -5_000_000_000 {
        proof {
            assert(5_000_000_000 * 5_000_000_000 == 25_000_000_000_000_000_000);
            if dx > 5_000_000_000 || dx < -5_000_000_000 {
                lemma_square_above(dx as int, 5_000_000_000);
            } else {
                lemma_square_above(dy as int, 5_000_000_000);
            }
            lemma_square_bounds(dx as int, 0x1_0000_0000_0000_0000);
            lemma_square_bounds(dy as int, 0x1_0000_0000_0000_0000);
        }
        return false;
    }
    proof {
        lemma_square_bounds(dx as int, 5_000_000_000);
        lemma_square_bounds(dy as int, 5_000_000_000);
        assert(5_000_000_000 * 5_000_000_000 == 25_000_000_000_000_000_000);
    }
    let sq: i128 = dx * dx + dy * dy;
    sq < limit as i128
}

/// A squared magnitude exceeds the square of any smaller bound.
pub proof fn lemma_square_above(v: int, m: int)
    by (nonlinear_arith)
    requires
        0 <= m,
        v > m || v < -m,
    ensures
        v * v > m * m,
{
}

} // verus!
