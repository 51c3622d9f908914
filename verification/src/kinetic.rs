//! Circle-circle contact geometry and the per-frame collision map.
//!
//! `contact_circles` is the narrow-phase primitive: given two circles it
//! reports the separation between their surfaces (negative when they
//! overlap), the contact point on the first circle, and the contact normal
//! pointing from the first circle toward the second, scaled by `FP`.

use vstd::prelude::*;
use crate::consts::{FP, POS_LIMIT, RADIUS_LIMIT};
use crate::math::{Vec2i, abs_i, lemma_sq_nonneg, lemma_abs_sq, lemma_sqrt_floor_exists,
    lemma_sdiv_abs_div, lemma_div_sq_bounds, sdiv, sqrt_floor, lemma_mul_bound, lemma_sq_le, lemma_sdiv_bound, lemma_sqrt_floor_is, div_to_zero, isqrt};

verus! {

/// Square of an integer.
pub open spec fn sq(a: int) -> int {
    a * a
}

/// Squared distance between two points.
pub open spec fn dist2(p1: Vec2i, p2: Vec2i) -> int {
    sq(p2.x - p1.x) + sq(p2.y - p1.y)
}

/// Fixed-point floor of the distance between two points.
pub open spec fn center_dist(p1: Vec2i, p2: Vec2i) -> int {
    sqrt_floor(dist2(p1, p2))
}

/// Two circles overlap when their centers are closer than the sum of the
/// radii.
pub open spec fn circles_overlap(p1: Vec2i, r1: int, p2: Vec2i, r2: int) -> bool {
    dist2(p1, p2) < sq(r1 + r2)
}

/// Separation between the circles' surfaces: negative when they overlap.
pub open spec fn circles_sep(p1: Vec2i, r1: int, p2: Vec2i, r2: int) -> int {
    center_dist(p1, p2) - (r1 + r2)
}

/// X component of the `FP`-scaled unit vector from `p1` toward `p2`;
/// zero when the centers coincide (the degenerate-geometry fallback).
pub open spec fn unit_from_x(p1: Vec2i, p2: Vec2i) -> int {
    let d = center_dist(p1, p2);
    if d == 0 {
        0
    } else {
        sdiv((p2.x - p1.x) * FP, d)
    }
}

/// Y component of the `FP`-scaled unit vector from `p1` toward `p2`.
pub open spec fn unit_from_y(p1: Vec2i, p2: Vec2i) -> int {
    let d = center_dist(p1, p2);
    if d == 0 {
        0
    } else {
        sdiv((p2.y - p1.y) * FP, d)
    }
}

/// A point is inside the world's coordinate range.
pub open spec fn in_coord_range(p: Vec2i) -> bool {
    &&& -POS_LIMIT <= p.x <= POS_LIMIT
    &&& -POS_LIMIT <= p.y <= POS_LIMIT
}

/// A legal collider radius.
pub open spec fn valid_radius(r: int) -> bool {
    0 < r <= RADIUS_LIMIT
}

/// The result of a circle-circle contact query.
#[derive(Clone, Copy, PartialEq, Eq, Structural, Debug)]
pub struct Contact {
    /// Point on the first circle's surface toward the second circle.
    pub point1: Vec2i,
    /// `FP`-scaled unit normal from the first circle toward the second.
    pub normal1: Vec2i,
    /// Separation between the surfaces; negative means penetration.
    pub dist: i64,
}

/// Contact between two circles. Returns `None` when the circles are
/// disjoint (touching counts as disjoint), and the contact data exactly
/// when they overlap; the rotations do not affect a circle's shape.
#[allow(unused_variables)]
pub fn contact_circles(pos1: Vec2i, rot1: i64, rad1: i64, pos2: Vec2i, rot2: i64, rad2: i64) -> (r:
    Option<Contact>)
    requires
        in_coord_range(pos1),
        in_coord_range(pos2),
        valid_radius(rad1 as int),
        valid_radius(rad2 as int),
    ensures
        r.is_some() <==> circles_overlap(pos1, rad1 as int, pos2, rad2 as int),
        r matches Some(c) ==> {
            &&& c.dist == circles_sep(pos1, rad1 as int, pos2, rad2 as int)
            &&& c.dist < 0
            &&& c.normal1.x == unit_from_x(pos1, pos2)
            &&& c.normal1.y == unit_from_y(pos1, pos2)
            &&& c.point1.x == pos1.x + sdiv(unit_from_x(pos1, pos2) * rad1, FP as int)
            &&& c.point1.y == pos1.y + sdiv(unit_from_y(pos1, pos2) * rad1, FP as int)
        },
{
    let dx: i64 = pos2.x - pos1.x;
    let dy: i64 = pos2.y - pos1.y;
    proof {
        lemma_mul_bound(dx as int, dx as int, 2 * POS_LIMIT, 2 * POS_LIMIT);
        lemma_mul_bound(dy as int, dy as int, 2 * POS_LIMIT, 2 * POS_LIMIT);
        lemma_mul_bound(dx as int, dx as int, abs_i(dx as int), abs_i(dx as int));
        lemma_mul_bound(dy as int, dy as int, abs_i(dy as int), abs_i(dy as int));
        lemma_sq_nonneg(dx as int);
        lemma_sq_nonneg(dy as int);
    }
    let d2: i64 = dx * dx + dy * dy;
    let sum: i64 = rad1 + rad2;
    proof {
        lemma_mul_bound(sum as int, sum as int, 2 * RADIUS_LIMIT, 2 * RADIUS_LIMIT);
    }
    if d2 >= sum * sum {
        proof {
            assert(!circles_overlap(pos1, rad1 as int, pos2, rad2 as int));
        }
        return None;
    }
    let d: i64 = isqrt(d2 as u64) as i64;
    proof {
        lemma_sqrt_floor_is(d2 as int, d as int);
        // overlap implies the rounded distance is below the radius sum
        assert(sq(d as int) <= d2 < sq(sum as int));
        if d >= sum {
            lemma_sq_le(sum as int, d as int);
        }
        assert(d < sum);
    }
    let dist: i64 = d - sum;
    let (nx, ny): (i64, i64) = if d == 0 {
        (0i64, 0i64)
    } else {
        proof {
            // |dx| <= d, so the scaled quotient is at most FP
            lemma_abs_sq(dx as int);
            lemma_abs_sq(dy as int);
            if abs_i(dx as int) > d as int {
                lemma_sq_le(d as int + 1, abs_i(dx as int));
            }
            if abs_i(dy as int) > d as int {
                lemma_sq_le(d as int + 1, abs_i(dy as int));
            }
            assert(abs_i(dx as int) <= d as int);
            assert(abs_i(dy as int) <= d as int);
            lemma_mul_bound(dx as int, FP as int, d as int, FP as int);
            lemma_mul_bound(dy as int, FP as int, d as int, FP as int);
            lemma_sdiv_bound(dx as int * FP as int, d as int, FP as int);
            lemma_sdiv_bound(dy as int * FP as int, d as int, FP as int);
        }
        (div_to_zero(dx * FP, d), div_to_zero(dy * FP, d))
    };
    proof {
        assert(abs_i(nx as int) <= FP as int);
        assert(abs_i(ny as int) <= FP as int);
        lemma_mul_bound(nx as int, rad1 as int, FP as int, RADIUS_LIMIT as int);
        lemma_mul_bound(ny as int, rad1 as int, FP as int, RADIUS_LIMIT as int);
        lemma_sdiv_bound(nx as int * rad1 as int, FP as int, RADIUS_LIMIT as int);
        lemma_sdiv_bound(ny as int * rad1 as int, FP as int, RADIUS_LIMIT as int);
    }
    let px: i64 = pos1.x + div_to_zero(nx * rad1, FP);
    let py: i64 = pos1.y + div_to_zero(ny * rad1, FP);
    Some(
        Contact {
            point1: Vec2i { x: px, y: py },
            normal1: Vec2i { x: nx, y: ny },
            dist,
        },
    )
}

/// Point-circle test: true exactly when the point lies strictly inside the
/// circle.
pub fn contact_mouse(point: Vec2i, pos2: Vec2i, rad2: i64) -> (r: bool)
    requires
        in_coord_range(point),
        in_coord_range(pos2),
        valid_radius(rad2 as int),
    ensures
        r <==> dist2(point, pos2) < sq(rad2 as int),
{
    let dx: i64 = pos2.x - point.x;
    let dy: i64 = pos2.y - point.y;
    proof {
        lemma_mul_bound(dx as int, dx as int, 2 * POS_LIMIT, 2 * POS_LIMIT);
        lemma_mul_bound(dy as int, dy as int, 2 * POS_LIMIT, 2 * POS_LIMIT);
        lemma_mul_bound(rad2 as int, rad2 as int, RADIUS_LIMIT as int, RADIUS_LIMIT as int);
    }
    dx * dx + dy * dy < rad2 * rad2
}

/// What kind of object a `Hit` was scored against.
#[derive(Clone, Copy, PartialEq, Eq, Structural, Debug)]
pub enum ObjectType {
    Agent,
    Obstacle,
    Action,
    Dynamic,
}

/// A transient per-frame collision record: the contact normal, the raw
/// (negative) separation, and the kind of object hit.
#[derive(Clone, Copy, PartialEq, Eq, Structural, Debug)]
pub struct Hit {
    pub normal: Vec2i,
    pub overlap: i64,
    pub target_type: ObjectType,
}

/// The most recent hit recorded for `id`, scanning entries from newest to
/// oldest: the "last write wins" rule of the collision map.
pub open spec fn last_hit(s: Seq<(u64, Hit)>, id: u64) -> Option<Hit>
    decreases s.len(),
{
    if s.len() == 0 {
        None
    } else if s.last().0 == id {
        Some(s.last().1)
    } else {
        last_hit(s.drop_last(), id)
    }
}

/// A per-frame mapping from entity identity to the most recently recorded
/// hit for that entity. Rebuilt from scratch every frame; later records for
/// the same key overwrite earlier ones.
pub struct CollisionsMap {
    records: Vec<(u64, Hit)>,
}

impl CollisionsMap {
    /// The recorded (key, hit) entries in insertion order.
    pub closed spec fn records_seq(self) -> Seq<(u64, Hit)> {
        self.records@
    }

    /// An empty map.
    pub fn new() -> (r: CollisionsMap)
        ensures
            r.records_seq() == Seq::<(u64, Hit)>::empty(),
    {
        CollisionsMap { records: Vec::new() }
    }

    /// Record a hit for `id`, shadowing any earlier record for the same key.
    pub fn add_collision(&mut self, id: u64, hit: Hit)
        ensures
            final (self).records_seq() == old(self).records_seq().push((id, hit)),
    {
        self.records.push((id, hit));
    }

    /// The most recent hit recorded for `id`, if any.
    pub fn get_collision(&self, id: u64) -> (r: Option<Hit>)
        ensures
            r == last_hit(self.records_seq(), id),
    {
        let mut i: usize = self.records.len();
        proof {
            assert(self.records@.take(self.records@.len() as int) =~= self.records@);
        }
        while i > 0
            invariant
                i <= self.records@.len(),
                last_hit(self.records@, id) == last_hit(self.records@.take(i as int), id),
            decreases i,
        {
            i = i - 1;
            let entry = self.records[i];
            if entry.0 == id {
                proof {
                    assert(self.records@.take(i as int + 1).last() == self.records@[i as int]);
                }
                return Some(entry.1);
            }
            proof {
                assert(self.records@.take(i as int + 1).drop_last() =~= self.records@.take(
                    i as int,
                ));
            }
        }
        proof {
            assert(self.records@.take(0).len() == 0);
        }
        None
    }
}

/// Each component of the `FP`-scaled contact normal is at most `FP` in
/// magnitude.
pub proof fn lemma_unit_from_bounds(p1: Vec2i, p2: Vec2i)
    ensures
        abs_i(unit_from_x(p1, p2)) <= FP as int,
        abs_i(unit_from_y(p1, p2)) <= FP as int,
{
    let dx = p2.x - p1.x as int;
    let dy = p2.y - p1.y as int;
    let d2 = dist2(p1, p2);
    lemma_sq_nonneg(dx);
    lemma_sq_nonneg(dy);
    lemma_sqrt_floor_exists(d2);
    let d = center_dist(p1, p2);
    if d != 0 {
        lemma_abs_sq(dx);
        lemma_abs_sq(dy);
        if abs_i(dx) > d {
            lemma_sq_le(d + 1, abs_i(dx));
        }
        if abs_i(dy) > d {
            lemma_sq_le(d + 1, abs_i(dy));
        }
        assert(abs_i(dx) <= d);
        assert(abs_i(dy) <= d);
        lemma_mul_bound(dx, FP as int, d, FP as int);
        lemma_mul_bound(dy, FP as int, d, FP as int);
        lemma_sdiv_bound(dx * FP, d, FP as int);
        lemma_sdiv_bound(dy * FP, d, FP as int);
    }
}

/// Contact detection is decided by the radius sum: circles whose centers
/// are at least the radius sum apart never overlap, while overlapping
/// circles score a strictly negative separation - the fixed-point floor
/// of the center distance minus the radius sum, never deeper than the
/// radius sum itself - and a contact normal bounded by unit length in
/// each component.
pub proof fn lemma_contact_detection(p1: Vec2i, r1: int, p2: Vec2i, r2: int)
    requires
        0 < r1,
        0 < r2,
    ensures
        dist2(p1, p2) >= sq(r1 + r2) ==> !circles_overlap(p1, r1, p2, r2),
        circles_overlap(p1, r1, p2, r2) ==> -(r1 + r2) <= circles_sep(p1, r1, p2, r2) < 0,
        abs_i(unit_from_x(p1, p2)) <= FP as int,
        abs_i(unit_from_y(p1, p2)) <= FP as int,
{
    lemma_unit_from_bounds(p1, p2);
    let d2 = dist2(p1, p2);
    lemma_sq_nonneg(p2.x - p1.x as int);
    lemma_sq_nonneg(p2.y - p1.y as int);
    lemma_sqrt_floor_exists(d2);
    let d = center_dist(p1, p2);
    if circles_overlap(p1, r1, p2, r2) {
        if d >= r1 + r2 {
            lemma_sq_le(r1 + r2, d);
        }
        assert(d < r1 + r2);
    }
}


/// For distinct points the `FP`-scaled contact normal is close to unit
/// length: its squared magnitude stays within a few parts per thousand of
/// `FP` squared from below and within a factor given by the fixed-point
/// floor of the distance from above.
pub proof fn lemma_unit_from_near_unit(p1: Vec2i, p2: Vec2i)
    requires
        p1 != p2,
    ensures
        ({
            let nx = unit_from_x(p1, p2);
            let ny = unit_from_y(p1, p2);
            FP * (FP - 4) <= nx * nx + ny * ny <= 3 * FP * FP
        }),
{
    let dx = p2.x - p1.x as int;
    let dy = p2.y - p1.y as int;
    let d2 = dist2(p1, p2);
    lemma_sq_nonneg(dx);
    lemma_sq_nonneg(dy);
    lemma_abs_sq(dx);
    lemma_abs_sq(dy);
    lemma_sqrt_floor_exists(d2);
    let d = center_dist(p1, p2);
    if dx == 0 && dy == 0 {
        assert(p1 == p2);
    }
    if dx != 0 {
        lemma_sq_le(1, abs_i(dx));
    }
    if dy != 0 {
        lemma_sq_le(1, abs_i(dy));
    }
    assert(d2 >= 1);
    assert(d >= 1) by {
        if d == 0 {
            assert(d2 < (0 + 1) * (0 + 1));
        }
    }
    if abs_i(dx) > d {
        lemma_sq_le(d + 1, abs_i(dx));
    }
    if abs_i(dy) > d {
        lemma_sq_le(d + 1, abs_i(dy));
    }
    let adx = abs_i(dx);
    let ady = abs_i(dy);
    let ax = adx * FP;
    let ay = ady * FP;
    let nx = unit_from_x(p1, p2);
    let ny = unit_from_y(p1, p2);
    // the normal components' magnitudes are the scaled quotients
    lemma_sdiv_abs_div(dx * FP, d);
    lemma_sdiv_abs_div(dy * FP, d);
    assert(abs_i(dx * FP) == ax) by (nonlinear_arith)
        requires
            adx == abs_i(dx),
            ax == adx * FP,
            FP >= 1,
    ;
    assert(abs_i(dy * FP) == ay) by (nonlinear_arith)
        requires
            ady == abs_i(dy),
            ay == ady * FP,
            FP >= 1,
    ;
    let qx = ax / d;
    let qy = ay / d;
    assert(abs_i(nx) == qx);
    assert(abs_i(ny) == qy);
    lemma_abs_sq(nx);
    lemma_abs_sq(ny);
    assert(nx * nx == qx * qx && ny * ny == qy * qy);
    let s = nx * nx + ny * ny;
    assert(ax >= 0 && ay >= 0) by (nonlinear_arith)
        requires
            adx >= 0,
            ady >= 0,
            ax == adx * FP,
            ay == ady * FP,
            FP >= 1,
    ;
    lemma_div_sq_bounds(ax, d);
    lemma_div_sq_bounds(ay, d);
    // squared magnitudes of the scaled differences
    assert(ax * ax == dx * dx * (FP * FP) && ay * ay == dy * dy * (FP * FP)) by (nonlinear_arith)
        requires
            adx * adx == dx * dx,
            ady * ady == dy * dy,
            ax == adx * FP,
            ay == ady * FP,
    ;
    // upper bound
    assert(s * (d * d) <= ax * ax + ay * ay) by (nonlinear_arith)
        requires
            s == qx * qx + qy * qy,
            qx * qx * (d * d) <= ax * ax,
            qy * qy * (d * d) <= ay * ay,
    ;
    assert(ax * ax + ay * ay == d2 * (FP * FP)) by (nonlinear_arith)
        requires
            ax * ax == dx * dx * (FP * FP),
            ay * ay == dy * dy * (FP * FP),
            d2 == dx * dx + dy * dy,
    ;
    assert(d2 <= d * d + 2 * d) by (nonlinear_arith)
        requires
            d2 < (d + 1) * (d + 1),
    ;
    assert(s * (d * d) <= (3 * FP * FP) * (d * d)) by (nonlinear_arith)
        requires
            s * (d * d) <= d2 * (FP * FP),
            d2 <= d * d + 2 * d,
            d >= 1,
            FP >= 1,
    ;
    assert(s <= 3 * FP * FP) by (nonlinear_arith)
        requires
            s * (d * d) <= (3 * FP * FP) * (d * d),
            d >= 1,
    ;
    // lower bound
    assert(s * (d * d) >= (ax - d) * (ax - d) + (ay - d) * (ay - d) - 2 * (d * d))
        by (nonlinear_arith)
        requires
            s == qx * qx + qy * qy,
            qx * qx * (d * d) >= (ax - d) * (ax - d) - d * d,
            qy * qy * (d * d) >= (ay - d) * (ay - d) - d * d,
    ;
    assert(ax <= d * FP && ay <= d * FP) by (nonlinear_arith)
        requires
            adx <= d,
            ady <= d,
            ax == adx * FP,
            ay == ady * FP,
            FP >= 1,
    ;
    assert((ax - d) * (ax - d) + (ay - d) * (ay - d) - 2 * (d * d) >= (FP * (FP - 4)) * (d * d))
        by (nonlinear_arith)
        requires
            ax * ax + ay * ay == d2 * (FP * FP),
            d * d <= d2,
            ax <= d * FP,
            ay <= d * FP,
            ax >= 0,
            ay >= 0,
            d >= 1,
            FP >= 4,
    ;
    assert(s >= FP * (FP - 4)) by (nonlinear_arith)
        requires
            s * (d * d) >= (FP * (FP - 4)) * (d * d),
            d >= 1,
    ;
}

} // verus!
