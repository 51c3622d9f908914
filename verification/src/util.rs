//! Small shared helpers: random draws for spawning, position wrap-around,
//! the palette, and the UI signal flags.

use vstd::prelude::*;
use crate::consts::{FP, WORLD_W, WORLD_H, HALF_TURN};
use crate::math::{Vec2i, abs_i, lemma_mul_bound, lemma_sq_nonneg, lemma_abs_sq,
    lemma_sq_le, lemma_sdiv_bound, lemma_sqrt_floor_is, div_to_zero, isqrt};
use crate::rng::random_i64_in;
use crate::kinetic::{dist2, center_dist, unit_from_x, unit_from_y, lemma_unit_from_near_unit};

verus! {

/// A uniformly drawn position inside the world rectangle.
pub fn random_position(x_max: i64, y_max: i64) -> (r: Vec2i)
    requires
        0 < x_max,
        0 < y_max,
    ensures
        0 <= r.x < x_max,
        0 <= r.y < y_max,
{
    let x = random_i64_in(0, x_max);
    let y = random_i64_in(0, y_max);
    Vec2i { x, y }
}

/// A random angle in `[0, 2 * HALF_TURN)` fixed-point radians.
pub fn random_rotation() -> (r: i64)
    ensures
        0 <= r < 2 * HALF_TURN,
{
    random_i64_in(0, 2 * HALF_TURN)
}

/// A random direction of near-unit length, in `FP`-scaled coordinates;
/// falls back to the positive x axis when the raw draw is the zero
/// vector, so the result's squared magnitude always stays within a few
/// parts per thousand of `FP` squared.
pub fn random_unit_vec2() -> (r: Vec2i)
    ensures
        abs_i(r.x as int) <= FP as int,
        abs_i(r.y as int) <= FP as int,
        FP * (FP - 4) <= r.x * r.x + r.y * r.y <= 3 * FP * FP,
{
    let a = random_i64_in(-FP, FP + 1);
    let b = random_i64_in(-FP, FP + 1);
    if a == 0 && b == 0 {
        proof {
            assert(FP as int * FP as int == 1_000_000) by (nonlinear_arith)
                requires
                    FP as int == 1000,
            ;
        }
        return Vec2i { x: FP, y: 0 };
    }
    proof {
        lemma_mul_bound(a as int, a as int, FP as int, FP as int);
        lemma_mul_bound(b as int, b as int, FP as int, FP as int);
        lemma_sq_nonneg(a as int);
        lemma_sq_nonneg(b as int);
    }
    let d2: i64 = a * a + b * b;
    let d: i64 = isqrt(d2 as u64) as i64;
    proof {
        lemma_sqrt_floor_is(d2 as int, d as int);
        lemma_abs_sq(a as int);
        lemma_abs_sq(b as int);
        if abs_i(a as int) > d as int {
            lemma_sq_le(d as int + 1, abs_i(a as int));
        }
        if abs_i(b as int) > d as int {
            lemma_sq_le(d as int + 1, abs_i(b as int));
        }
        assert(abs_i(a as int) <= d as int);
        assert(abs_i(b as int) <= d as int);
        assert(d >= 1) by {
            lemma_sq_nonneg(d as int);
        }
        lemma_mul_bound(a as int, FP as int, d as int, FP as int);
        lemma_mul_bound(b as int, FP as int, d as int, FP as int);
        lemma_sdiv_bound(a as int * FP as int, d as int, FP as int);
        lemma_sdiv_bound(b as int * FP as int, d as int, FP as int);
    }
    let x = div_to_zero(a * FP, d);
    let y = div_to_zero(b * FP, d);
    proof {
        let origin = Vec2i { x: 0, y: 0 };
        let drawn = Vec2i { x: a, y: b };
        assert(dist2(origin, drawn) == d2 as int);
        assert(center_dist(origin, drawn) == d as int);
        assert(x as int == unit_from_x(origin, drawn));
        assert(y as int == unit_from_y(origin, drawn));
        lemma_unit_from_near_unit(origin, drawn);
    }
    Vec2i { x, y }
}

/// The palette a random molecule is painted from.
#[derive(Clone, Copy, PartialEq, Eq, Structural, Debug)]
pub enum Color {
    Red,
    Green,
    Blue,
    Yellow,
    Orange,
    Gray,
    SkyBlue,
    Lime,
}

/// One of the eight palette colors, drawn uniformly.
pub fn random_color() -> Color {
    let c = random_i64_in(0, 8);
    if c == 0 {
        Color::Red
    } else if c == 1 {
        Color::Green
    } else if c == 2 {
        Color::Blue
    } else if c == 3 {
        Color::Yellow
    } else if c == 4 {
        Color::Orange
    } else if c == 5 {
        Color::Gray
    } else if c == 6 {
        Color::SkyBlue
    } else {
        Color::Lime
    }
}

/// Tolerance band around the world edge before a position wraps, in
/// fixed-point units (5 world units).
pub const WRAP_TOLERANCE: i64 = 5_000;

/// Where a point ends up after wrap-around at the world edges.
pub open spec fn spec_wrap_around(v: Vec2i) -> Vec2i {
    let x = if v.x > WORLD_W + WRAP_TOLERANCE {
        (-WRAP_TOLERANCE) as i64
    } else if v.x < -WRAP_TOLERANCE {
        (WORLD_W + WRAP_TOLERANCE) as i64
    } else {
        v.x
    };
    let y = if v.y > WORLD_H + WRAP_TOLERANCE {
        (-WRAP_TOLERANCE) as i64
    } else if v.y < -WRAP_TOLERANCE {
        (WORLD_H + WRAP_TOLERANCE) as i64
    } else {
        v.y
    };
    Vec2i { x, y }
}

/// Wrap a position around the world edges, with a small tolerance band so
/// an object fully leaves one side before it re-enters on the other.
pub fn wrap_around(v: &Vec2i) -> (r: Vec2i)
    ensures
        r == spec_wrap_around(*v),
{
    let mut vr = Vec2i { x: v.x, y: v.y };
    if vr.x > WORLD_W + WRAP_TOLERANCE {
        vr.x = 0 - WRAP_TOLERANCE;
    } else if vr.x < 0 - WRAP_TOLERANCE {
        vr.x = WORLD_W + WRAP_TOLERANCE;
    }
    if vr.y > WORLD_H + WRAP_TOLERANCE {
        vr.y = 0 - WRAP_TOLERANCE;
    } else if vr.y < 0 - WRAP_TOLERANCE {
        vr.y = WORLD_H + WRAP_TOLERANCE;
    }
    vr
}

/// Pending requests raised by the UI layer for the next frame.
pub struct Signals {
    pub spawn_molecule: bool,
    pub new_sim: bool,
    pub new_sim_name: String,
}

impl Signals {
    /// All signals cleared.
    pub fn new() -> (r: Signals)
        ensures
            !r.spawn_molecule,
            !r.new_sim,
            r.new_sim_name@ == Seq::<char>::empty(),
    {
        Signals { spawn_molecule: false, new_sim: false, new_sim_name: String::new() }
    }
}

} // verus!
