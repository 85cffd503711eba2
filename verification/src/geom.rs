//! Fixed-point 3D vectors and axis-aligned box arithmetic.

use vstd::arithmetic::div_mod::lemma_hoist_over_denominator;
use vstd::prelude::*;

verus! {

/// Every coordinate handled by the builder lies in `[-COORD_LIMIT, COORD_LIMIT]`.
/// The bound (2^60) leaves room for sums and differences of two coordinates in `i64`.
pub const COORD_LIMIT: i64 = 0x1000_0000_0000_0000;

#[derive(Clone, Copy, Debug, PartialEq, Eq, Structural)]
pub struct Vec3 {
    pub x: i64,
    pub y: i64,
    pub z: i64,
}

#[derive(Clone, Copy, Debug, PartialEq, Eq, Structural)]
pub struct Vec2 {
    pub x: i64,
    pub y: i64,
}

pub open spec fn coord_in_range(c: int) -> bool {
    -(COORD_LIMIT as int) <= c <= COORD_LIMIT as int
}

pub open spec fn vec_in_range(v: Vec3) -> bool {
    coord_in_range(v.x as int) && coord_in_range(v.y as int) && coord_in_range(v.z as int)
}

/// Component of `v` along axis `a` (0 = x, 1 = y, everything else = z).
pub open spec fn axis_of(v: Vec3, a: int) -> int {
    if a == 0 {
        v.x as int
    } else if a == 1 {
        v.y as int
    } else {
        v.z as int
    }
}

pub open spec fn component_min(a: Vec3, b: Vec3) -> Vec3 {
    Vec3 {
        x: if a.x <= b.x { a.x } else { b.x },
        y: if a.y <= b.y { a.y } else { b.y },
        z: if a.z <= b.z { a.z } else { b.z },
    }
}

pub open spec fn component_max(a: Vec3, b: Vec3) -> Vec3 {
    Vec3 {
        x: if a.x >= b.x { a.x } else { b.x },
        y: if a.y >= b.y { a.y } else { b.y },
        z: if a.z >= b.z { a.z } else { b.z },
    }
}

/// Midpoint of two coordinates, rounded towards negative infinity.
pub open spec fn midpoint(a: int, b: int) -> int {
    (a + b) / 2
}

/// The centre a box must carry: the componentwise midpoint of its corners.
pub open spec fn centre_of(min_corner: Vec3, max_corner: Vec3) -> Vec3 {
    Vec3 {
        x: midpoint(min_corner.x as int, max_corner.x as int) as i64,
        y: midpoint(min_corner.y as int, max_corner.y as int) as i64,
        z: midpoint(min_corner.z as int, max_corner.z as int) as i64,
    }
}

pub open spec fn in_box(p: Vec3, min_corner: Vec3, max_corner: Vec3) -> bool {
    &&& min_corner.x <= p.x <= max_corner.x
    &&& min_corner.y <= p.y <= max_corner.y
    &&& min_corner.z <= p.z <= max_corner.z
}

/// Midpoint of two in-range coordinates, rounded towards negative infinity.
pub fn mid_coord(a: i64, b: i64) -> (m: i64)
    requires
        coord_in_range(a as int),
        coord_in_range(b as int),
    ensures
        m as int == midpoint(a as int, b as int),
        coord_in_range(m as int),
{
    if a <= b {
        let d: i64 = b - a;
        let h: i64 = ((d as u64) / 2) as i64;
        proof {
            lemma_hoist_over_denominator(d as int, a as int, 2);
        }
        a + h
    } else {
        let d: i64 = a - b;
        let h: i64 = ((d as u64) / 2) as i64;
        proof {
            lemma_hoist_over_denominator(d as int, b as int, 2);
        }
        b + h
    }
}

/// Componentwise midpoint of two in-range corners.
pub fn mid_vec(a: &Vec3, b: &Vec3) -> (m: Vec3)
    requires
        vec_in_range(*a),
        vec_in_range(*b),
    ensures
        m == centre_of(*a, *b),
        vec_in_range(m),
{
    Vec3 { x: mid_coord(a.x, b.x), y: mid_coord(a.y, b.y), z: mid_coord(a.z, b.z) }
}

} // verus!
