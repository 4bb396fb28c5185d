//! The world boundary and the ray caster that finds where a ray leaving a
//! light through a given point first exits the boundary.

use vstd::prelude::*;
use crate::geom::{Point2, in_bounds, trunc_div, div_trunc_i128, lemma_trunc_div_between};

verus! {

/// The axis-aligned rectangular extent of the world, `min` strictly below
/// and left of `max`.
#[derive(Clone, Copy, Debug, PartialEq, Eq, Structural)]
pub struct WorldBoundary {
    pub min: Point2,
    pub max: Point2,
}

/// A well-formed boundary: corners in bounds and a nonempty interior.
pub open spec fn boundary_wf(b: WorldBoundary) -> bool {
    &&& in_bounds(b.min)
    &&& in_bounds(b.max)
    &&& b.min.x < b.max.x
    &&& b.min.y < b.max.y
}

/// `p` lies strictly inside `b`.
pub open spec fn strictly_inside(p: Point2, b: WorldBoundary) -> bool {
    &&& b.min.x < p.x < b.max.x
    &&& b.min.y < p.y < b.max.y
}

/// `p` lies within `b`, its edges included.
pub open spec fn within(p: Point2, b: WorldBoundary) -> bool {
    &&& b.min.x <= p.x <= b.max.x
    &&& b.min.y <= p.y <= b.max.y
}

/// Every point of `s` lies within `b`.
pub open spec fn all_within(s: Seq<Point2>, b: WorldBoundary) -> bool {
    forall|i: int| 0 <= i < s.len() ==> within(#[trigger] s[i], b)
}

/// `p` lies on the perimeter of `b`: within it, and on one of its edges.
pub open spec fn on_perimeter(p: Point2, b: WorldBoundary) -> bool {
    &&& within(p, b)
    &&& (p.x == b.min.x || p.x == b.max.x || p.y == b.min.y || p.y == b.max.y)
}

pub open spec fn iabs(a: int) -> int {
    if a >= 0 {
        a
    } else {
        -a
    }
}

/// The ray from `light` through `through` reaches the vertical wall it is
/// heading toward before the horizontal one.  A zero `x` component means the
/// vertical wall is never hit; a zero `y` component means the horizontal
/// wall is never hit.
pub open spec fn exits_vertical_wall(light: Point2, through: Point2, b: WorldBoundary) -> bool {
    let dx = through.x - light.x;
    let dy = through.y - light.y;
    let sx = if dx < 0 { light.x - b.min.x } else { b.max.x - light.x };
    let ty = if dy < 0 { light.y - b.min.y } else { b.max.y - light.y };
    if dx == 0 {
        false
    } else if dy == 0 {
        true
    } else {
        sx * iabs(dy) < ty * iabs(dx)
    }
}

/// The point where the ray from `light` through `through` first exits `b`:
/// the nearer of the two walls the ray is heading toward, with the
/// remaining coordinate found by similar triangles and truncated.
pub open spec fn boundary_exit(light: Point2, through: Point2, b: WorldBoundary) -> Point2 {
    let dx = through.x - light.x;
    let dy = through.y - light.y;
    if exits_vertical_wall(light, through, b) {
        let wall = if dx < 0 { b.min.x } else { b.max.x };
        let sx = if dx < 0 { light.x - b.min.x } else { b.max.x - light.x };
        Point2 { x: wall, y: (light.y + trunc_div(dy * sx, iabs(dx))) as i64 }
    } else {
        let wall = if dy < 0 { b.min.y } else { b.max.y };
        let ty = if dy < 0 { light.y - b.min.y } else { b.max.y - light.y };
        Point2 { x: (light.x + trunc_div(dx * ty, iabs(dy))) as i64, y: wall }
    }
}

/// The numerator of the off-axis coordinate stays between the two wall
/// offsets, so the truncated quotient will land inside the slab.
proof fn lemma_exit_num_between(d: int, s: int, aw: int, ad: int, lo: int, hi: int)
    by (nonlinear_arith)
    requires
        0 < aw,
        0 <= s,
        lo <= 0,
        0 <= hi,
        d >= 0 ==> ad == d,
        d < 0 ==> ad == -d,
        d > 0 ==> s * ad <= hi * aw,
        d < 0 ==> s * ad <= (-lo) * aw,
    ensures
        lo * aw <= d * s <= hi * aw,
        d >= 0 ==> 0 <= d * s,
        d < 0 ==> d * s <= 0,
{
}

/// Where the ray starting at `light` and passing through `through` first
/// exits `b`.  The result lies exactly on the perimeter: one coordinate
/// equals a wall value and the other stays within the perpendicular range.
/// The exit also lies on the ray's side of the light along each axis.
pub fn intersect_boundary(light: Point2, through: Point2, b: &WorldBoundary) -> (r: Point2)
    requires
        boundary_wf(*b),
        strictly_inside(light, *b),
        in_bounds(through),
        through != light,
    ensures
        r == boundary_exit(light, through, *b),
        on_perimeter(r, *b),
        (r.x - light.x) * (through.x - light.x) >= 0,
        (r.y - light.y) * (through.y - light.y) >= 0,
{
    let dx = through.x - light.x;
    let dy = through.y - light.y;
    let adx = if dx < 0 { -dx } else { dx };
    let ady = if dy < 0 { -dy } else { dy };
    let sx = if dx < 0 { light.x - b.min.x } else { b.max.x - light.x };
    let ty = if dy < 0 { light.y - b.min.y } else { b.max.y - light.y };
    proof {
        assert(sx * ady <= 0x1000000000000000 && ty * adx <= 0x1000000000000000
            && sx * ady >= 0 && ty * adx >= 0) by (nonlinear_arith)
            requires
                0 <= sx <= 0x40000000,
                0 <= ty <= 0x40000000,
                0 <= adx <= 0x40000000,
                0 <= ady <= 0x40000000,
        ;
    }
    let vfirst = if dx == 0 {
        false
    } else if dy == 0 {
        true
    } else {
        sx * ady < ty * adx
    };
    if vfirst {
        let wall = if dx < 0 { b.min.x } else { b.max.x };
        let ghost lo = b.min.y - light.y as int;
        let ghost hi = b.max.y - light.y as int;
        proof {
            lemma_exit_num_between(dy as int, sx as int, adx as int, ady as int, lo, hi);
            lemma_trunc_div_between(dy * sx, adx as int, lo, hi);
            assert((dy as int) * (sx as int) <= 0x1000000000000000
                && (dy as int) * (sx as int) >= -0x1000000000000000) by (nonlinear_arith)
                requires
                    -0x40000000 <= dy <= 0x40000000,
                    0 <= sx <= 0x40000000,
            ;
        }
        let q128 = div_trunc_i128((dy as i128) * (sx as i128), adx as i128);
        let q = q128 as i64;
        let r = Point2 { x: wall, y: light.y + q };
        proof {
            assert((r.x - light.x) * (through.x - light.x) >= 0) by (nonlinear_arith)
                requires
                    dx == through.x - light.x,
                    dx < 0 ==> r.x - light.x <= 0,
                    dx >= 0 ==> r.x - light.x >= 0,
            ;
            assert((r.y - light.y) * (through.y - light.y) >= 0) by (nonlinear_arith)
                requires
                    dy == through.y - light.y,
                    r.y - light.y == trunc_div(dy * sx, adx as int),
                    dy >= 0 ==> 0 <= dy * sx,
                    dy < 0 ==> dy * sx <= 0,
                    0 <= dy * sx ==> 0 <= trunc_div(dy * sx, adx as int),
                    dy * sx <= 0 ==> trunc_div(dy * sx, adx as int) <= 0,
                    dy >= 0 ==> dy * sx >= 0,
            ;
        }
        r
    } else {
        let wall = if dy < 0 { b.min.y } else { b.max.y };
        let ghost lo = b.min.x - light.x as int;
        let ghost hi = b.max.x - light.x as int;
        proof {
            lemma_exit_num_between(dx as int, ty as int, ady as int, adx as int, lo, hi);
            lemma_trunc_div_between(dx * ty, ady as int, lo, hi);
            assert((dx as int) * (ty as int) <= 0x1000000000000000
                && (dx as int) * (ty as int) >= -0x1000000000000000) by (nonlinear_arith)
                requires
                    -0x40000000 <= dx <= 0x40000000,
                    0 <= ty <= 0x40000000,
            ;
        }
        let q128 = div_trunc_i128((dx as i128) * (ty as i128), ady as i128);
        let q = q128 as i64;
        let r = Point2 { x: light.x + q, y: wall };
        proof {
            assert((r.y - light.y) * (through.y - light.y) >= 0) by (nonlinear_arith)
                requires
                    dy == through.y - light.y,
                    dy < 0 ==> r.y - light.y <= 0,
                    dy >= 0 ==> r.y - light.y >= 0,
            ;
            assert((r.x - light.x) * (through.x - light.x) >= 0) by (nonlinear_arith)
                requires
                    dx == through.x - light.x,
                    r.x - light.x == trunc_div(dx * ty, ady as int),
                    dx >= 0 ==> 0 <= dx * ty,
                    dx < 0 ==> dx * ty <= 0,
                    0 <= dx * ty ==> 0 <= trunc_div(dx * ty, ady as int),
                    dx * ty <= 0 ==> trunc_div(dx * ty, ady as int) <= 0,
            ;
        }
        r
    }
}

} // verus!
