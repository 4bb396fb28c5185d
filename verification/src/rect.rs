//! Oriented rectangles and their four corner points.
//!
//! A rectangle is stored as its center together with the two half-edge
//! vectors `half_w` and `half_h`: the images of the half-extent offsets
//! `(w/2, 0)` and `(0, h/2)` under the rectangle's rotation.  Keeping the
//! rotated offsets as integer vectors makes every corner exact; callers
//! that start from a width, height and angle scale and round the two
//! vectors once on the way in.

use vstd::prelude::*;
use crate::geom::{Point2, in_bounds, all_in_bounds};

verus! {

/// An oriented rectangle: center plus rotated half-extent vectors.
/// For a true (non-sheared) rectangle the two vectors are orthogonal;
/// none of the geometry below depends on it.
#[derive(Clone, Copy, Debug, PartialEq, Eq, Structural)]
pub struct Rectangle {
    pub center: Point2,
    pub half_w: Point2,
    pub half_h: Point2,
}

/// The four corners, in the fixed order bottom-left, bottom-right,
/// top-right, top-left of the rectangle's local frame.
pub open spec fn rect_vertices(r: Rectangle) -> Seq<Point2> {
    seq![
        Point2 {
            x: (r.center.x - r.half_w.x - r.half_h.x) as i64,
            y: (r.center.y - r.half_w.y - r.half_h.y) as i64,
        },
        Point2 {
            x: (r.center.x + r.half_w.x - r.half_h.x) as i64,
            y: (r.center.y + r.half_w.y - r.half_h.y) as i64,
        },
        Point2 {
            x: (r.center.x + r.half_w.x + r.half_h.x) as i64,
            y: (r.center.y + r.half_w.y + r.half_h.y) as i64,
        },
        Point2 {
            x: (r.center.x - r.half_w.x + r.half_h.x) as i64,
            y: (r.center.y - r.half_w.y + r.half_h.y) as i64,
        },
    ]
}

/// The rectangle's fields and corners stay within the coordinate
/// magnitude the library accepts, so corner arithmetic is exact.
pub open spec fn rect_in_bounds(r: Rectangle) -> bool {
    &&& in_bounds(r.center)
    &&& in_bounds(r.half_w)
    &&& in_bounds(r.half_h)
    &&& all_in_bounds(rect_vertices(r))
}

impl Rectangle {
    /// The four corner points of the rectangle, bottom-left first, in the
    /// winding fixed by `rect_vertices`.
    pub fn vertices(&self) -> (v: Vec<Point2>)
        requires
            rect_in_bounds(*self),
        ensures
            v@ == rect_vertices(*self),
            v@.len() == 4,
            all_in_bounds(v@),
    {
        let c = self.center;
        let w = self.half_w;
        let h = self.half_h;
        let mut v: Vec<Point2> = Vec::new();
        v.push(Point2 { x: c.x - w.x - h.x, y: c.y - w.y - h.y });
        v.push(Point2 { x: c.x + w.x - h.x, y: c.y + w.y - h.y });
        v.push(Point2 { x: c.x + w.x + h.x, y: c.y + w.y + h.y });
        v.push(Point2 { x: c.x - w.x + h.x, y: c.y - w.y + h.y });
        proof {
            assert(v@ =~= rect_vertices(*self));
        }
        v
    }
}

/// Squared length of the rectangle's full width edge.
pub open spec fn width_sq(r: Rectangle) -> int {
    4 * (r.half_w.x * r.half_w.x + r.half_w.y * r.half_w.y)
}

/// Squared length of the rectangle's full height edge.
pub open spec fn height_sq(r: Rectangle) -> int {
    4 * (r.half_h.x * r.half_h.x + r.half_h.y * r.half_h.y)
}

pub open spec fn seg_len_sq(a: Point2, b: Point2) -> int {
    (b.x - a.x) * (b.x - a.x) + (b.y - a.y) * (b.y - a.y)
}

/// The four corners average exactly back to the center, and the four side
/// lengths match the rectangle's width and height whatever the rotation:
/// both bottom and top sides have squared length `width_sq`, both left and
/// right sides `height_sq`.
pub proof fn lemma_vertices_centroid_and_sides(r: Rectangle)
    requires
        rect_in_bounds(r),
    ensures
        rect_vertices(r)[0].x + rect_vertices(r)[1].x + rect_vertices(r)[2].x
            + rect_vertices(r)[3].x == 4 * r.center.x,
        rect_vertices(r)[0].y + rect_vertices(r)[1].y + rect_vertices(r)[2].y
            + rect_vertices(r)[3].y == 4 * r.center.y,
        seg_len_sq(rect_vertices(r)[0], rect_vertices(r)[1]) == width_sq(r),
        seg_len_sq(rect_vertices(r)[3], rect_vertices(r)[2]) == width_sq(r),
        seg_len_sq(rect_vertices(r)[0], rect_vertices(r)[3]) == height_sq(r),
        seg_len_sq(rect_vertices(r)[1], rect_vertices(r)[2]) == height_sq(r),
{
    let v = rect_vertices(r);
    assert(v[1].x - v[0].x == 2 * r.half_w.x && v[1].y - v[0].y == 2 * r.half_w.y);
    assert(v[2].x - v[3].x == 2 * r.half_w.x && v[2].y - v[3].y == 2 * r.half_w.y);
    assert(v[3].x - v[0].x == 2 * r.half_h.x && v[3].y - v[0].y == 2 * r.half_h.y);
    assert(v[2].x - v[1].x == 2 * r.half_h.x && v[2].y - v[1].y == 2 * r.half_h.y);
    assert((2 * r.half_w.x) * (2 * r.half_w.x) + (2 * r.half_w.y) * (2 * r.half_w.y)
        == 4 * (r.half_w.x * r.half_w.x + r.half_w.y * r.half_w.y)) by (nonlinear_arith);
    assert((2 * r.half_h.x) * (2 * r.half_h.x) + (2 * r.half_h.y) * (2 * r.half_h.y)
        == 4 * (r.half_h.x * r.half_h.x + r.half_h.y * r.half_h.y)) by (nonlinear_arith);
}

} // verus!
