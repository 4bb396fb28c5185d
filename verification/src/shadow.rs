//! The shadow polygon cast by one light behind one obstacle, clipped to
//! the world: the convex hull of the obstacle's corners, their projections
//! onto the world boundary, and every world corner whose line of sight
//! from the light crosses the obstacle.

use vstd::prelude::*;
use crate::geom::{Point2, in_bounds, all_in_bounds, cross3, cross_points};
use crate::rect::{Rectangle, rect_vertices, rect_in_bounds};
use crate::boundary::{
    WorldBoundary, boundary_wf, strictly_inside, within, all_within, boundary_exit,
    intersect_boundary,
};
use crate::hull::{
    coords_of, points_of, hull_ring, segment_meets_ring, is_convex_ccw, convex_hull_ring,
    segment_meets_quad,
};
use crate::region::{ShadowPolygon, area2, poly_area2, clone_points, fully_convex};

verus! {

/// Why a shadow could not be built.
#[derive(Clone, Copy, Debug, PartialEq, Eq, Structural)]
pub enum ShadowError {
    /// The light lies in or on the obstacle, or the occluded set collapses
    /// to fewer than three distinct points: no well-defined shadow exists.
    DegenerateGeometry,
}

/// `p` lies in or on the obstacle rectangle: it is a corner, or it is on
/// the inner side of all four edges.  For a rectangle collapsed to a
/// segment or point, it is on the carrier line inside the corner box.
pub open spec fn light_in_rect(p: Point2, r: Rectangle) -> bool {
    let v = rect_vertices(r);
    let o = cross3(v[0], v[1], v[2]);
    ||| p == v[0]
    ||| p == v[1]
    ||| p == v[2]
    ||| p == v[3]
    ||| (o > 0 && cross3(v[0], v[1], p) >= 0 && cross3(v[1], v[2], p) >= 0
        && cross3(v[2], v[3], p) >= 0 && cross3(v[3], v[0], p) >= 0)
    ||| (o < 0 && cross3(v[0], v[1], p) <= 0 && cross3(v[1], v[2], p) <= 0
        && cross3(v[2], v[3], p) <= 0 && cross3(v[3], v[0], p) <= 0)
    ||| (o == 0 && cross3(v[0], v[2], p) == 0 && in_corner_box(p, v))
}

/// `p` lies in the axis-aligned box spanned by the four corners.
pub open spec fn in_corner_box(p: Point2, v: Seq<Point2>) -> bool {
    &&& exists|i: int| 0 <= i < 4 && (#[trigger] v[i]).x <= p.x
    &&& exists|i: int| 0 <= i < 4 && p.x <= (#[trigger] v[i]).x
    &&& exists|i: int| 0 <= i < 4 && (#[trigger] v[i]).y <= p.y
    &&& exists|i: int| 0 <= i < 4 && p.y <= (#[trigger] v[i]).y
}

/// Exact test of `light_in_rect`.
pub fn light_in_rect_exec(p: Point2, r: &Rectangle) -> (res: bool)
    requires
        in_bounds(p),
        rect_in_bounds(*r),
    ensures
        res == light_in_rect(p, *r),
{
    let v = r.vertices();
    if (p.x == v[0].x && p.y == v[0].y) || (p.x == v[1].x && p.y == v[1].y)
        || (p.x == v[2].x && p.y == v[2].y) || (p.x == v[3].x && p.y == v[3].y) {
        return true;
    }
    let o = cross_points(v[0], v[1], v[2]);
    let c01 = cross_points(v[0], v[1], p);
    let c12 = cross_points(v[1], v[2], p);
    let c23 = cross_points(v[2], v[3], p);
    let c30 = cross_points(v[3], v[0], p);
    if o > 0 {
        c01 >= 0 && c12 >= 0 && c23 >= 0 && c30 >= 0
    } else if o < 0 {
        c01 <= 0 && c12 <= 0 && c23 <= 0 && c30 <= 0
    } else {
        let c02 = cross_points(v[0], v[2], p);
        let bx = v[0].x <= p.x || v[1].x <= p.x || v[2].x <= p.x || v[3].x <= p.x;
        let by = p.x <= v[0].x || p.x <= v[1].x || p.x <= v[2].x || p.x <= v[3].x;
        let cx = v[0].y <= p.y || v[1].y <= p.y || v[2].y <= p.y || v[3].y <= p.y;
        let cy = p.y <= v[0].y || p.y <= v[1].y || p.y <= v[2].y || p.y <= v[3].y;
        c02 == 0 && bx && by && cx && cy
    }
}

/// The world boundary's four corners, in the order the hull input lists
/// them.
pub open spec fn world_corners(b: WorldBoundary) -> Seq<Point2> {
    seq![
        Point2 { x: b.max.x, y: b.max.y },
        Point2 { x: b.min.x, y: b.max.y },
        Point2 { x: b.min.x, y: b.min.y },
        Point2 { x: b.max.x, y: b.min.y },
    ]
}

/// Whether the line of sight from the light to `c` crosses the obstacle's
/// corner ring, as the trusted intersection test decides it.
pub open spec fn corner_occluded(light: Point2, c: Point2, v: Seq<Point2>) -> bool {
    segment_meets_ring((light.x as int, light.y as int), (c.x as int, c.y as int), coords_of(v))
}

/// The construction set of the shadow: the obstacle's four corners, their
/// projections away from the light onto the world boundary, and the world
/// corners occluded by the obstacle.
pub open spec fn shadow_points(light: Point2, r: Rectangle, b: WorldBoundary) -> Seq<Point2> {
    let v = rect_vertices(r);
    let w = world_corners(b);
    v + Seq::new(4, |i: int| boundary_exit(light, v[i], b))
        + (if corner_occluded(light, w[0], v) { seq![w[0]] } else { Seq::empty() })
        + (if corner_occluded(light, w[1], v) { seq![w[1]] } else { Seq::empty() })
        + (if corner_occluded(light, w[2], v) { seq![w[2]] } else { Seq::empty() })
        + (if corner_occluded(light, w[3], v) { seq![w[3]] } else { Seq::empty() })
}

/// The shadow polygon as a vertex ring, or the degenerate-geometry error:
/// degenerate when the light is in or on the obstacle, or when the hull of
/// the construction set has no positive area.
pub open spec fn spec_shadow_polygon(light: Point2, r: Rectangle, b: WorldBoundary) -> Result<
    Seq<Point2>,
    ShadowError,
> {
    if light_in_rect(light, r) {
        Err(ShadowError::DegenerateGeometry)
    } else {
        let ring = points_of(hull_ring(coords_of(shadow_points(light, r, b)))).drop_last();
        if ring.len() < 3 || area2(ring) <= 0 {
            Err(ShadowError::DegenerateGeometry)
        } else {
            Ok(ring)
        }
    }
}

/// The convex polygon of space occluded from `light` by `obstacle` within
/// the world `b`.  On success the polygon is convex, counter-clockwise,
/// has positive area, and every vertex lies within the world boundary.
/// The error comes exactly when the geometry is degenerate: the light in
/// or on the obstacle, or a hull with no area.
#[verifier::loop_isolation(false)]
pub fn shadow_polygon(light: Point2, obstacle: &Rectangle, b: &WorldBoundary) -> (r: Result<
    ShadowPolygon,
    ShadowError,
>)
    requires
        boundary_wf(*b),
        strictly_inside(light, *b),
        rect_in_bounds(*obstacle),
        all_within(rect_vertices(*obstacle), *b),
    ensures
        r is Ok <==> spec_shadow_polygon(light, *obstacle, *b) is Ok,
        r matches Ok(p) ==> {
            &&& p.pts@ == spec_shadow_polygon(light, *obstacle, *b)->Ok_0
            &&& all_within(p.pts@, *b)
            &&& all_in_bounds(p.pts@)
            &&& p.pts@.len() >= 3
            &&& is_convex_ccw(p.pts@)
            &&& fully_convex(p.pts@)
            &&& area2(p.pts@) > 0
        },
        r is Err ==> r == Result::<ShadowPolygon, ShadowError>::Err(ShadowError::DegenerateGeometry),
{
    let corners = obstacle.vertices();
    if light_in_rect_exec(light, obstacle) {
        return Err(ShadowError::DegenerateGeometry);
    }
    let mut pts = clone_points(&corners);
    let mut i: usize = 0;
    while i < 4
        invariant
            0 <= i <= 4,
            corners@ == rect_vertices(*obstacle),
            pts@ == corners@ + Seq::new(i as nat, |k: int| boundary_exit(light, corners@[k], *b)),
            all_within(pts@, *b),
            all_in_bounds(pts@),
        decreases 4 - i,
    {
        let through = corners[i];
        proof {
            assert(within(through, *b));
            assert(through != light);
        }
        let e = intersect_boundary(light, through, b);
        pts.push(e);
        proof {
            assert(pts@ =~= corners@ + Seq::new(
                (i + 1) as nat,
                |k: int| boundary_exit(light, corners@[k], *b),
            ));
        }
        i = i + 1;
    }
    let ghost base = pts@;
    let w0 = Point2 { x: b.max.x, y: b.max.y };
    let w1 = Point2 { x: b.min.x, y: b.max.y };
    let w2 = Point2 { x: b.min.x, y: b.min.y };
    let w3 = Point2 { x: b.max.x, y: b.min.y };
    let ghost p0 = if corner_occluded(light, w0, corners@) { seq![w0] } else { Seq::<Point2>::empty() };
    let ghost p1 = if corner_occluded(light, w1, corners@) { seq![w1] } else { Seq::<Point2>::empty() };
    let ghost p2 = if corner_occluded(light, w2, corners@) { seq![w2] } else { Seq::<Point2>::empty() };
    let ghost p3 = if corner_occluded(light, w3, corners@) { seq![w3] } else { Seq::<Point2>::empty() };
    if segment_meets_quad(light, w0, &corners) {
        pts.push(w0);
    }
    proof {
        assert(pts@ =~= base + p0);
    }
    if segment_meets_quad(light, w1, &corners) {
        pts.push(w1);
    }
    proof {
        assert(pts@ =~= base + p0 + p1);
    }
    if segment_meets_quad(light, w2, &corners) {
        pts.push(w2);
    }
    proof {
        assert(pts@ =~= base + p0 + p1 + p2);
    }
    if segment_meets_quad(light, w3, &corners) {
        pts.push(w3);
    }
    proof {
        assert(pts@ =~= base + p0 + p1 + p2 + p3);
        assert(pts@ =~= shadow_points(light, *obstacle, *b));
        assert(all_within(pts@, *b));
        assert(all_in_bounds(pts@));
    }
    let mut ring = convex_hull_ring(&pts);
    let ghost closed = ring@;
    let _last = ring.pop();
    proof {
        assert(ring@ =~= closed.drop_last());
    }
    if ring.len() < 3 {
        return Err(ShadowError::DegenerateGeometry);
    }
    proof {
        assert forall|k: int| 0 <= k < ring@.len() implies within(#[trigger] ring@[k], *b)
            && in_bounds(ring@[k]) by {
            assert(ring@[k] == closed[k]);
            assert(pts@.contains(closed[k]));
            let j = choose|j: int| 0 <= j < pts@.len() && pts@[j] == closed[k];
            assert(within(pts@[j], *b));
        }
    }
    let a = crate::region::poly_area2(&ring);
    if a <= 0 {
        return Err(ShadowError::DegenerateGeometry);
    }
    Ok(ShadowPolygon { pts: ring })
}

} // verus!
