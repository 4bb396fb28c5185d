//! Trusted calls into the geo crate: the convex hull of a point set, and
//! the segment-against-polygon intersection test.  Both run on `i64`
//! coordinates, where geo's `SimpleKernel` evaluates every orientation
//! predicate exactly; the coordinate bound of this library keeps all of
//! geo's internal products inside `i64`.

use vstd::prelude::*;
use geo::ConvexHull;
use geo::Intersects;
use crate::geom::{Point2, in_bounds, all_in_bounds, cross3};
use crate::region::fully_convex;

verus! {

/// The vertices as bare coordinate pairs, the form the trusted contracts
/// below speak of.
pub open spec fn coords_of(s: Seq<Point2>) -> Seq<(int, int)> {
    s.map(|i: int, p: Point2| (p.x as int, p.y as int))
}

/// Coordinate pairs read back as points.
pub open spec fn points_of(s: Seq<(int, int)>) -> Seq<Point2> {
    s.map(|i: int, c: (int, int)| Point2 { x: c.0 as i64, y: c.1 as i64 })
}

/// The ring's vertex at cyclic position `i`.
pub open spec fn cyc(s: Seq<Point2>, i: int) -> Point2 {
    s[i % (s.len() as int)]
}

/// Every consecutive triple of the ring, taken cyclically, turns left or
/// goes straight: the ring is convex with counter-clockwise winding.
pub open spec fn is_convex_ccw(s: Seq<Point2>) -> bool {
    forall|i: int| 0 <= i < s.len()
        ==> #[trigger] cross3(cyc(s, i), cyc(s, i + 1), cyc(s, i + 2)) >= 0
}

/// What geo's quick hull returns for a sequence of points: the hull as a
/// closed ring of coordinate pairs.
pub uninterp spec fn hull_ring(pts: Seq<(int, int)>) -> Seq<(int, int)>;

/// Whether geo finds the segment from `a` to `b` to meet the polygon with
/// the given ring, on an edge or in the interior.
pub uninterp spec fn segment_meets_ring(a: (int, int), b: (int, int), ring: Seq<(int, int)>) -> bool;

/// Relies on geo's `ConvexHull` (quick hull) for `MultiPoint<i64>`: the
/// result is the convex hull of the input points, a closed
/// counter-clockwise ring (first vertex repeated at the end) whose
/// vertices are input points.  A hull of three or more vertices is a
/// convex polygon: every vertex lies on the left of every directed edge,
/// and no two consecutive vertices coincide.
#[verifier::external_body]
pub fn convex_hull_ring(pts: &Vec<Point2>) -> (r: Vec<Point2>)
    requires
        pts@.len() >= 1,
        all_in_bounds(pts@),
    ensures
        r@ == points_of(hull_ring(coords_of(pts@))),
        r@.len() >= 2,
        r@[0] == r@[r@.len() - 1],
        forall|i: int| 0 <= i < r@.len() ==> pts@.contains(#[trigger] r@[i]),
        is_convex_ccw(r@.drop_last()),
        r@.len() >= 4 ==> fully_convex(r@.drop_last()),
{
    let mp: geo::MultiPoint<i64> = pts.iter().map(|p| geo::Point::new(p.x, p.y)).collect();
    let hull = mp.convex_hull();
    hull.exterior().coords().map(|c| Point2 { x: c.x, y: c.y }).collect()
}

/// Relies on geo's `Intersects` for `Polygon<i64>` against `Line<i64>`:
/// whether the segment from `a` to `b` meets the polygon closed over the
/// given ring, on its boundary or in its interior.
#[verifier::external_body]
pub fn segment_meets_quad(a: Point2, b: Point2, ring: &Vec<Point2>) -> (r: bool)
    requires
        in_bounds(a),
        in_bounds(b),
        all_in_bounds(ring@),
    ensures
        r == segment_meets_ring(
            (a.x as int, a.y as int),
            (b.x as int, b.y as int),
            coords_of(ring@),
        ),
{
    let ls: geo::LineString<i64> = ring.iter().map(|p| geo::Coord { x: p.x, y: p.y }).collect();
    let poly = geo::Polygon::new(ls, vec![]);
    poly.intersects(&geo::Line::new(geo::Coord { x: a.x, y: a.y }, geo::Coord { x: b.x, y: b.y }))
}

} // verus!
