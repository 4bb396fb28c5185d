use shadowcast::boundary::WorldBoundary;
use shadowcast::geom::Point2;
use shadowcast::rect::Rectangle;
use shadowcast::region::{poly_area2, ShadowRegion};
use shadowcast::shadow::{shadow_polygon, ShadowError};

fn pt(x: i64, y: i64) -> Point2 {
    Point2 { x, y }
}

/// The world of the demo scene at snapping scale 10:
/// (-480, -360)-(480, 360) in world units.
fn world() -> WorldBoundary {
    WorldBoundary { min: pt(-4800, -3600), max: pt(4800, 3600) }
}

/// An axis-aligned obstacle of size 60x100 centered at (0, -200), scale 10.
fn demo_obstacle() -> Rectangle {
    Rectangle { center: pt(0, -2000), half_w: pt(300, 0), half_h: pt(0, 500) }
}

fn cross(a: Point2, b: Point2, c: Point2) -> i64 {
    (b.x - a.x) * (c.y - a.y) - (b.y - a.y) * (c.x - a.x)
}

fn assert_convex_ccw(pts: &[Point2]) {
    let n = pts.len();
    assert!(n >= 3);
    for i in 0..n {
        assert!(cross(pts[i], pts[(i + 1) % n], pts[(i + 2) % n]) >= 0);
    }
}

fn assert_within(pts: &[Point2], b: &WorldBoundary) {
    for p in pts {
        assert!(b.min.x <= p.x && p.x <= b.max.x);
        assert!(b.min.y <= p.y && p.y <= b.max.y);
    }
}

fn region_area2(r: &ShadowRegion) -> i128 {
    r.polys.iter().map(|p| poly_area2(&p.pts)).sum()
}

#[test]
fn shadow_is_convex_and_inside_world() {
    let b = world();
    let obstacle = demo_obstacle();
    let p = shadow_polygon(pt(4000, 0), &obstacle, &b).unwrap();
    assert_convex_ccw(&p.pts);
    assert_within(&p.pts, &b);
}

#[test]
fn demo_scene_shadow_shape() {
    // One light at (400, 0), the 60x100 obstacle at (0, -200), scale 10:
    // the shadow's near edge holds the obstacle's corners and its far edge
    // reaches the left wall at x = -4800.
    let b = world();
    let p = shadow_polygon(pt(4000, 0), &demo_obstacle(), &b).unwrap();
    let mut got: Vec<(i64, i64)> = p.pts.iter().map(|q| (q.x, q.y)).collect();
    got.sort();
    let mut expect = vec![
        (300, -1500),    // obstacle corner toward the light, top
        (300, -2500),    // obstacle corner toward the light, bottom
        (-300, -1500),   // obstacle corner away from the light, top silhouette
        (-4800, -3069),  // its projection on the left wall
        (-4800, -3600),  // occluded world corner
        (-1328, -3600),  // projection of the bottom near corner on the floor
    ];
    expect.sort();
    assert_eq!(got, expect);
    assert!(p.pts.iter().all(|q| q.x <= 300));
    assert!(p.pts.iter().any(|q| q.x == -4800));
    // No vertex on the light's side of the world: the intersection test
    // must have rejected the three visible world corners.
    assert!(p.pts.iter().all(|q| q.x != 4800));
}

#[test]
fn light_inside_obstacle_is_degenerate() {
    let b = world();
    let obstacle = demo_obstacle();
    // The obstacle's center is inside it.
    let r = shadow_polygon(pt(0, -2000), &obstacle, &b);
    assert_eq!(r, Err(ShadowError::DegenerateGeometry));
    // A corner counts as inside too.
    let r2 = shadow_polygon(pt(300, -1500), &obstacle, &b);
    assert_eq!(r2, Err(ShadowError::DegenerateGeometry));
}

#[test]
fn union_with_self_keeps_area() {
    // A region unioned with itself must not change its area: every piece
    // of the second copy lies inside the first and is dropped.
    let b = world();
    let p = shadow_polygon(pt(4000, 0), &demo_obstacle(), &b).unwrap();
    let single = ShadowRegion::from_polygon(p);
    let once = ShadowRegion::empty().scaled_union(&single);
    let twice = once.scaled_union(&single);
    assert_eq!(region_area2(&once), region_area2(&twice));
    assert_eq!(once, twice);
}

#[test]
fn union_of_disjoint_shadows_adds_areas() {
    let b = world();
    let left = Rectangle { center: pt(-3000, 0), half_w: pt(100, 0), half_h: pt(0, 100) };
    let right = Rectangle { center: pt(3000, 0), half_w: pt(100, 0), half_h: pt(0, 100) };
    let pl = shadow_polygon(pt(0, 0), &left, &b).unwrap();
    let pr = shadow_polygon(pt(0, 0), &right, &b).unwrap();
    let rl = ShadowRegion::from_polygon(pl);
    let rr = ShadowRegion::from_polygon(pr);
    let both = rl.scaled_union(&rr);
    // Cut points are snapped to the integer grid, so allow a small
    // rounding slack, far below one percent of the areas involved.
    let diff = region_area2(&both) - (region_area2(&rl) + region_area2(&rr));
    assert!(diff.abs() <= 100_000, "area drift {diff}");
}

#[test]
fn intersection_of_disjoint_shadows_is_empty() {
    let b = world();
    let left = Rectangle { center: pt(-3000, 0), half_w: pt(100, 0), half_h: pt(0, 100) };
    let right = Rectangle { center: pt(3000, 0), half_w: pt(100, 0), half_h: pt(0, 100) };
    let pl = shadow_polygon(pt(0, 0), &left, &b).unwrap();
    let pr = shadow_polygon(pt(0, 0), &right, &b).unwrap();
    let rl = ShadowRegion::from_polygon(pl);
    let rr = ShadowRegion::from_polygon(pr);
    let inter = rl.scaled_intersection(&rr);
    assert_eq!(region_area2(&inter), 0);
}

#[test]
fn collapsed_obstacle_still_casts_a_shadow() {
    // A rectangle with zero height is a segment; seen from above it still
    // occludes a two-dimensional region of the world.
    let b = world();
    let segment = Rectangle { center: pt(0, 0), half_w: pt(100, 0), half_h: pt(0, 0) };
    let p = shadow_polygon(pt(0, 2000), &segment, &b).unwrap();
    assert_convex_ccw(&p.pts);
    assert_within(&p.pts, &b);
    assert!(poly_area2(&p.pts) > 0);
    // The shadow hangs below the segment.
    assert!(p.pts.iter().all(|q| q.y <= 0));
}

#[test]
fn light_on_collapsed_obstacle_is_degenerate() {
    let b = world();
    let segment = Rectangle { center: pt(0, 0), half_w: pt(100, 0), half_h: pt(0, 0) };
    let r = shadow_polygon(pt(50, 0), &segment, &b);
    assert_eq!(r, Err(ShadowError::DegenerateGeometry));
}
