use shadowcast::boundary::{intersect_boundary, WorldBoundary};
use shadowcast::geom::Point2;
use shadowcast::rect::Rectangle;

fn pt(x: i64, y: i64) -> Point2 {
    Point2 { x, y }
}

fn world() -> WorldBoundary {
    WorldBoundary { min: pt(-4800, -3600), max: pt(4800, 3600) }
}

#[test]
fn vertices_centroid_is_center() {
    // A rotated rectangle: half vectors (30, 40) and (-80, 60) are orthogonal.
    let r = Rectangle { center: pt(100, 200), half_w: pt(30, 40), half_h: pt(-80, 60) };
    let v = r.vertices();
    assert_eq!(v.len(), 4);
    let sx: i64 = v.iter().map(|p| p.x).sum();
    let sy: i64 = v.iter().map(|p| p.y).sum();
    assert_eq!(sx, 4 * 100);
    assert_eq!(sy, 4 * 200);
}

#[test]
fn vertices_side_lengths_match_extents() {
    let r = Rectangle { center: pt(-7, 13), half_w: pt(30, 40), half_h: pt(-80, 60) };
    let v = r.vertices();
    let sq = |a: Point2, b: Point2| -> i64 {
        (b.x - a.x) * (b.x - a.x) + (b.y - a.y) * (b.y - a.y)
    };
    // width^2 = (2 * |half_w|)^2 = 4 * (30^2 + 40^2); height^2 likewise.
    let width_sq = 4 * (30 * 30 + 40 * 40);
    let height_sq = 4 * (80 * 80 + 60 * 60);
    assert_eq!(sq(v[0], v[1]), width_sq);
    assert_eq!(sq(v[3], v[2]), width_sq);
    assert_eq!(sq(v[0], v[3]), height_sq);
    assert_eq!(sq(v[1], v[2]), height_sq);
}

#[test]
fn vertices_fixed_corner_order() {
    let r = Rectangle { center: pt(0, 0), half_w: pt(10, 0), half_h: pt(0, 20) };
    let v = r.vertices();
    assert_eq!((v[0].x, v[0].y), (-10, -20));
    assert_eq!((v[1].x, v[1].y), (10, -20));
    assert_eq!((v[2].x, v[2].y), (10, 20));
    assert_eq!((v[3].x, v[3].y), (-10, 20));
}

fn assert_on_perimeter(p: Point2, b: &WorldBoundary) {
    assert!(p.x == b.min.x || p.x == b.max.x || p.y == b.min.y || p.y == b.max.y);
    assert!(b.min.x <= p.x && p.x <= b.max.x);
    assert!(b.min.y <= p.y && p.y <= b.max.y);
}

#[test]
fn boundary_exit_lies_on_perimeter() {
    let b = world();
    let light = pt(4000, 0);
    for &through in &[
        pt(300, -1500),
        pt(300, -2500),
        pt(-300, -1500),
        pt(-300, -2500),
        pt(4000, 1),
        pt(4000, -1),
        pt(4001, 0),
        pt(3999, 0),
        pt(0, 3000),
        pt(-100, -100),
    ] {
        let e = intersect_boundary(light, through, &b);
        assert_on_perimeter(e, &b);
        // The exit continues in the ray's direction along each axis.
        assert!((e.x - light.x) * (through.x - light.x) >= 0);
        assert!((e.y - light.y) * (through.y - light.y) >= 0);
    }
}

#[test]
fn boundary_exit_axis_aligned_rays() {
    let b = world();
    let light = pt(0, 0);
    let right = intersect_boundary(light, pt(1, 0), &b);
    assert_eq!((right.x, right.y), (4800, 0));
    let up = intersect_boundary(light, pt(0, 5), &b);
    assert_eq!((up.x, up.y), (0, 3600));
    let left = intersect_boundary(light, pt(-2, 0), &b);
    assert_eq!((left.x, left.y), (-4800, 0));
    let down = intersect_boundary(light, pt(0, -9), &b);
    assert_eq!((down.x, down.y), (0, -3600));
}

#[test]
fn boundary_exit_exact_diagonal() {
    let b = WorldBoundary { min: pt(-100, -100), max: pt(100, 100) };
    // From the center through (1, 1): exits at the top-right corner.
    let e = intersect_boundary(pt(0, 0), pt(1, 1), &b);
    assert_eq!((e.x, e.y), (100, 100));
    // A shallower ray: through (2, 1) exits on the right wall at y = 50.
    let e2 = intersect_boundary(pt(0, 0), pt(2, 1), &b);
    assert_eq!((e2.x, e2.y), (100, 50));
}
