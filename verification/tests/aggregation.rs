use shadowcast::aggregate::aggregate;
use shadowcast::boundary::WorldBoundary;
use shadowcast::geom::Point2;
use shadowcast::rect::Rectangle;
use shadowcast::region::{poly_area2, ShadowRegion};

fn pt(x: i64, y: i64) -> Point2 {
    Point2 { x, y }
}

fn world() -> WorldBoundary {
    WorldBoundary { min: pt(-4800, -3600), max: pt(4800, 3600) }
}

fn centered_obstacle() -> Rectangle {
    Rectangle { center: pt(0, 0), half_w: pt(300, 0), half_h: pt(0, 500) }
}

fn region_area2(r: &ShadowRegion) -> i128 {
    r.polys.iter().map(|p| poly_area2(&p.pts)).sum()
}

#[test]
fn aggregate_is_deterministic() {
    let b = world();
    let lights = vec![pt(4000, 0), pt(-4000, 100)];
    let obstacles = vec![
        centered_obstacle(),
        Rectangle { center: pt(-500, 500), half_w: pt(25, 43), half_h: pt(-1299, 750) },
    ];
    let first = aggregate(&lights, &obstacles, &b);
    let second = aggregate(&lights, &obstacles, &b);
    assert_eq!(first.0, second.0);
    assert_eq!(first.1, second.1);
}

#[test]
fn aggregate_no_obstacles_is_empty() {
    let b = world();
    let lights = vec![pt(4000, 0), pt(-4000, 0), pt(0, 3000)];
    let obstacles: Vec<Rectangle> = Vec::new();
    let (union_region, intersection_region) = aggregate(&lights, &obstacles, &b);
    assert!(union_region.polys.is_empty());
    assert!(intersection_region.polys.is_empty());
}

#[test]
fn two_lights_compose_from_single_light_regions() {
    // The union region equals the per-light regions unioned, and the
    // intersection region is their geometric overlap.
    let b = world();
    let obstacles = vec![centered_obstacle()];
    let l1 = pt(4000, 0);
    let l2 = pt(-4000, 0);
    let r1 = aggregate(&vec![l1], &obstacles, &b).0;
    let r2 = aggregate(&vec![l2], &obstacles, &b).0;
    let (union_region, intersection_region) = aggregate(&vec![l1, l2], &obstacles, &b);
    let folded = ShadowRegion::empty().scaled_union(&r1).scaled_union(&r2);
    assert_eq!(union_region, folded);
    let overlap = r1.scaled_intersection(&r2);
    assert_eq!(intersection_region, overlap);
}

#[test]
fn opposite_lights_overlap_only_on_the_obstacle() {
    // Lights on opposite sides of a centered obstacle cast shadows in
    // opposite directions; both shadows still cover the obstacle itself,
    // so the intersection is the footprint plus the two small lens
    // triangles above and below it where the silhouette rays of the two
    // lights cross (they meet at roughly y = 540 for the 600x1000
    // obstacle with lights at x = -4000 and x = 4000, adding about
    // 2 * 24300 to the doubled area).
    let b = world();
    let obstacles = vec![centered_obstacle()];
    let (union_region, intersection_region) =
        aggregate(&vec![pt(4000, 0), pt(-4000, 0)], &obstacles, &b);
    let footprint2: i128 = 2 * 600 * 1000;
    let inter_area = region_area2(&intersection_region);
    assert!(inter_area >= footprint2, "intersection lost the footprint");
    assert!(inter_area <= footprint2 + 50_000, "intersection too large");
    assert!(region_area2(&union_region) >= inter_area);
}

#[test]
fn intersection_area_never_exceeds_union_area() {
    let b = world();
    let scenes: Vec<Vec<Point2>> = vec![
        vec![pt(4000, 0)],
        vec![pt(4000, 0), pt(-4000, 0)],
        vec![pt(4000, 0), pt(-4000, 100), pt(0, 3000)],
    ];
    let obstacles = vec![
        centered_obstacle(),
        Rectangle { center: pt(-3500, -2500), half_w: pt(100, 100), half_h: pt(-250, 250) },
    ];
    for lights in scenes {
        let (union_region, intersection_region) = aggregate(&lights, &obstacles, &b);
        assert!(region_area2(&intersection_region) <= region_area2(&union_region));
    }
}
