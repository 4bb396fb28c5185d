//! Per-frame aggregation: each light's shadow polygons are folded across
//! the obstacles into one region per light, then the per-light regions are
//! combined across lights — union for "in shadow of at least one light",
//! intersection for "in shadow of every light".

use vstd::prelude::*;
use crate::geom::Point2;
use crate::rect::{Rectangle, rect_vertices, rect_in_bounds};
use crate::boundary::{WorldBoundary, boundary_wf, strictly_inside, all_within};
use crate::region::{
    ShadowRegion, ShadowPolygon, region_view, region_wf, region_in_bounds, region_within,
    rings_wf, spec_region_union, spec_region_intersection, clone_points,
    polys_view,
};
use crate::shadow::{spec_shadow_polygon, shadow_polygon};

verus! {

/// The shadow region of one light over the first `n` obstacles: each
/// obstacle's shadow polygon unioned in.  A degenerate pair (light in or
/// on an obstacle, or a collapsed hull) contributes nothing: the pair is
/// skipped and the frame goes on, rather than aborting the aggregation.
pub open spec fn spec_light_region(
    light: Point2,
    obstacles: Seq<Rectangle>,
    b: WorldBoundary,
    n: int,
) -> Seq<Seq<Point2>>
    decreases n,
{
    if n <= 0 {
        Seq::empty()
    } else {
        let acc = spec_light_region(light, obstacles, b, n - 1);
        match spec_shadow_polygon(light, obstacles[n - 1], b) {
            Ok(ring) => spec_region_union(acc, seq![ring]),
            Err(_) => acc,
        }
    }
}

/// The union of the first `n` lights' shadow regions.
pub open spec fn spec_union_region(
    lights: Seq<Point2>,
    obstacles: Seq<Rectangle>,
    b: WorldBoundary,
    n: int,
) -> Seq<Seq<Point2>>
    decreases n,
{
    if n <= 0 {
        Seq::empty()
    } else {
        spec_region_union(
            spec_union_region(lights, obstacles, b, n - 1),
            spec_light_region(lights[n - 1], obstacles, b, obstacles.len() as int),
        )
    }
}

/// The intersection of the first `n` lights' shadow regions (`n >= 1`).
pub open spec fn spec_intersection_region(
    lights: Seq<Point2>,
    obstacles: Seq<Rectangle>,
    b: WorldBoundary,
    n: int,
) -> Seq<Seq<Point2>>
    decreases n,
{
    if n <= 1 {
        spec_light_region(lights[0], obstacles, b, obstacles.len() as int)
    } else {
        spec_region_intersection(
            spec_intersection_region(lights, obstacles, b, n - 1),
            spec_light_region(lights[n - 1], obstacles, b, obstacles.len() as int),
        )
    }
}

/// Both composite regions: union over lights, intersection over lights.
pub open spec fn spec_aggregate(
    lights: Seq<Point2>,
    obstacles: Seq<Rectangle>,
    b: WorldBoundary,
) -> (Seq<Seq<Point2>>, Seq<Seq<Point2>>) {
    (
        spec_union_region(lights, obstacles, b, lights.len() as int),
        spec_intersection_region(lights, obstacles, b, lights.len() as int),
    )
}

/// With no obstacles every per-light region is empty, and so are both
/// composite regions.
pub proof fn lemma_aggregate_empty_obstacles(
    lights: Seq<Point2>,
    obstacles: Seq<Rectangle>,
    b: WorldBoundary,
    n: int,
)
    requires
        obstacles.len() == 0,
        0 <= n,
    ensures
        spec_union_region(lights, obstacles, b, n) == Seq::<Seq<Point2>>::empty(),
        n >= 1 ==> spec_intersection_region(lights, obstacles, b, n) == Seq::<
            Seq<Point2>,
        >::empty(),
    decreases n,
{
    if n > 0 {
        lemma_aggregate_empty_obstacles(lights, obstacles, b, n - 1);
    }
}

/// Aggregation is deterministic: the composite regions are a function of
/// the lights, the obstacles and the boundary alone, so two aggregations
/// of identical inputs yield identical regions.
pub proof fn lemma_aggregate_deterministic(
    lights: Seq<Point2>,
    obstacles: Seq<Rectangle>,
    b: WorldBoundary,
    r1: (Seq<Seq<Point2>>, Seq<Seq<Point2>>),
    r2: (Seq<Seq<Point2>>, Seq<Seq<Point2>>),
)
    requires
        r1 == spec_aggregate(lights, obstacles, b),
        r2 == spec_aggregate(lights, obstacles, b),
    ensures
        r1 == r2,
{
}

/// Compute both composite shadow regions for the frame: the union region
/// ("in shadow of at least one light") and the intersection region ("in
/// shadow of every light").  With no obstacles both regions are empty.
/// Every vertex of both regions lies within the world boundary.
#[verifier::loop_isolation(false)]
pub fn aggregate(lights: &Vec<Point2>, obstacles: &Vec<Rectangle>, b: &WorldBoundary) -> (r: (
    ShadowRegion,
    ShadowRegion,
))
    requires
        boundary_wf(*b),
        lights@.len() >= 1,
        forall|i: int| 0 <= i < lights@.len() ==> strictly_inside(#[trigger] lights@[i], *b),
        forall|i: int| 0 <= i < obstacles@.len() ==> rect_in_bounds(#[trigger] obstacles@[i])
            && all_within(rect_vertices(obstacles@[i]), *b),
    ensures
        region_view(r.0) == spec_aggregate(lights@, obstacles@, *b).0,
        region_view(r.1) == spec_aggregate(lights@, obstacles@, *b).1,
        region_wf(r.0),
        region_wf(r.1),
        region_within(r.0, *b),
        region_within(r.1, *b),
        obstacles@.len() == 0 ==> region_view(r.0) == Seq::<Seq<Point2>>::empty()
            && region_view(r.1) == Seq::<Seq<Point2>>::empty(),
{
    let mut per_light: Vec<ShadowRegion> = Vec::new();
    let mut li: usize = 0;
    while li < lights.len()
        invariant
            0 <= li <= lights@.len(),
            per_light@.len() == li,
            forall|t: int| 0 <= t < li ==> region_view(#[trigger] per_light@[t])
                == spec_light_region(lights@[t], obstacles@, *b, obstacles@.len() as int),
            forall|t: int| 0 <= t < li ==> region_wf(#[trigger] per_light@[t])
                && region_within(per_light@[t], *b),
        decreases lights@.len() - li,
    {
        let light = lights[li];
        let mut acc = ShadowRegion::empty();
        let mut oi: usize = 0;
        while oi < obstacles.len()
            invariant
                0 <= oi <= obstacles@.len(),
                region_view(acc) == spec_light_region(light, obstacles@, *b, oi as int),
                region_wf(acc),
                region_within(acc, *b),
            decreases obstacles@.len() - oi,
        {
            match shadow_polygon(light, &obstacles[oi], b) {
                Ok(p) => {
                    let ghost ring = p.pts@;
                    let single = ShadowRegion::from_polygon(p);
                    proof {
                        assert(region_view(single) =~= seq![ring]);
                        assert(region_wf(single));
                        assert(region_within(single, *b));
                    }
                    acc = acc.scaled_union(&single);
                },
                Err(_) => {},
            }
            oi = oi + 1;
        }
        per_light.push(acc);
        li = li + 1;
    }
    let mut uni = ShadowRegion::empty();
    let mut t: usize = 0;
    while t < per_light.len()
        invariant
            0 <= t <= per_light@.len(),
            region_view(uni) == spec_union_region(lights@, obstacles@, *b, t as int),
            region_wf(uni),
            region_within(uni, *b),
        decreases per_light@.len() - t,
    {
        uni = uni.scaled_union(&per_light[t]);
        t = t + 1;
    }
    let mut inter = clone_region(&per_light[0]);
    let mut s: usize = 1;
    while s < per_light.len()
        invariant
            1 <= s <= per_light@.len(),
            region_view(inter) == spec_intersection_region(lights@, obstacles@, *b, s as int),
            region_wf(inter),
            region_within(inter, *b),
        decreases per_light@.len() - s,
    {
        proof {
            assert(region_in_bounds(inter)) by {
                assert forall|k: int| 0 <= k < region_view(inter).len()
                    implies crate::geom::all_in_bounds(#[trigger] region_view(inter)[k]) by {
                    assert(rings_wf(region_view(inter)));
                }
            }
            assert(region_in_bounds(per_light@[s as int])) by {
                assert forall|k: int| 0 <= k < region_view(per_light@[s as int]).len()
                    implies crate::geom::all_in_bounds(
                    #[trigger] region_view(per_light@[s as int])[k],
                ) by {
                    assert(rings_wf(region_view(per_light@[s as int])));
                }
            }
        }
        inter = inter.scaled_intersection(&per_light[s]);
        s = s + 1;
    }
    proof {
        if obstacles@.len() == 0 {
            lemma_aggregate_empty_obstacles(lights@, obstacles@, *b, lights@.len() as int);
        }
    }
    (uni, inter)
}

/// A polygon-for-polygon copy of a region.
fn clone_region(r: &ShadowRegion) -> (c: ShadowRegion)
    ensures
        region_view(c) == region_view(*r),
        c.polys@.len() == r.polys@.len(),
{
    let mut polys: Vec<ShadowPolygon> = Vec::new();
    let mut i: usize = 0;
    while i < r.polys.len()
        invariant
            0 <= i <= r.polys@.len(),
            polys_view(polys@) == region_view(*r).subrange(0, i as int),
            polys@.len() == i,
        decreases r.polys@.len() - i,
    {
        polys.push(ShadowPolygon { pts: clone_points(&r.polys[i].pts) });
        proof {
            assert(polys_view(polys@) =~= region_view(*r).subrange(0, i + 1));
        }
        i = i + 1;
    }
    let c = ShadowRegion { polys };
    proof {
        assert(region_view(c) =~= region_view(*r));
    }
    c
}

} // verus!
