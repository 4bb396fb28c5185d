//! Shadow polygons, shadow regions, and the boolean engine that combines
//! them.
//!
//! The engine works directly on snapped integer coordinates, so every
//! predicate it evaluates (cross product signs, areas) is exact; the only
//! rounding is the truncation of clip intersection points back onto the
//! integer grid, and a truncated point never leaves the bounding box of the
//! edge it lies on.  Union keeps regions as disjoint convex pieces: a new
//! polygon is added as the fan of pieces of it that lie outside the pieces
//! already present.

use vstd::prelude::*;
use crate::geom::{
    Point2, in_bounds, all_in_bounds, cross3, cross_points, trunc_div, div_trunc_i128,
    lemma_trunc_div_between,
};
use crate::boundary::{WorldBoundary, within, all_within};

verus! {

/// One convex polygon of occluded space: an ordered ring of vertices,
/// counter-clockwise, no holes.
#[derive(Clone, Debug, PartialEq, Eq)]
pub struct ShadowPolygon {
    pub pts: Vec<Point2>,
}

/// A set of disjoint-by-construction polygons forming a combined shadow
/// area.
#[derive(Clone, Debug, PartialEq, Eq)]
pub struct ShadowRegion {
    pub polys: Vec<ShadowPolygon>,
}

/// The vertex rings of a sequence of polygons.
pub open spec fn polys_view(ps: Seq<ShadowPolygon>) -> Seq<Seq<Point2>> {
    ps.map(|i: int, sp: ShadowPolygon| sp.pts@)
}

/// The region as a sequence of vertex rings.
pub open spec fn region_view(r: ShadowRegion) -> Seq<Seq<Point2>> {
    polys_view(r.polys@)
}

/// Every ring of `ss` is in bounds.
pub open spec fn rings_in_bounds(ss: Seq<Seq<Point2>>) -> bool {
    forall|k: int| 0 <= k < ss.len() ==> all_in_bounds(#[trigger] ss[k])
}

/// Every ring of `ss` lies within `b`.
pub open spec fn rings_within(ss: Seq<Seq<Point2>>, b: WorldBoundary) -> bool {
    forall|k: int| 0 <= k < ss.len() ==> all_within(#[trigger] ss[k], b)
}

/// Every ring of `ss` is in bounds and has at least three vertices.
pub open spec fn rings_wf(ss: Seq<Seq<Point2>>) -> bool {
    forall|k: int| 0 <= k < ss.len()
        ==> all_in_bounds(#[trigger] ss[k]) && ss[k].len() >= 3
}

pub open spec fn region_in_bounds(r: ShadowRegion) -> bool {
    rings_in_bounds(region_view(r))
}

/// Every vertex of every polygon of `r` lies within `b`.
pub open spec fn region_within(r: ShadowRegion, b: WorldBoundary) -> bool {
    rings_within(region_view(r), b)
}

/// A well-formed region: bounded vertices, at least three per polygon.
pub open spec fn region_wf(r: ShadowRegion) -> bool {
    rings_wf(region_view(r))
}

/// Twice the signed area of the ring `s` up to its `n`-th vertex
/// (shoelace sum, cyclic).
pub open spec fn area2_partial(s: Seq<Point2>, n: int) -> int
    decreases n,
{
    if n <= 0 {
        0
    } else {
        let i = n - 1;
        let j = if i + 1 == s.len() { 0int } else { i + 1 };
        area2_partial(s, i) + (s[i].x * s[j].y - s[j].x * s[i].y)
    }
}

/// Twice the signed area of the ring `s`: positive for counter-clockwise
/// winding, zero for degenerate rings.
pub open spec fn area2(s: Seq<Point2>) -> int {
    area2_partial(s, s.len() as int)
}

/// Exact shoelace area of a bounded ring, as twice the signed area.
#[verifier::loop_isolation(false)]
pub fn poly_area2(pts: &Vec<Point2>) -> (a: i128)
    requires
        all_in_bounds(pts@),
    ensures
        a == area2(pts@),
{
    let n = pts.len();
    let mut acc: i128 = 0;
    let mut i: usize = 0;
    while i < n
        invariant
            0 <= i <= n,
            acc == area2_partial(pts@, i as int),
            -0x800000000000000 * (i as int) <= acc <= 0x800000000000000 * (i as int),
        decreases n - i,
    {
        let j = if i + 1 == n { 0 } else { i + 1 };
        proof {
            assert((pts@[i as int].x as int) * (pts@[j as int].y as int) <= 0x400000000000000
                && (pts@[i as int].x as int) * (pts@[j as int].y as int) >= -0x400000000000000
                && (pts@[j as int].x as int) * (pts@[i as int].y as int) <= 0x400000000000000
                && (pts@[j as int].x as int) * (pts@[i as int].y as int) >= -0x400000000000000)
                by (nonlinear_arith)
                requires
                    -0x20000000 <= pts@[i as int].x <= 0x20000000,
                    -0x20000000 <= pts@[i as int].y <= 0x20000000,
                    -0x20000000 <= pts@[j as int].x <= 0x20000000,
                    -0x20000000 <= pts@[j as int].y <= 0x20000000,
            ;
            assert(0x800000000000000 * (i as int + 1)
                == 0x800000000000000 * (i as int) + 0x800000000000000) by (nonlinear_arith);
            assert(0x800000000000000 * (n as int) <= 0x800000000000000 * 0x10000000000000000)
                by (nonlinear_arith)
                requires
                    n as int <= 0x10000000000000000,
            ;
        }
        let term = (pts[i].x as i128) * (pts[j].y as i128) - (pts[j].x as i128) * (pts[i].y as i128);
        acc = acc + term;
        i = i + 1;
    }
    acc
}

/// The snapped intersection of segment `(p, q)` with the line through the
/// clip edge, found from the two cross values `c1` (at `p`) and `c2` (at
/// `q`) by similar triangles, truncated toward `p`.
pub open spec fn clip_inter(p: Point2, q: Point2, c1: int, c2: int) -> Point2 {
    let den0 = c1 - c2;
    let numx = if den0 < 0 { -((q.x - p.x) * c1) } else { (q.x - p.x) * c1 };
    let numy = if den0 < 0 { -((q.y - p.y) * c1) } else { (q.y - p.y) * c1 };
    let den = if den0 < 0 { -den0 } else { den0 };
    Point2 {
        x: (p.x + trunc_div(numx, den)) as i64,
        y: (p.y + trunc_div(numy, den)) as i64,
    }
}

/// A clip intersection point stays in the bounding box of its segment.
pub proof fn lemma_clip_inter_between(p: Point2, q: Point2, c1: int, c2: int)
    requires
        in_bounds(p),
        in_bounds(q),
        (c1 >= 0 && c2 < 0) || (c1 < 0 && c2 >= 0),
    ensures
        ({
            let den0 = c1 - c2;
            let den = if den0 < 0 { -den0 } else { den0 };
            let numx = if den0 < 0 { -((q.x - p.x) * c1) } else { (q.x - p.x) * c1 };
            let numy = if den0 < 0 { -((q.y - p.y) * c1) } else { (q.y - p.y) * c1 };
            &&& (if p.x <= q.x { p.x as int } else { q.x as int }) <= p.x + trunc_div(numx, den)
                <= (if p.x <= q.x { q.x as int } else { p.x as int })
            &&& (if p.y <= q.y { p.y as int } else { q.y as int }) <= p.y + trunc_div(numy, den)
                <= (if p.y <= q.y { q.y as int } else { p.y as int })
        }),
        in_bounds(clip_inter(p, q, c1, c2)),
        clip_inter(p, q, c1, c2).x >= if p.x <= q.x { p.x as int } else { q.x as int },
        clip_inter(p, q, c1, c2).x <= if p.x <= q.x { q.x as int } else { p.x as int },
        clip_inter(p, q, c1, c2).y >= if p.y <= q.y { p.y as int } else { q.y as int },
        clip_inter(p, q, c1, c2).y <= if p.y <= q.y { q.y as int } else { p.y as int },
{
    let den0 = c1 - c2;
    let den = if den0 < 0 { -den0 } else { den0 };
    let k = if den0 < 0 { -c1 } else { c1 };
    assert(0 <= k <= den);
    let dx = q.x - p.x;
    let dy = q.y - p.y;
    let numx = dx * k;
    let numy = dy * k;
    assert(numx == if den0 < 0 { -((q.x - p.x) * c1) } else { (q.x - p.x) * c1 })
        by (nonlinear_arith)
        requires
            numx == dx * k,
            dx == q.x - p.x,
            k == if den0 < 0 { -c1 } else { c1 },
    ;
    assert(numy == if den0 < 0 { -((q.y - p.y) * c1) } else { (q.y - p.y) * c1 })
        by (nonlinear_arith)
        requires
            numy == dy * k,
            dy == q.y - p.y,
            k == if den0 < 0 { -c1 } else { c1 },
    ;
    let lox = if dx <= 0 { dx } else { 0int };
    let hix = if dx <= 0 { 0int } else { dx };
    assert(lox * den <= numx <= hix * den && lox * den <= 0 <= hix * den) by (nonlinear_arith)
        requires
            numx == dx * k,
            0 <= k <= den,
            0 < den,
            lox == if dx <= 0 { dx } else { 0int },
            hix == if dx <= 0 { 0int } else { dx },
    ;
    lemma_trunc_div_between(numx, den, lox, hix);
    let loy = if dy <= 0 { dy } else { 0int };
    let hiy = if dy <= 0 { 0int } else { dy };
    assert(loy * den <= numy <= hiy * den && loy * den <= 0 <= hiy * den) by (nonlinear_arith)
        requires
            numy == dy * k,
            0 <= k <= den,
            0 < den,
            loy == if dy <= 0 { dy } else { 0int },
            hiy == if dy <= 0 { 0int } else { dy },
    ;
    lemma_trunc_div_between(numy, den, loy, hiy);
}

/// Exact computation of `clip_inter` on machine integers.
fn clip_inter_exec(p: Point2, q: Point2, c1: i64, c2: i64) -> (r: Point2)
    requires
        in_bounds(p),
        in_bounds(q),
        (c1 >= 0 && c2 < 0) || (c1 < 0 && c2 >= 0),
        -0x2000000000000000 <= c1 <= 0x2000000000000000,
        -0x2000000000000000 <= c2 <= 0x2000000000000000,
    ensures
        r == clip_inter(p, q, c1 as int, c2 as int),
        in_bounds(r),
{
    let den0: i128 = (c1 as i128) - (c2 as i128);
    proof {
        assert(((q.x - p.x) as int) * (c1 as int) <= 0x100000000000000000000000
            && ((q.x - p.x) as int) * (c1 as int) >= -0x100000000000000000000000
            && ((q.y - p.y) as int) * (c1 as int) <= 0x100000000000000000000000
            && ((q.y - p.y) as int) * (c1 as int) >= -0x100000000000000000000000)
            by (nonlinear_arith)
            requires
                -0x40000000 <= q.x - p.x <= 0x40000000,
                -0x40000000 <= q.y - p.y <= 0x40000000,
                -0x2000000000000000 <= c1 <= 0x2000000000000000,
        ;
    }
    let nx0: i128 = ((q.x - p.x) as i128) * (c1 as i128);
    let ny0: i128 = ((q.y - p.y) as i128) * (c1 as i128);
    let (numx, numy, den) = if den0 < 0 {
        (-nx0, -ny0, -den0)
    } else {
        (nx0, ny0, den0)
    };
    let tx = div_trunc_i128(numx, den);
    let ty = div_trunc_i128(numy, den);
    proof {
        lemma_clip_inter_between(p, q, c1 as int, c2 as int);
    }
    Point2 { x: p.x + (tx as i64), y: p.y + (ty as i64) }
}

/// One step of the clip pass: what the edge from `p` to `q` contributes to
/// the output ring, keeping the side where the cross against the clip edge
/// `(a, b)` is nonnegative.
pub open spec fn clip_step(acc: Seq<Point2>, p: Point2, q: Point2, a: Point2, b: Point2)
    -> Seq<Point2> {
    let c1 = cross3(a, b, p);
    let c2 = cross3(a, b, q);
    if c2 >= 0 {
        if c1 < 0 {
            acc.push(clip_inter(p, q, c1, c2)).push(q)
        } else {
            acc.push(q)
        }
    } else {
        if c1 >= 0 {
            acc.push(clip_inter(p, q, c1, c2))
        } else {
            acc
        }
    }
}

/// The clip pass applied to the first `n` edges of the ring `s` (edge `i`
/// runs from the vertex before `i`, cyclically, to vertex `i`).
pub open spec fn clip_upto(s: Seq<Point2>, a: Point2, b: Point2, n: int) -> Seq<Point2>
    decreases n,
{
    if n <= 0 {
        Seq::empty()
    } else {
        let i = n - 1;
        let p = s[if i == 0 { s.len() - 1 } else { i - 1 }];
        clip_step(clip_upto(s, a, b, i), p, s[i], a, b)
    }
}

/// The ring `s` clipped to the closed half-plane on the left of the
/// directed line `(a, b)`.
pub open spec fn spec_clip(s: Seq<Point2>, a: Point2, b: Point2) -> Seq<Point2> {
    clip_upto(s, a, b, s.len() as int)
}

/// Sutherland-Hodgman pass against one directed clip edge.  The output
/// ring never leaves a box that holds the input ring: clipping cannot
/// escape the world, whatever box the caller cares about.
#[verifier::loop_isolation(false)]
pub fn clip_halfplane(pts: &Vec<Point2>, a: Point2, b: Point2) -> (out: Vec<Point2>)
    requires
        all_in_bounds(pts@),
        in_bounds(a),
        in_bounds(b),
    ensures
        out@ == spec_clip(pts@, a, b),
        all_in_bounds(out@),
        forall|bd: WorldBoundary| all_within(pts@, bd) ==> #[trigger] all_within(out@, bd),
{
    let n = pts.len();
    let mut out: Vec<Point2> = Vec::new();
    let mut i: usize = 0;
    while i < n
        invariant
            0 <= i <= n,
            out@ == clip_upto(pts@, a, b, i as int),
            all_in_bounds(out@),
            forall|bd: WorldBoundary| all_within(pts@, bd) ==> #[trigger] all_within(out@, bd),
        decreases n - i,
    {
        let p = if i == 0 { pts[n - 1] } else { pts[i - 1] };
        let q = pts[i];
        let ghost prev = out@;
        let c1 = cross_points(a, b, p);
        let c2 = cross_points(a, b, q);
        if c2 >= 0 {
            if c1 < 0 {
                let m = clip_inter_exec(p, q, c1, c2);
                proof {
                    lemma_clip_inter_between(p, q, c1 as int, c2 as int);
                }
                out.push(m);
            }
            out.push(q);
        } else if c1 >= 0 {
            let m = clip_inter_exec(p, q, c1, c2);
            proof {
                lemma_clip_inter_between(p, q, c1 as int, c2 as int);
            }
            out.push(m);
        }
        proof {
            assert(out@ == clip_step(prev, p, q, a, b));
            assert forall|bd: WorldBoundary| all_within(pts@, bd)
                implies #[trigger] all_within(out@, bd) by {
                assert(all_within(prev, bd));
                assert forall|k: int| 0 <= k < out@.len() implies within(#[trigger] out@[k], bd)
                    by {
                    if k < prev.len() {
                        assert(out@[k] == prev[k]);
                    } else {
                        assert(within(p, bd) && within(q, bd));
                    }
                }
            }
        }
        i = i + 1;
    }
    out
}

/// The vertex rings of a sequence of polygon vertex vectors.
pub open spec fn rings_view(r: Seq<Vec<Point2>>) -> Seq<Seq<Point2>> {
    r.map(|i: int, v: Vec<Point2>| v@)
}

/// An exact copy of a vertex list.
pub(crate) fn clone_points(p: &Vec<Point2>) -> (r: Vec<Point2>)
    ensures
        r@ == p@,
{
    let mut r: Vec<Point2> = Vec::new();
    let mut i: usize = 0;
    while i < p.len()
        invariant
            0 <= i <= p.len(),
            r@ == p@.subrange(0, i as int),
        decreases p.len() - i,
    {
        r.push(p[i]);
        proof {
            assert(r@ =~= p@.subrange(0, i + 1));
        }
        i = i + 1;
    }
    proof {
        assert(r@ =~= p@);
    }
    r
}

/// `s` clipped by the first `n` edges of the ring `q` in turn.
pub open spec fn clip_by_edges_upto(s: Seq<Point2>, q: Seq<Point2>, n: int) -> Seq<Point2>
    decreases n,
{
    if n <= 0 {
        s
    } else {
        let i = n - 1;
        let e2 = q[if i + 1 == q.len() { 0int } else { i + 1 }];
        spec_clip(clip_by_edges_upto(s, q, i), q[i], e2)
    }
}

/// The intersection of `p` with the convex counter-clockwise ring `q`:
/// `p` clipped by every edge of `q`, kept only while it still has at
/// least three vertices and positive area.
pub open spec fn spec_poly_intersection(p: Seq<Point2>, q: Seq<Point2>) -> Option<Seq<Point2>> {
    let c = clip_by_edges_upto(p, q, q.len() as int);
    if c.len() >= 3 && area2(c) > 0 {
        Some(c)
    } else {
        None
    }
}

/// Clip `p` against every edge of the convex counter-clockwise ring `q`.
/// Returns the intersection piece, or `None` when it is degenerate.
#[verifier::loop_isolation(false)]
pub fn poly_intersection(p: &Vec<Point2>, q: &Vec<Point2>) -> (r: Option<Vec<Point2>>)
    requires
        all_in_bounds(p@),
        all_in_bounds(q@),
    ensures
        r is Some <==> spec_poly_intersection(p@, q@) is Some,
        r matches Some(c) ==> {
            &&& c@ == spec_poly_intersection(p@, q@)->Some_0
            &&& all_in_bounds(c@)
            &&& c@.len() >= 3
            &&& area2(c@) > 0
            &&& forall|bd: WorldBoundary| all_within(p@, bd) ==> #[trigger] all_within(c@, bd)
        },
{
    let m = q.len();
    let mut cur = clone_points(p);
    let mut i: usize = 0;
    while i < m
        invariant
            0 <= i <= m,
            cur@ == clip_by_edges_upto(p@, q@, i as int),
            all_in_bounds(cur@),
            forall|bd: WorldBoundary| all_within(p@, bd) ==> #[trigger] all_within(cur@, bd),
        decreases m - i,
    {
        let e1 = q[i];
        let e2 = q[if i + 1 == m { 0 } else { i + 1 }];
        cur = clip_halfplane(&cur, e1, e2);
        i = i + 1;
    }
    if cur.len() < 3 {
        return None;
    }
    let a = poly_area2(&cur);
    if a <= 0 {
        None
    } else {
        Some(cur)
    }
}

/// State after cutting `p` by the first `n` edges of the convex ring `q`:
/// what is left of `p` inside those edges, paired with the pieces of `p`
/// found outside them (the fan decomposition of the difference).
/// Degenerate pieces are dropped.
pub open spec fn diff_upto(p: Seq<Point2>, q: Seq<Point2>, n: int) -> (Seq<Point2>, Seq<
    Seq<Point2>,
>)
    decreases n,
{
    if n <= 0 {
        (p, Seq::empty())
    } else {
        let i = n - 1;
        let prev = diff_upto(p, q, i);
        let e1 = q[i];
        let e2 = q[if i + 1 == q.len() { 0int } else { i + 1 }];
        let outside = spec_clip(prev.0, e2, e1);
        let keep = outside.len() >= 3 && area2(outside) > 0;
        (spec_clip(prev.0, e1, e2), if keep { prev.1.push(outside) } else { prev.1 })
    }
}

/// The pieces of `p` lying outside the convex counter-clockwise ring `q`.
pub open spec fn spec_poly_difference(p: Seq<Point2>, q: Seq<Point2>) -> Seq<Seq<Point2>> {
    diff_upto(p, q, q.len() as int).1
}

/// Decompose the part of `p` outside the convex ring `q` into convex
/// pieces: for each edge of `q`, the part of what remains of `p` beyond
/// that edge becomes one piece.
#[verifier::loop_isolation(false)]
pub fn poly_difference(p: &Vec<Point2>, q: &Vec<Point2>) -> (r: Vec<Vec<Point2>>)
    requires
        all_in_bounds(p@),
        all_in_bounds(q@),
    ensures
        rings_view(r@) == spec_poly_difference(p@, q@),
        rings_wf(rings_view(r@)),
        forall|bd: WorldBoundary| all_within(p@, bd)
            ==> #[trigger] rings_within(rings_view(r@), bd),
{
    let m = q.len();
    let mut rest = clone_points(p);
    let mut pieces: Vec<Vec<Point2>> = Vec::new();
    let mut i: usize = 0;
    while i < m
        invariant
            0 <= i <= m,
            rest@ == diff_upto(p@, q@, i as int).0,
            rings_view(pieces@) == diff_upto(p@, q@, i as int).1,
            all_in_bounds(rest@),
            rings_wf(rings_view(pieces@)),
            forall|bd: WorldBoundary| all_within(p@, bd) ==> #[trigger] all_within(rest@, bd),
            forall|bd: WorldBoundary| all_within(p@, bd)
                ==> #[trigger] rings_within(rings_view(pieces@), bd),
        decreases m - i,
    {
        let e1 = q[i];
        let e2 = q[if i + 1 == m { 0 } else { i + 1 }];
        let ghost old_pieces = rings_view(pieces@);
        let outside = clip_halfplane(&rest, e2, e1);
        let mut keep = outside.len() >= 3;
        if keep {
            let a = poly_area2(&outside);
            keep = a > 0;
        }
        if keep {
            pieces.push(outside);
            proof {
                assert(rings_view(pieces@) =~= old_pieces.push(pieces@[pieces@.len() - 1]@));
            }
        }
        rest = clip_halfplane(&rest, e1, e2);
        proof {
            assert forall|bd: WorldBoundary| all_within(p@, bd)
                implies #[trigger] rings_within(rings_view(pieces@), bd) by {
                assert(rings_within(old_pieces, bd));
                assert forall|k: int| 0 <= k < rings_view(pieces@).len()
                    implies all_within(#[trigger] rings_view(pieces@)[k], bd) by {
                    if k < old_pieces.len() {
                        assert(rings_view(pieces@)[k] == old_pieces[k]);
                    }
                }
            }
        }
        i = i + 1;
    }
    pieces
}

/// Each ring of `ss` (up to the `m`-th) cut by the convex ring `cutter`,
/// all resulting pieces in order.
pub open spec fn cut_each_upto(ss: Seq<Seq<Point2>>, cutter: Seq<Point2>, m: int) -> Seq<
    Seq<Point2>,
>
    decreases m,
{
    if m <= 0 {
        Seq::empty()
    } else {
        cut_each_upto(ss, cutter, m - 1) + spec_poly_difference(ss[m - 1], cutter)
    }
}

/// The pieces of `ss` left after cutting away the first `n` rings of
/// `cutters` in turn.
pub open spec fn cut_pieces_upto(ss: Seq<Seq<Point2>>, cutters: Seq<Seq<Point2>>, n: int) -> Seq<
    Seq<Point2>,
>
    decreases n,
{
    if n <= 0 {
        ss
    } else {
        cut_each_upto(cut_pieces_upto(ss, cutters, n - 1), cutters[n - 1], cut_pieces_upto(
            ss,
            cutters,
            n - 1,
        ).len() as int)
    }
}

/// Cut every piece by `cutter`, collecting the fragments.
#[verifier::loop_isolation(false)]
fn cut_each(pieces: &Vec<Vec<Point2>>, cutter: &Vec<Point2>) -> (r: Vec<Vec<Point2>>)
    requires
        rings_in_bounds(rings_view(pieces@)),
        all_in_bounds(cutter@),
    ensures
        rings_view(r@) == cut_each_upto(rings_view(pieces@), cutter@, pieces@.len() as int),
        rings_wf(rings_view(r@)),
        forall|bd: WorldBoundary| rings_within(rings_view(pieces@), bd)
            ==> #[trigger] rings_within(rings_view(r@), bd),
{
    let mut r: Vec<Vec<Point2>> = Vec::new();
    let mut k: usize = 0;
    while k < pieces.len()
        invariant
            0 <= k <= pieces.len(),
            rings_view(r@) == cut_each_upto(rings_view(pieces@), cutter@, k as int),
            rings_wf(rings_view(r@)),
            forall|bd: WorldBoundary| rings_within(rings_view(pieces@), bd)
                ==> #[trigger] rings_within(rings_view(r@), bd),
        decreases pieces.len() - k,
    {
        let ghost old_r = rings_view(r@);
        proof {
            assert(all_in_bounds(rings_view(pieces@)[k as int]));
            assert(rings_view(pieces@)[k as int] == pieces@[k as int]@);
        }
        let mut d = poly_difference(&pieces[k], cutter);
        let ghost dv = rings_view(d@);
        r.append(&mut d);
        proof {
            assert(rings_view(r@) =~= old_r + dv);
            assert forall|bd: WorldBoundary| rings_within(rings_view(pieces@), bd)
                implies #[trigger] rings_within(rings_view(r@), bd) by {
                assert(all_within(rings_view(pieces@)[k as int], bd));
                assert(rings_view(pieces@)[k as int] == pieces@[k as int]@);
                assert(rings_within(old_r, bd));
                assert(rings_within(dv, bd));
                assert forall|t: int| 0 <= t < rings_view(r@).len()
                    implies all_within(#[trigger] rings_view(r@)[t], bd) by {
                    if t < old_r.len() {
                        assert(rings_view(r@)[t] == old_r[t]);
                    } else {
                        assert(rings_view(r@)[t] == dv[t - old_r.len()]);
                    }
                }
            }
            assert forall|t: int| 0 <= t < rings_view(r@).len()
                implies all_in_bounds(#[trigger] rings_view(r@)[t])
                    && rings_view(r@)[t].len() >= 3 by {
                if t < old_r.len() {
                    assert(rings_view(r@)[t] == old_r[t]);
                } else {
                    assert(rings_view(r@)[t] == dv[t - old_r.len()]);
                }
            }
        }
        k = k + 1;
    }
    r
}

/// Cut the pieces by every polygon of `cutters` in turn.
#[verifier::loop_isolation(false)]
fn cut_by_all(pieces: Vec<Vec<Point2>>, cutters: &Vec<ShadowPolygon>) -> (r: Vec<Vec<Point2>>)
    requires
        rings_in_bounds(rings_view(pieces@)),
        rings_wf(rings_view(pieces@)),
        rings_in_bounds(polys_view(cutters@)),
    ensures
        rings_view(r@) == cut_pieces_upto(rings_view(pieces@), polys_view(cutters@), cutters@.len() as int),
        rings_wf(rings_view(r@)),
        forall|bd: WorldBoundary| rings_within(rings_view(pieces@), bd)
            ==> #[trigger] rings_within(rings_view(r@), bd),
{
    let mut cur = pieces;
    let mut n: usize = 0;
    while n < cutters.len()
        invariant
            0 <= n <= cutters.len(),
            rings_view(cur@) == cut_pieces_upto(rings_view(pieces@), polys_view(cutters@), n as int),
            rings_wf(rings_view(cur@)),
            forall|bd: WorldBoundary| rings_within(rings_view(pieces@), bd)
                ==> #[trigger] rings_within(rings_view(cur@), bd),
        decreases cutters.len() - n,
    {
        proof {
            assert(all_in_bounds(polys_view(cutters@)[n as int]));
            assert(polys_view(cutters@)[n as int] == cutters@[n as int].pts@);
        }
        cur = cut_each(&cur, &cutters[n].pts);
        n = n + 1;
    }
    cur
}

/// Adding one polygon to a union: the pieces of it outside `acc` are
/// appended to `acc`.
pub open spec fn spec_union_push(acc: Seq<Seq<Point2>>, poly: Seq<Point2>) -> Seq<Seq<Point2>> {
    acc + cut_pieces_upto(seq![poly], acc, acc.len() as int)
}

/// The union region of `a` and the first `n` polygons of `b`.
pub open spec fn spec_region_union_upto(a: Seq<Seq<Point2>>, b: Seq<Seq<Point2>>, n: int) -> Seq<
    Seq<Point2>,
>
    decreases n,
{
    if n <= 0 {
        a
    } else {
        spec_union_push(spec_region_union_upto(a, b, n - 1), b[n - 1])
    }
}

/// The union of two regions: `a` untouched, plus, for each polygon of `b`
/// in turn, its pieces outside everything already present.  The result
/// covers exactly the union of the two areas, as disjoint pieces.
pub open spec fn spec_region_union(a: Seq<Seq<Point2>>, b: Seq<Seq<Point2>>) -> Seq<Seq<Point2>> {
    spec_region_union_upto(a, b, b.len() as int)
}

/// All pairwise intersection pieces of `p` with the first `m` polygons of
/// `bs`.
pub open spec fn inter_row(p: Seq<Point2>, bs: Seq<Seq<Point2>>, m: int) -> Seq<Seq<Point2>>
    decreases m,
{
    if m <= 0 {
        Seq::empty()
    } else {
        inter_row(p, bs, m - 1) + match spec_poly_intersection(p, bs[m - 1]) {
            Some(c) => seq![c],
            None => Seq::empty(),
        }
    }
}

pub open spec fn spec_region_intersection_upto(
    a: Seq<Seq<Point2>>,
    b: Seq<Seq<Point2>>,
    n: int,
) -> Seq<Seq<Point2>>
    decreases n,
{
    if n <= 0 {
        Seq::empty()
    } else {
        spec_region_intersection_upto(a, b, n - 1) + inter_row(a[n - 1], b, b.len() as int)
    }
}

/// The intersection of two regions: every pairwise intersection piece of
/// a polygon of `a` with a polygon of `b`.  Because each region's own
/// pieces are disjoint, so are the pieces of the result.
pub open spec fn spec_region_intersection(a: Seq<Seq<Point2>>, b: Seq<Seq<Point2>>) -> Seq<
    Seq<Point2>,
> {
    spec_region_intersection_upto(a, b, a.len() as int)
}

impl ShadowRegion {
    /// The region with no polygons: an empty shadow.
    pub fn empty() -> (r: ShadowRegion)
        ensures
            region_view(r) == Seq::<Seq<Point2>>::empty(),
            region_wf(r),
    {
        let r = ShadowRegion { polys: Vec::new() };
        proof {
            assert(region_view(r) =~= Seq::<Seq<Point2>>::empty());
        }
        r
    }

    /// A region holding a single polygon.
    pub fn from_polygon(p: ShadowPolygon) -> (r: ShadowRegion)
        ensures
            region_view(r) =~= seq![p.pts@],
    {
        let mut polys: Vec<ShadowPolygon> = Vec::new();
        polys.push(p);
        let r = ShadowRegion { polys };
        proof {
            assert(region_view(r) =~= seq![r.polys@[0].pts@]);
        }
        r
    }

    /// The union of this region with `other`, in snapped integer
    /// coordinates: this region's pieces stay as they are, and each
    /// polygon of `other` contributes the pieces of itself that lie
    /// outside everything already collected, so the result covers the
    /// union of the two areas with disjoint pieces.  No output vertex
    /// leaves a boundary that holds both inputs.
    #[verifier::loop_isolation(false)]
    pub fn scaled_union(&self, other: &ShadowRegion) -> (r: ShadowRegion)
        requires
            region_wf(*self),
            region_wf(*other),
        ensures
            region_view(r) == spec_region_union(region_view(*self), region_view(*other)),
            region_wf(r),
            forall|bd: WorldBoundary| region_within(*self, bd) && region_within(*other, bd)
                ==> #[trigger] region_within(r, bd),
    {
        let mut out: Vec<ShadowPolygon> = Vec::new();
        let mut i: usize = 0;
        while i < self.polys.len()
            invariant
                0 <= i <= self.polys@.len(),
                polys_view(out@) == region_view(*self).subrange(0, i as int),
            decreases self.polys@.len() - i,
        {
            out.push(ShadowPolygon { pts: clone_points(&self.polys[i].pts) });
            proof {
                assert(polys_view(out@) =~= region_view(*self).subrange(0, i + 1));
            }
            i = i + 1;
        }
        proof {
            assert(polys_view(out@) =~= region_view(*self));
        }
        let mut j: usize = 0;
        while j < other.polys.len()
            invariant
                0 <= j <= other.polys@.len(),
                polys_view(out@) == spec_region_union_upto(
                    region_view(*self),
                    region_view(*other),
                    j as int,
                ),
                rings_wf(polys_view(out@)),
                forall|bd: WorldBoundary|
                    rings_within(region_view(*self), bd) && rings_within(region_view(*other), bd)
                        ==> #[trigger] rings_within(polys_view(out@), bd),
            decreases other.polys@.len() - j,
        {
            let ghost acc = polys_view(out@);
            let mut start: Vec<Vec<Point2>> = Vec::new();
            start.push(clone_points(&other.polys[j].pts));
            proof {
                assert(rings_view(start@) =~= seq![region_view(*other)[j as int]]);
                assert forall|bd: WorldBoundary|
                    rings_within(region_view(*self), bd) && rings_within(region_view(*other), bd)
                        implies #[trigger] rings_within(rings_view(start@), bd) by {
                    assert(all_within(region_view(*other)[j as int], bd));
                }
            }
            proof {
                assert(rings_in_bounds(polys_view(out@))) by {
                    assert forall|k: int| 0 <= k < polys_view(out@).len()
                        implies all_in_bounds(#[trigger] polys_view(out@)[k]) by {
                        assert(rings_wf(polys_view(out@)));
                    }
                }
            }
            let pieces = cut_by_all(start, &out);
            let mut t: usize = 0;
            while t < pieces.len()
                invariant
                    0 <= t <= pieces@.len(),
                    polys_view(out@) == acc + rings_view(pieces@).subrange(0, t as int),
                decreases pieces@.len() - t,
            {
                let ghost prev_out = out@;
                out.push(ShadowPolygon { pts: clone_points(&pieces[t]) });
                proof {
                    assert(rings_view(pieces@)[t as int] == pieces@[t as int]@);
                    assert(polys_view(out@) =~= polys_view(prev_out).push(pieces@[t as int]@));
                    assert(polys_view(prev_out).push(rings_view(pieces@)[t as int]) =~= acc
                        + rings_view(pieces@).subrange(0, t + 1));
                }
                t = t + 1;
            }
            proof {
                assert(polys_view(out@) =~= acc + rings_view(pieces@));
                assert forall|bd: WorldBoundary|
                    rings_within(region_view(*self), bd) && rings_within(region_view(*other), bd)
                        implies #[trigger] rings_within(polys_view(out@), bd) by {
                    assert(rings_within(acc, bd));
                    assert(rings_within(rings_view(pieces@), bd));
                    assert forall|k: int| 0 <= k < polys_view(out@).len()
                        implies all_within(#[trigger] polys_view(out@)[k], bd) by {
                        if k < acc.len() {
                            assert(polys_view(out@)[k] == acc[k]);
                        } else {
                            assert(polys_view(out@)[k] == rings_view(pieces@)[k - acc.len()]);
                        }
                    }
                }
                assert forall|k: int| 0 <= k < polys_view(out@).len()
                    implies all_in_bounds(#[trigger] polys_view(out@)[k])
                        && polys_view(out@)[k].len() >= 3 by {
                    if k < acc.len() {
                        assert(polys_view(out@)[k] == acc[k]);
                    } else {
                        assert(polys_view(out@)[k] == rings_view(pieces@)[k - acc.len()]);
                    }
                }
            }
            j = j + 1;
        }
        ShadowRegion { polys: out }
    }

    /// The intersection of this region with `other`, in snapped integer
    /// coordinates: every pairwise intersection piece of one polygon of
    /// each region.  No output vertex leaves a boundary that holds this
    /// region.
    #[verifier::loop_isolation(false)]
    pub fn scaled_intersection(&self, other: &ShadowRegion) -> (r: ShadowRegion)
        requires
            region_in_bounds(*self),
            region_in_bounds(*other),
        ensures
            region_view(r) == spec_region_intersection(region_view(*self), region_view(*other)),
            region_wf(r),
            forall|bd: WorldBoundary| region_within(*self, bd)
                ==> #[trigger] region_within(r, bd),
    {
        let mut out: Vec<ShadowPolygon> = Vec::new();
        let mut i: usize = 0;
        while i < self.polys.len()
            invariant
                0 <= i <= self.polys@.len(),
                polys_view(out@) == spec_region_intersection_upto(
                    region_view(*self),
                    region_view(*other),
                    i as int,
                ),
                rings_wf(polys_view(out@)),
                forall|bd: WorldBoundary| rings_within(region_view(*self), bd)
                    ==> #[trigger] rings_within(polys_view(out@), bd),
            decreases self.polys@.len() - i,
        {
            let mut j: usize = 0;
            while j < other.polys.len()
                invariant
                    0 <= j <= other.polys@.len(),
                    polys_view(out@) == spec_region_intersection_upto(
                        region_view(*self),
                        region_view(*other),
                        i as int,
                    ) + inter_row(region_view(*self)[i as int], region_view(*other), j as int),
                    rings_wf(polys_view(out@)),
                    forall|bd: WorldBoundary| rings_within(region_view(*self), bd)
                        ==> #[trigger] rings_within(polys_view(out@), bd),
                decreases other.polys@.len() - j,
            {
                let ghost before = polys_view(out@);
                proof {
                    assert(all_in_bounds(region_view(*self)[i as int]));
                    assert(region_view(*self)[i as int] == self.polys@[i as int].pts@);
                    assert(all_in_bounds(region_view(*other)[j as int]));
                    assert(region_view(*other)[j as int] == other.polys@[j as int].pts@);
                }
                match poly_intersection(&self.polys[i].pts, &other.polys[j].pts) {
                    Some(c) => {
                        out.push(ShadowPolygon { pts: c });
                        proof {
                            assert(polys_view(out@) =~= before.push(
                                polys_view(out@)[polys_view(out@).len() - 1],
                            ));
                            assert forall|bd: WorldBoundary|
                                rings_within(region_view(*self), bd)
                                    implies #[trigger] rings_within(polys_view(out@), bd) by {
                                assert(all_within(region_view(*self)[i as int], bd));
                                assert(rings_within(before, bd));
                                assert forall|k: int| 0 <= k < polys_view(out@).len()
                                    implies all_within(#[trigger] polys_view(out@)[k], bd) by {
                                    if k < before.len() {
                                        assert(polys_view(out@)[k] == before[k]);
                                    }
                                }
                            }
                        }
                    },
                    None => {
                        proof {
                            assert(polys_view(out@) =~= before + Seq::<Seq<Point2>>::empty());
                        }
                    },
                }
                j = j + 1;
            }
            i = i + 1;
        }
        ShadowRegion { polys: out }
    }
}

/// Every vertex of `s` lies on the kept side of the directed line
/// `(a, b)`.
pub open spec fn on_left(s: Seq<Point2>, a: Point2, b: Point2) -> bool {
    forall|i: int| 0 <= i < s.len() ==> cross3(a, b, #[trigger] s[i]) >= 0
}

/// Every vertex of `s` lies exactly on the line through `a` and `b`.
pub open spec fn ring_on_line(s: Seq<Point2>, a: Point2, b: Point2) -> bool {
    forall|i: int| 0 <= i < s.len() ==> cross3(a, b, #[trigger] s[i]) == 0
}

/// The index after `i` on the ring `s`, cyclically.
pub open spec fn nxt(s: Seq<Point2>, i: int) -> int {
    if i + 1 == s.len() {
        0int
    } else {
        i + 1
    }
}

/// The ring is globally convex and counter-clockwise: every vertex lies
/// on the kept side of every directed edge, and no edge is degenerate.
pub open spec fn fully_convex(s: Seq<Point2>) -> bool {
    &&& forall|i: int| 0 <= i < s.len() ==> #[trigger] on_left(s, s[i], s[nxt(s, i)])
    &&& forall|i: int| 0 <= i < s.len() ==> #[trigger] s[i] != s[nxt(s, i)]
}

/// A truncated quotient of an exact multiple is exact.
pub proof fn lemma_trunc_div_exact(m: int, d: int)
    requires
        0 < d,
    ensures
        trunc_div(m * d, d) == m,
{
    if m >= 0 {
        assert(m * d >= 0) by (nonlinear_arith)
            requires
                m >= 0,
                0 < d,
        ;
        vstd::arithmetic::div_mod::lemma_div_multiples_vanish(m, d);
        assert(d * m == m * d) by (nonlinear_arith);
    } else {
        assert(m * d <= 0) by (nonlinear_arith)
            requires
                m <= 0,
                0 < d,
        ;
        vstd::arithmetic::div_mod::lemma_div_multiples_vanish(-m, d);
        assert(d * (-m) == -(m * d)) by (nonlinear_arith);
    }
}

/// For two points on the line through `a` and `b`, the shoelace term
/// telescopes through the potential `v.x * a.y - v.y * a.x`.
proof fn lemma_collinear_term(a: Point2, b: Point2, p: Point2, q: Point2)
    requires
        a != b,
        cross3(a, b, p) == 0,
        cross3(a, b, q) == 0,
    ensures
        p.x * q.y - q.x * p.y == (p.x * a.y - p.y * a.x) - (q.x * a.y - q.y * a.x),
{
    let uv = (p.x - a.x) * (q.y - a.y) - (p.y - a.y) * (q.x - a.x);
    let cp = (b.x - a.x) * (p.y - a.y) - (b.y - a.y) * (p.x - a.x);
    let cq = (b.x - a.x) * (q.y - a.y) - (b.y - a.y) * (q.x - a.x);
    assert(cp == 0 && cq == 0);
    assert((b.x - a.x) * uv == (p.x - a.x) * cq - (q.x - a.x) * cp) by (nonlinear_arith)
        requires
            uv == (p.x - a.x) * (q.y - a.y) - (p.y - a.y) * (q.x - a.x),
            cp == (b.x - a.x) * (p.y - a.y) - (b.y - a.y) * (p.x - a.x),
            cq == (b.x - a.x) * (q.y - a.y) - (b.y - a.y) * (q.x - a.x),
    ;
    assert((b.y - a.y) * uv == (p.y - a.y) * cq - (q.y - a.y) * cp) by (nonlinear_arith)
        requires
            uv == (p.x - a.x) * (q.y - a.y) - (p.y - a.y) * (q.x - a.x),
            cp == (b.x - a.x) * (p.y - a.y) - (b.y - a.y) * (p.x - a.x),
            cq == (b.x - a.x) * (q.y - a.y) - (b.y - a.y) * (q.x - a.x),
    ;
    assert(uv == 0) by (nonlinear_arith)
        requires
            (b.x - a.x) * uv == 0,
            (b.y - a.y) * uv == 0,
            b.x - a.x != 0 || b.y - a.y != 0,
    ;
    assert(p.x * q.y - q.x * p.y == uv + (p.x * a.y - p.y * a.x) - (q.x * a.y - q.y * a.x))
        by (nonlinear_arith)
        requires
            uv == (p.x - a.x) * (q.y - a.y) - (p.y - a.y) * (q.x - a.x),
    ;
}

/// The shoelace partial sum of a collinear ring telescopes.
proof fn lemma_collinear_partial(s: Seq<Point2>, a: Point2, b: Point2, n: int)
    requires
        a != b,
        ring_on_line(s, a, b),
        0 <= n <= s.len(),
    ensures
        ({
            let j = if n == s.len() && n > 0 { 0int } else { n };
            area2_partial(s, n) == (s[0].x * a.y - s[0].y * a.x) - (s[j].x * a.y - s[j].y * a.x)
        }),
    decreases n,
{
    if n > 0 {
        lemma_collinear_partial(s, a, b, n - 1);
        let i = n - 1;
        let j = if i + 1 == s.len() { 0int } else { i + 1 };
        lemma_collinear_term(a, b, s[i], s[j]);
    }
}

/// A ring whose vertices all lie on one line has zero area.
pub proof fn lemma_collinear_area_zero(s: Seq<Point2>, a: Point2, b: Point2)
    requires
        a != b,
        ring_on_line(s, a, b),
    ensures
        area2(s) == 0,
{
    if s.len() > 0 {
        lemma_collinear_partial(s, a, b, s.len() as int);
    }
}

/// Clipping a ring to a half-plane that already holds every vertex
/// changes nothing.
proof fn lemma_clip_keeps_upto(s: Seq<Point2>, a: Point2, b: Point2, n: int)
    requires
        on_left(s, a, b),
        0 <= n <= s.len(),
    ensures
        clip_upto(s, a, b, n) == s.subrange(0, n),
    decreases n,
{
    if n > 0 {
        lemma_clip_keeps_upto(s, a, b, n - 1);
        assert(s.subrange(0, n - 1).push(s[n - 1]) =~= s.subrange(0, n));
    } else {
        assert(Seq::<Point2>::empty() =~= s.subrange(0, 0));
    }
}

/// Clipping a ring to the closed half-plane of one of its own supporting
/// lines returns it unchanged.
pub proof fn lemma_clip_keeps_all(s: Seq<Point2>, a: Point2, b: Point2)
    requires
        on_left(s, a, b),
    ensures
        spec_clip(s, a, b) == s,
{
    lemma_clip_keeps_upto(s, a, b, s.len() as int);
    assert(s.subrange(0, s.len() as int) =~= s);
}

/// Clipping a ring to the complement of a half-plane that holds every
/// vertex leaves only points on the dividing line itself: kept vertices
/// sit on the line, and every crossing point is an endpoint emitted
/// exactly.
proof fn lemma_reverse_clip_on_line_upto(s: Seq<Point2>, a: Point2, b: Point2, n: int)
    requires
        on_left(s, a, b),
        0 <= n <= s.len(),
    ensures
        ring_on_line(clip_upto(s, b, a, n), a, b),
    decreases n,
{
    if n > 0 {
        lemma_reverse_clip_on_line_upto(s, a, b, n - 1);
        let prev = clip_upto(s, b, a, n - 1);
        let i = n - 1;
        let p = s[if i == 0 { s.len() - 1 } else { i - 1 }];
        let q = s[i];
        let c1 = cross3(b, a, p);
        let c2 = cross3(b, a, q);
        assert(cross3(b, a, p) == -cross3(a, b, p)) by (nonlinear_arith);
        assert(cross3(b, a, q) == -cross3(a, b, q)) by (nonlinear_arith);
        let cur = clip_step(prev, p, q, b, a);
        if c2 >= 0 {
            assert(cross3(a, b, q) == 0);
            if c1 < 0 {
                let m = clip_inter(p, q, c1, c2);
                assert(c2 == 0);
                assert(-((q.x - p.x) * c1) == (q.x - p.x) * (-c1)) by (nonlinear_arith);
                assert(-((q.y - p.y) * c1) == (q.y - p.y) * (-c1)) by (nonlinear_arith);
                lemma_trunc_div_exact(q.x - p.x, -c1);
                lemma_trunc_div_exact(q.y - p.y, -c1);
                assert(m == q);
                assert forall|k: int| 0 <= k < cur.len()
                    implies cross3(a, b, #[trigger] cur[k]) == 0 by {
                    if k < prev.len() {
                        assert(cur[k] == prev[k]);
                    }
                }
            } else {
                assert forall|k: int| 0 <= k < cur.len()
                    implies cross3(a, b, #[trigger] cur[k]) == 0 by {
                    if k < prev.len() {
                        assert(cur[k] == prev[k]);
                    }
                }
            }
        } else {
            if c1 >= 0 {
                let m = clip_inter(p, q, c1, c2);
                assert(cross3(a, b, p) == 0);
                assert(c1 == 0);
                assert((q.x - p.x) * c1 == 0 * (c1 - c2)) by (nonlinear_arith)
                    requires
                        c1 == 0,
                ;
                assert((q.y - p.y) * c1 == 0 * (c1 - c2)) by (nonlinear_arith)
                    requires
                        c1 == 0,
                ;
                lemma_trunc_div_exact(0, c1 - c2);
                assert(m == p);
                assert forall|k: int| 0 <= k < cur.len()
                    implies cross3(a, b, #[trigger] cur[k]) == 0 by {
                    if k < prev.len() {
                        assert(cur[k] == prev[k]);
                    }
                }
            }
        }
    }
}

/// Cutting a globally convex ring by its own edges yields no pieces at
/// all: the part inside each edge is the whole ring, and the part beyond
/// each edge collapses onto the edge's line.
proof fn lemma_diff_self_empty_upto(p: Seq<Point2>, n: int)
    requires
        fully_convex(p),
        0 <= n <= p.len(),
    ensures
        diff_upto(p, p, n).0 == p,
        diff_upto(p, p, n).1 == Seq::<Seq<Point2>>::empty(),
    decreases n,
{
    if n > 0 {
        lemma_diff_self_empty_upto(p, n - 1);
        let i = n - 1;
        let e1 = p[i];
        let e2 = p[nxt(p, i)];
        assert(on_left(p, e1, e2));
        assert(e1 != e2);
        lemma_clip_keeps_all(p, e1, e2);
        lemma_reverse_clip_on_line_upto(p, e1, e2, p.len() as int);
        lemma_collinear_area_zero(spec_clip(p, e2, e1), e1, e2);
    }
}

/// Union is idempotent on a single globally convex polygon: the region
/// holding it, unioned with itself, is unchanged — in particular the
/// union's area equals the polygon's own area exactly.
pub proof fn lemma_union_self_identity(p: Seq<Point2>)
    requires
        fully_convex(p),
    ensures
        spec_region_union(seq![p], seq![p]) == seq![p],
{
    lemma_diff_self_empty_upto(p, p.len() as int);
    let one = seq![p];
    assert(one[0] == p);
    assert(spec_poly_difference(p, p) =~= Seq::<Seq<Point2>>::empty());
    assert(cut_each_upto(one, p, 0) =~= Seq::<Seq<Point2>>::empty());
    assert(cut_each_upto(one, p, 1) =~= Seq::<Seq<Point2>>::empty());
    assert(cut_pieces_upto(one, one, 0) == one);
    assert(cut_pieces_upto(one, one, 1) =~= Seq::<Seq<Point2>>::empty());
    assert(spec_region_union_upto(one, one, 0) == one);
    assert(spec_union_push(one, p) =~= one);
    assert(spec_region_union_upto(one, one, 1) =~= one);
    assert(spec_region_union(one, one) == spec_region_union_upto(one, one, 1));
}

} // verus!
