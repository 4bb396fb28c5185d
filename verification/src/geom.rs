//! Points in the snapped integer plane, the coordinate bound that keeps all
//! intermediate products inside machine integers, and exact primitives:
//! cross products and truncating division.

use vstd::prelude::*;

verus! {

/// Largest coordinate magnitude the library accepts.  With coordinates in
/// `[-COORD_LIMIT, COORD_LIMIT]` every difference fits in 31 bits, every
/// cross product in 62 bits, so all `i64` arithmetic below is exact.
pub const COORD_LIMIT: i64 = 536870912;

/// A point (or vector) of the snapped integer coordinate plane.
#[derive(Clone, Copy, Debug, PartialEq, Eq, Structural)]
pub struct Point2 {
    pub x: i64,
    pub y: i64,
}

/// Both coordinates of `p` are within the magnitude the library accepts.
pub open spec fn in_bounds(p: Point2) -> bool {
    &&& -COORD_LIMIT <= p.x <= COORD_LIMIT
    &&& -COORD_LIMIT <= p.y <= COORD_LIMIT
}

/// Every point of `s` is within the magnitude the library accepts.
pub open spec fn all_in_bounds(s: Seq<Point2>) -> bool {
    forall|i: int| 0 <= i < s.len() ==> in_bounds(#[trigger] s[i])
}

/// Twice the signed area of the triangle `(a, b, c)`: positive when the
/// three points make a counter-clockwise turn, zero when collinear.
pub open spec fn cross3(a: Point2, b: Point2, c: Point2) -> int {
    (b.x - a.x) * (c.y - a.y) - (b.y - a.y) * (c.x - a.x)
}

/// Exact cross product of bounded points.
pub fn cross_points(a: Point2, b: Point2, c: Point2) -> (r: i64)
    requires
        in_bounds(a),
        in_bounds(b),
        in_bounds(c),
    ensures
        r == cross3(a, b, c),
        -0x2000000000000000 <= r <= 0x2000000000000000,
{
    let ux = b.x - a.x;
    let uy = b.y - a.y;
    let vx = c.x - a.x;
    let vy = c.y - a.y;
    proof {
        assert(ux * vy <= 0x1000000000000000 && ux * vy >= -0x1000000000000000
            && uy * vx <= 0x1000000000000000 && uy * vx >= -0x1000000000000000)
            by (nonlinear_arith)
            requires
                -0x40000000 <= ux <= 0x40000000,
                -0x40000000 <= uy <= 0x40000000,
                -0x40000000 <= vx <= 0x40000000,
                -0x40000000 <= vy <= 0x40000000,
        ;
    }
    ux * vy - uy * vx
}

/// Division that rounds toward zero, the rounding used when a snapped
/// intersection point is produced from an exact rational one.
pub open spec fn trunc_div(a: int, b: int) -> int {
    if a >= 0 {
        a / b
    } else {
        -((-a) / b)
    }
}

/// Exact truncating division on wide intermediates.
pub fn div_trunc_i128(a: i128, b: i128) -> (q: i128)
    requires
        0 < b,
        -0x1000000000000000000000000 <= a <= 0x1000000000000000000000000,
    ensures
        q == trunc_div(a as int, b as int),
{
    if a >= 0 {
        proof {
            lemma_div_at_most_dividend(a as int, b as int);
        }
        ((a as u128) / (b as u128)) as i128
    } else {
        let n = -a;
        proof {
            lemma_div_at_most_dividend(n as int, b as int);
        }
        let q = ((n as u128) / (b as u128)) as i128;
        -q
    }
}

/// For a nonnegative dividend the quotient is between zero and the dividend.
pub proof fn lemma_div_at_most_dividend(a: int, b: int)
    requires
        0 <= a,
        0 < b,
    ensures
        0 <= a / b <= a,
{
    vstd::arithmetic::div_mod::lemma_div_pos_is_pos(a, b);
    vstd::arithmetic::div_mod::lemma_fundamental_div_mod(a, b);
    vstd::arithmetic::mul::lemma_mul_inequality(1, b, a / b);
}

/// When `lo * b <= a <= hi * b` with `lo <= 0 <= hi`, the truncated
/// quotient `a / b` stays between `lo` and `hi`, and keeps the sign of `a`.
pub proof fn lemma_trunc_div_between(a: int, b: int, lo: int, hi: int)
    requires
        0 < b,
        lo <= 0,
        0 <= hi,
        lo * b <= a,
        a <= hi * b,
    ensures
        lo <= trunc_div(a, b) <= hi,
        0 <= a ==> 0 <= trunc_div(a, b),
        a <= 0 ==> trunc_div(a, b) <= 0,
{
    if a >= 0 {
        vstd::arithmetic::div_mod::lemma_div_pos_is_pos(a, b);
        vstd::arithmetic::div_mod::lemma_div_is_ordered(a, hi * b, b);
        vstd::arithmetic::div_mod::lemma_div_multiples_vanish(hi, b);
        assert(hi * b == b * hi) by (nonlinear_arith);
    } else {
        assert(-a <= (-lo) * b) by (nonlinear_arith)
            requires
                lo * b <= a,
        ;
        vstd::arithmetic::div_mod::lemma_div_pos_is_pos(-a, b);
        vstd::arithmetic::div_mod::lemma_div_is_ordered(-a, (-lo) * b, b);
        vstd::arithmetic::div_mod::lemma_div_multiples_vanish(-lo, b);
        assert((-lo) * b == b * (-lo)) by (nonlinear_arith);
    }
}

} // verus!
